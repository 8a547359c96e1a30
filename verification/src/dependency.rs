//! The dependency graph over cell regions: an arena of `CellId` nodes
//! with directed edges from precedent to dependent, and a verified
//! topological order.

use vstd::prelude::*;
use crate::ast::{Expr, ExprV};
use crate::workbook::{view_of_sheets, sheets_wf, Sheet, SheetV};

verus! {

/// A node of the dependency graph: a rectangular region of a sheet.
/// Identity is the position and extent alone; the `calculated` flag is
/// mutable metadata.
#[derive(Clone, Copy, Debug)]
pub struct CellId {
    pub sheet: usize,
    pub row: usize,
    pub column: usize,
    pub num_row: usize,
    pub num_col: usize,
    pub calculated: Option<bool>,
}

/// The node depends on some member of the set (a free-function form of
/// `DependencyTree::spec_waits`, convenient as a quantifier trigger).
pub open spec fn waits_on_member(t: DependencyTree, ns: Seq<CellId>, c: CellId) -> bool {
    t.spec_waits(ns, c)
}

/// Whether some entry of a node list carries the given identity.
pub open spec fn member_of(ns: Seq<CellId>, c: CellId) -> bool {
    exists|m: int| 0 <= m < ns.len() && same_cell(#[trigger] ns[m], c)
}

/// Identity of graph nodes: every positional field agrees.
pub open spec fn same_cell(a: CellId, b: CellId) -> bool {
    a.sheet == b.sheet && a.row == b.row && a.column == b.column && a.num_row == b.num_row
        && a.num_col == b.num_col
}

impl CellId {
    pub fn same(&self, other: &CellId) -> (r: bool)
        ensures
            r == same_cell(*self, *other),
    {
        self.sheet == other.sheet && self.row == other.row && self.column == other.column
            && self.num_row == other.num_row && self.num_col == other.num_col
    }
}

impl CellId {
    /// The ordering of graph nodes: by sheet, then row, then column.
    pub open spec fn spec_cmp_id(self, other: CellId) -> core::cmp::Ordering {
        if self.sheet != other.sheet {
            if self.sheet < other.sheet {
                core::cmp::Ordering::Less
            } else {
                core::cmp::Ordering::Greater
            }
        } else if self.row != other.row {
            if self.row < other.row {
                core::cmp::Ordering::Less
            } else {
                core::cmp::Ordering::Greater
            }
        } else if self.column < other.column {
            core::cmp::Ordering::Less
        } else if self.column > other.column {
            core::cmp::Ordering::Greater
        } else {
            core::cmp::Ordering::Equal
        }
    }

    pub fn cmp_id(&self, other: &CellId) -> (r: core::cmp::Ordering)
        ensures
            r == self.spec_cmp_id(*other),
    {
        if self.sheet != other.sheet {
            if self.sheet < other.sheet {
                core::cmp::Ordering::Less
            } else {
                core::cmp::Ordering::Greater
            }
        } else if self.row != other.row {
            if self.row < other.row {
                core::cmp::Ordering::Less
            } else {
                core::cmp::Ordering::Greater
            }
        } else if self.column < other.column {
            core::cmp::Ordering::Less
        } else if self.column > other.column {
            core::cmp::Ordering::Greater
        } else {
            core::cmp::Ordering::Equal
        }
    }
}

impl PartialEq for CellId {
    fn eq(&self, other: &Self) -> (r: bool) {
        self.same(other)
    }
}

impl vstd::std_specs::cmp::PartialEqSpecImpl for CellId {
    open spec fn obeys_eq_spec() -> bool {
        true
    }

    open spec fn eq_spec(&self, other: &Self) -> bool {
        same_cell(*self, *other)
    }
}

impl Eq for CellId {

}

impl From<(usize, usize, usize, usize, usize, Option<bool>)> for CellId {
    fn from(t: (usize, usize, usize, usize, usize, Option<bool>)) -> (r: CellId)
        ensures
            r.sheet == t.0 && r.row == t.1 && r.column == t.2 && r.num_row == t.3 && r.num_col
                == t.4 && r.calculated == t.5,
    {
        CellId { sheet: t.0, row: t.1, column: t.2, num_row: t.3, num_col: t.4, calculated: t.5 }
    }
}

impl vstd::std_specs::convert::FromSpecImpl<(usize, usize, usize, usize, usize, Option<bool>)> for CellId {
    open spec fn obeys_from_spec() -> bool {
        true
    }

    open spec fn from_spec(t: (usize, usize, usize, usize, usize, Option<bool>)) -> CellId {
        CellId { sheet: t.0, row: t.1, column: t.2, num_row: t.3, num_col: t.4, calculated: t.5 }
    }
}

impl From<(usize, usize, usize, usize, usize)> for CellId {
    fn from(t: (usize, usize, usize, usize, usize)) -> (r: CellId)
        ensures
            r.sheet == t.0 && r.row == t.1 && r.column == t.2 && r.num_row == t.3 && r.num_col
                == t.4 && r.calculated is None,
    {
        CellId { sheet: t.0, row: t.1, column: t.2, num_row: t.3, num_col: t.4, calculated: None }
    }
}

impl vstd::std_specs::convert::FromSpecImpl<(usize, usize, usize, usize, usize)> for CellId {
    open spec fn obeys_from_spec() -> bool {
        true
    }

    open spec fn from_spec(t: (usize, usize, usize, usize, usize)) -> CellId {
        CellId { sheet: t.0, row: t.1, column: t.2, num_row: t.3, num_col: t.4, calculated: None }
    }
}

/// One edge of the graph: the node at `from` must be calculated before
/// the node at `to`.
#[derive(Clone, Copy, PartialEq, Eq, Structural, Debug)]
pub struct Edge {
    pub from: usize,
    pub to: usize,
}

/// The dependency graph: nodes in insertion order, unique by identity,
/// and edges from precedent index to dependent index, unique; `offsets`
/// lists the cells whose formulas hold a volatile function.
pub struct DependencyTree {
    pub nodes: Vec<CellId>,
    pub edges: Vec<Edge>,
    pub offsets: Vec<CellId>,
}

impl DependencyTree {
    /// The structural invariant: edge endpoints in range, no two nodes
    /// with one identity, no duplicate edge.
    pub open spec fn wf(self) -> bool {
        &&& forall|k: int|
            0 <= k < self.edges@.len() ==> (#[trigger] self.edges@[k]).from < self.nodes@.len()
                && self.edges@[k].to < self.nodes@.len()
        &&& forall|i: int, j: int|
            0 <= i < j < self.nodes@.len() ==> !same_cell(
                #[trigger] self.nodes@[i],
                #[trigger] self.nodes@[j],
            )
        &&& forall|k: int, l: int|
            0 <= k < l < self.edges@.len() ==> #[trigger] self.edges@[k] != #[trigger] self.edges@[l]
    }

    pub open spec fn spec_nodes(self) -> Seq<CellId> {
        self.nodes@
    }

    pub open spec fn spec_edges(self) -> Seq<Edge> {
        self.edges@
    }

    /// Whether a region is a node of the graph.
    pub open spec fn has_node(self, c: CellId) -> bool {
        exists|i: int| 0 <= i < self.nodes@.len() && same_cell(#[trigger] self.nodes@[i], c)
    }

    /// Whether the graph holds an edge from precedent `p` to dependent `d`.
    pub open spec fn has_edge(self, p: CellId, d: CellId) -> bool {
        exists|k: int|
            0 <= k < self.edges@.len() && same_cell(
                self.nodes@[(#[trigger] self.edges@[k]).from as int],
                p,
            ) && same_cell(self.nodes@[self.edges@[k].to as int], d)
    }

    /// Everything present stays present when the graph grows.
    pub open spec fn extends(self, old_t: DependencyTree) -> bool {
        &&& old_t.nodes@.is_prefix_of(self.nodes@)
        &&& old_t.edges@.is_prefix_of(self.edges@)
        &&& old_t.offsets@.is_prefix_of(self.offsets@)
    }

    pub fn new() -> (r: DependencyTree)
        ensures
            r.wf(),
            r.spec_nodes().len() == 0,
            r.spec_edges().len() == 0,
            r.offsets@.len() == 0,
    {
        DependencyTree { nodes: Vec::new(), edges: Vec::new(), offsets: Vec::new() }
    }

    fn find_node(&self, cell: &CellId) -> (r: Option<usize>)
        ensures
            match r {
                Some(i) => i < self.nodes@.len() && same_cell(self.nodes@[i as int], *cell),
                None => !self.has_node(*cell),
            },
    {
        let mut i: usize = 0;
        while i < self.nodes.len()
            invariant
                i <= self.nodes@.len(),
                forall|j: int| 0 <= j < i ==> !same_cell(#[trigger] self.nodes@[j], *cell),
            decreases self.nodes@.len() - i,
        {
            if self.nodes[i].same(cell) {
                return Some(i);
            }
            i = i + 1;
        }
        None
    }

    pub fn cell_exists(&self, cell: &CellId) -> (r: bool)
        ensures
            r == self.has_node(*cell),
    {
        self.find_node(cell).is_some()
    }

    /// Insert a node if no node with its identity is present.
    pub fn add_cell(&mut self, cell: CellId)
        requires
            old(self).wf(),
        ensures
            final(self).wf(),
            final(self).extends(*old(self)),
            final(self).has_node(cell),
            final(self).spec_edges() == old(self).spec_edges(),
            final(self).offsets@ == old(self).offsets@,
            forall|c: CellId| old(self).has_node(c) ==> final(self).has_node(c),
            final(self).spec_nodes().len() <= old(self).spec_nodes().len() + 1,
            old(self).has_node(cell) ==> final(self).nodes@ == old(self).nodes@,
            !old(self).has_node(cell) ==> final(self).nodes@ == old(self).nodes@.push(cell),
    {
        if self.find_node(&cell).is_none() {
            self.nodes.push(cell);
            proof {
                assert(self.nodes@.drop_last() =~= old(self).nodes@);
                assert(same_cell(self.nodes@[self.nodes@.len() - 1], cell));
                assert forall|c: CellId| old(self).has_node(c) implies self.has_node(c) by {
                    let i = choose|i: int|
                        0 <= i < old(self).nodes@.len() && same_cell(
                            #[trigger] old(self).nodes@[i],
                            c,
                        );
                    assert(same_cell(self.nodes@[i], c));
                };
            }
        } else {
            proof {
                assert(self.nodes@.is_prefix_of(self.nodes@));
            }
        }
    }

    /// The same as `add_cell`: a node is inserted when absent.
    pub fn add_cell_if_missing(&mut self, cell: &CellId)
        requires
            old(self).wf(),
        ensures
            final(self).wf(),
            final(self).extends(*old(self)),
            final(self).has_node(*cell),
            final(self).spec_edges() == old(self).spec_edges(),
            final(self).offsets@ == old(self).offsets@,
            forall|c: CellId| old(self).has_node(c) ==> final(self).has_node(c),
            old(self).has_node(*cell) ==> final(self).nodes@ == old(self).nodes@,
            !old(self).has_node(*cell) ==> final(self).nodes@ == old(self).nodes@.push(*cell),
    {
        self.add_cell(*cell);
    }

    /// Record that `cell` depends on `precedent`: both become nodes and
    /// the edge precedent → cell is inserted once.
    #[verifier::spinoff_prover]
    pub fn add_precedent(&mut self, precedent: &CellId, cell: &CellId)
        requires
            old(self).wf(),
        ensures
            final(self).wf(),
            final(self).extends(*old(self)),
            final(self).has_edge(*precedent, *cell),
            final(self).offsets@ == old(self).offsets@,
            forall|c: CellId| old(self).has_node(c) ==> final(self).has_node(c),
            forall|p: CellId, d: CellId|
                old(self).has_edge(p, d) ==> #[trigger] final(self).has_edge(p, d),
            old(self).has_edge(*precedent, *cell) ==> final(self).nodes@ == old(self).nodes@
                && final(self).edges@ == old(self).edges@,
            final(self).nodes@.len() <= old(self).nodes@.len() + 2,
            forall|k: int|
                old(self).nodes@.len() <= k < final(self).nodes@.len()
                    ==> final(self).nodes@[k] == *precedent || final(self).nodes@[k] == *cell,
            final(self).edges@.len() <= old(self).edges@.len() + 1,
            forall|x: CellId, y: CellId|
                #[trigger] final(self).has_edge(x, y) ==> old(self).has_edge(x, y) || (same_cell(
                    x,
                    *precedent,
                ) && same_cell(y, *cell)),
    {
        let ghost pre = *self;
        self.add_cell_if_missing(precedent);
        self.add_cell_if_missing(cell);
        proof {
            assert forall|p: CellId, d: CellId| pre.has_edge(p, d) implies #[trigger] self.has_edge(
                p,
                d,
            ) by {
                let k = choose|k: int|
                    0 <= k < pre.edges@.len() && same_cell(
                        pre.nodes@[(#[trigger] pre.edges@[k]).from as int],
                        p,
                    ) && same_cell(pre.nodes@[pre.edges@[k].to as int], d);
                assert(self.edges@[k] == pre.edges@[k]);
                assert(self.nodes@[pre.edges@[k].from as int] == pre.nodes@[pre.edges@[k].from as int]);
                assert(self.nodes@[pre.edges@[k].to as int] == pre.nodes@[pre.edges@[k].to as int]);
            };
        }
        let ip = match self.find_node(precedent) {
            Some(i) => i,
            None => {
                proof {
                    assert(false);
                }
                0
            },
        };
        let id = match self.find_node(cell) {
            Some(i) => i,
            None => {
                proof {
                    assert(false);
                }
                0
            },
        };
        let ghost mid = *self;
        // look for the edge; insert it only once
        let mut k: usize = 0;
        let mut found: bool = false;
        while k < self.edges.len() && !found
            invariant
                k <= self.edges@.len(),
                self.nodes@ == mid.nodes@ && self.edges@ == mid.edges@ && self.offsets@
                    == mid.offsets@,
                self.wf(),
                ip < self.nodes@.len() && id < self.nodes@.len(),
                same_cell(self.nodes@[ip as int], *precedent),
                same_cell(self.nodes@[id as int], *cell),
                found ==> k > 0 && self.edges@[k as int - 1] == (Edge { from: ip, to: id }),
                !found ==> forall|l: int|
                    0 <= l < k ==> #[trigger] self.edges@[l] != (Edge { from: ip, to: id }),
            decreases self.edges@.len() - k,
        {
            if self.edges[k].from == ip && self.edges[k].to == id {
                found = true;
            }
            k = k + 1;
        }
        if !found {
            proof {
                // the edge truly was absent: otherwise the scan's dedup
                // test would have matched it
                if pre.has_edge(*precedent, *cell) {
                    let k0 = choose|k0: int|
                        0 <= k0 < pre.edges@.len() && same_cell(
                            pre.nodes@[(#[trigger] pre.edges@[k0]).from as int],
                            *precedent,
                        ) && same_cell(pre.nodes@[pre.edges@[k0].to as int], *cell);
                    assert(self.edges@[k0] == pre.edges@[k0]);
                    let e = pre.edges@[k0];
                    assert(same_cell(self.nodes@[e.from as int], *precedent));
                    if e.from as int != ip as int {
                        assert(!same_cell(self.nodes@[e.from as int], self.nodes@[ip as int]));
                    }
                    assert(e.from == ip);
                    if e.to as int != id as int {
                        assert(!same_cell(self.nodes@[e.to as int], self.nodes@[id as int]));
                    }
                    assert(e.to == id);
                    assert(false);
                }
            }
            self.edges.push(Edge { from: ip, to: id });
            proof {
                assert(self.edges@.drop_last() =~= mid.edges@);
            }
        } else {
            proof {
                // nothing changed: when the edge was already present the
                // nodes were present too
                if pre.has_edge(*precedent, *cell) {
                    assert(pre.has_node(*precedent));
                    assert(pre.has_node(*cell));
                    assert(self.nodes@ == pre.nodes@);
                }
            }
        }
        proof {
            let ke = if found {
                k as int - 1
            } else {
                self.edges@.len() - 1
            };
            assert(self.edges@[ke] == (Edge { from: ip, to: id }));
            assert(same_cell(self.nodes@[ip as int], *precedent));
            assert(same_cell(self.nodes@[id as int], *cell));
            assert forall|p: CellId, d: CellId| mid.has_edge(p, d) implies #[trigger] self.has_edge(
                p,
                d,
            ) by {
                let kk = choose|kk: int|
                    0 <= kk < mid.edges@.len() && same_cell(
                        mid.nodes@[(#[trigger] mid.edges@[kk]).from as int],
                        p,
                    ) && same_cell(mid.nodes@[mid.edges@[kk].to as int], d);
                assert(self.edges@[kk] == mid.edges@[kk]);
            };
            // every edge afterwards is an old edge or the requested one
            assert forall|x: CellId, y: CellId| #[trigger] self.has_edge(x, y) implies pre.has_edge(
                x,
                y,
            ) || (same_cell(x, *precedent) && same_cell(y, *cell)) by {
                let kk = choose|kk: int|
                    0 <= kk < self.edges@.len() && same_cell(
                        self.nodes@[(#[trigger] self.edges@[kk]).from as int],
                        x,
                    ) && same_cell(self.nodes@[self.edges@[kk].to as int], y);
                if kk < pre.edges@.len() {
                    let e = pre.edges@[kk];
                    assert(self.edges@[kk] == e);
                    assert(pre.nodes@[e.from as int] == self.nodes@[e.from as int]);
                    assert(pre.nodes@[e.to as int] == self.nodes@[e.to as int]);
                } else {
                    assert(self.edges@[kk] == (Edge { from: ip, to: id }));
                    assert(same_cell(self.nodes@[ip as int], x));
                    assert(same_cell(x, *precedent));
                    assert(same_cell(y, *cell));
                }
            };
        }
    }

    pub fn is_precedent_of(&self, cell1: &CellId, cell2: &CellId) -> (r: bool)
        requires
            self.wf(),
        ensures
            r == self.has_edge(*cell1, *cell2),
    {
        let i1 = self.find_node(cell1);
        let i2 = self.find_node(cell2);
        match (i1, i2) {
            (Some(a), Some(b)) => {
                let mut k: usize = 0;
                while k < self.edges.len()
                    invariant
                        k <= self.edges@.len(),
                        a < self.nodes@.len() && same_cell(self.nodes@[a as int], *cell1),
                        b < self.nodes@.len() && same_cell(self.nodes@[b as int], *cell2),
                        self.wf(),
                        forall|l: int|
                            0 <= l < k ==> !(same_cell(
                                self.nodes@[(#[trigger] self.edges@[l]).from as int],
                                *cell1,
                            ) && same_cell(self.nodes@[self.edges@[l].to as int], *cell2)),
                    decreases self.edges@.len() - k,
                {
                    if self.edges[k].from == a && self.edges[k].to == b {
                        return true;
                    }
                    proof {
                        // a and b are the only node indices carrying these
                        // identities, so an edge matching the identities
                        // would be exactly the pair (a, b)
                        let e = self.edges@[k as int];
                        if same_cell(self.nodes@[e.from as int], *cell1) && same_cell(
                            self.nodes@[e.to as int],
                            *cell2,
                        ) {
                            assert(e.from as int == a as int);
                            assert(e.to as int == b as int);
                        }
                    }
                    k = k + 1;
                }
                false
            },
            _ => {
                proof {
                    if self.has_edge(*cell1, *cell2) {
                        let k = choose|k: int|
                            0 <= k < self.edges@.len() && same_cell(
                                self.nodes@[(#[trigger] self.edges@[k]).from as int],
                                *cell1,
                            ) && same_cell(self.nodes@[self.edges@[k].to as int], *cell2);
                        assert(self.has_node(*cell1));
                        assert(self.has_node(*cell2));
                    }
                }
                false
            },
        }
    }

    pub fn is_dependent_of(&self, cell1: &CellId, cell2: &CellId) -> (r: bool)
        requires
            self.wf(),
        ensures
            r == self.has_edge(*cell2, *cell1),
    {
        self.is_precedent_of(cell2, cell1)
    }

    /// The topological-order property: along every edge, the precedent
    /// stands strictly before the dependent — no edge points from a
    /// later position to an earlier one.
    pub open spec fn order_respects(self, order: Seq<CellId>) -> bool {
        forall|k: int, p: int, q: int|
            0 <= k < self.edges@.len() && 0 <= p < order.len() && 0 <= q < order.len() && same_cell(
                order[p],
                self.nodes@[(#[trigger] self.edges@[k]).from as int],
            ) && same_cell(#[trigger] order[p], #[trigger] order[q]) == false && same_cell(
                order[q],
                self.nodes@[self.edges@[k].to as int],
            ) ==> p < q
    }

    fn preds_done(&self, i: usize, done: &Vec<bool>) -> (r: bool)
        requires
            self.wf(),
            done@.len() == self.nodes@.len(),
            i < self.nodes@.len(),
        ensures
            r == forall|k: int|
                0 <= k < self.edges@.len() && (#[trigger] self.edges@[k]).to == i
                    ==> done@[self.edges@[k].from as int],
    {
        let mut k: usize = 0;
        while k < self.edges.len()
            invariant
                k <= self.edges@.len(),
                self.wf(),
                done@.len() == self.nodes@.len(),
                i < self.nodes@.len(),
                forall|l: int|
                    0 <= l < k && (#[trigger] self.edges@[l]).to == i
                        ==> done@[self.edges@[l].from as int],
            decreases self.edges@.len() - k,
        {
            if self.edges[k].to == i && !done[self.edges[k].from] {
                return false;
            }
            k = k + 1;
        }
        true
    }

    /// A node `j` is blocked when some edge into it leaves a node not
    /// yet emitted.
    pub open spec fn blocked(self, done: Seq<bool>, j: int) -> bool {
        exists|k: int|
            0 <= k < self.edges@.len() && (#[trigger] self.edges@[k]).to == j
                && !done[self.edges@[k].from as int]
    }

    /// The running state of the topological sort: `done` marks emitted
    /// nodes, `idx` lists them in emission order, uniquely, and every
    /// emission followed all of its precedents.
    pub open spec fn topo_inv(self, done: Seq<bool>, idx: Seq<usize>) -> bool {
        &&& done.len() == self.nodes@.len()
        &&& idx.len() <= self.nodes@.len()
        &&& forall|p: int| 0 <= p < idx.len() ==> (#[trigger] idx[p]) < self.nodes@.len()
        &&& forall|p: int| 0 <= p < idx.len() ==> done[(#[trigger] idx[p]) as int]
        &&& forall|p: int, q: int| 0 <= p < q < idx.len() ==> #[trigger] idx[p] != #[trigger] idx[q]
        &&& forall|i: int|
            0 <= i < done.len() && #[trigger] done[i] ==> exists|p: int|
                0 <= p < idx.len() && #[trigger] idx[p] == i
        &&& forall|q: int, k: int|
            0 <= q < idx.len() && 0 <= k < self.edges@.len() && (#[trigger] self.edges@[k]).to
                == #[trigger] idx[q] ==> exists|p: int| 0 <= p < q && idx[p] == self.edges@[k].from
    }

    /// One pass over the nodes in insertion order: emit the first node
    /// whose precedents are all emitted.
    #[verifier::spinoff_prover]
    fn scan_once(&self, done: &mut Vec<bool>, order_idx: &mut Vec<usize>) -> (progress: bool)
        requires
            self.wf(),
            self.topo_inv(old(done)@, old(order_idx)@),
        ensures
            self.topo_inv(final(done)@, final(order_idx)@),
            progress ==> final(order_idx)@.len() == old(order_idx)@.len() + 1,
            !progress ==> final(done)@ == old(done)@ && final(order_idx)@ == old(order_idx)@,
            !progress ==> forall|j: int|
                0 <= j < self.nodes@.len() ==> final(done)@[j] || self.blocked(final(done)@, j),
    {
        let n = self.nodes.len();
        let mut i: usize = 0;
        while i < n
            invariant
                self.wf(),
                n == self.nodes@.len(),
                i <= n,
                self.topo_inv(done@, order_idx@),
                done@ == old(done)@ && order_idx@ == old(order_idx)@,
                forall|j: int| 0 <= j < i ==> done@[j] || self.blocked(done@, j),
            decreases n - i,
        {
            if !done[i] && self.preds_done(i, done) {
                let ghost old_idx = order_idx@;
                let ghost old_done = done@;
                order_idx.push(i);
                done.set(i, true);
                proof {
                    assert(order_idx@.drop_last() =~= old_idx);
                    assert(order_idx@[order_idx@.len() - 1] == i);
                    self.lemma_emit(old_done, old_idx, done@, order_idx@, i);
                }
                return true;
            }
            i = i + 1;
        }
        false
    }

    /// Emitting node `i`, whose precedents are all emitted, keeps the
    /// sort state invariant.
    #[verifier::spinoff_prover]
    proof fn lemma_emit(
        self,
        old_done: Seq<bool>,
        old_idx: Seq<usize>,
        new_done: Seq<bool>,
        new_idx: Seq<usize>,
        i: usize,
    )
        requires
            self.wf(),
            self.topo_inv(old_done, old_idx),
            i < self.nodes@.len(),
            !old_done[i as int],
            forall|k: int|
                0 <= k < self.edges@.len() && (#[trigger] self.edges@[k]).to == i
                    ==> old_done[self.edges@[k].from as int],
            new_done == old_done.update(i as int, true),
            new_idx == old_idx.push(i),
        ensures
            self.topo_inv(new_done, new_idx),
    {
        assert(old_idx.push(i).len() == old_idx.len() + 1);
        assert(new_idx.len() == old_idx.len() + 1);
        assert(old_done.update(i as int, true).len() == old_done.len());
        assert(new_done.len() == old_done.len());
        assert forall|p: int| 0 <= p < old_idx.len() implies #[trigger] new_idx[p]
            == old_idx[p] by {
            assert(new_idx[p] == old_idx.push(i)[p]);
        };
        assert forall|j: int| 0 <= j < old_done.len() && j != i implies #[trigger] new_done[j]
            == old_done[j] by {
            assert(new_done[j] == old_done.update(i as int, true)[j]);
        };
        assert(new_done[i as int] == old_done.update(i as int, true)[i as int]);
        assert(new_done[i as int]);
        assert(new_idx[new_idx.len() - 1] == old_idx.push(i)[new_idx.len() - 1]);
        assert(new_idx[new_idx.len() - 1] == i);
        assert forall|p: int, q: int| 0 <= p < q < new_idx.len() implies #[trigger] new_idx[p]
            != #[trigger] new_idx[q] by {
            if q < new_idx.len() - 1 {
                assert(new_idx[p] == old_idx[p] && new_idx[q] == old_idx[q]);
                assert(old_idx[p] != old_idx[q]);
            } else {
                assert(q == old_idx.len());
                assert(new_idx[q] == i);
                assert(new_idx[p] == old_idx[p]);
                assert(old_done[(old_idx[p]) as int]);
                if old_idx[p] == i {
                    assert(old_done[i as int]);
                    assert(false);
                }
            }
        };
        assert forall|j: int| 0 <= j < new_done.len() && #[trigger] new_done[j] implies exists|
            p: int,
        | 0 <= p < new_idx.len() && #[trigger] new_idx[p] == j by {
            if j == i {
                assert(new_idx[new_idx.len() - 1] == j);
            } else {
                assert(old_done[j]);
                let p = choose|p: int| 0 <= p < old_idx.len() && #[trigger] old_idx[p] == j;
                assert(new_idx[p] == j);
            }
        };
        assert forall|q: int, k: int|
            0 <= q < new_idx.len() && 0 <= k < self.edges@.len() && (#[trigger] self.edges@[k]).to
                == #[trigger] new_idx[q] implies exists|p: int|
            0 <= p < q && new_idx[p] == self.edges@[k].from by {
            if q < new_idx.len() - 1 {
                assert(new_idx[q] == old_idx[q]);
                let p = choose|p: int| 0 <= p < q && old_idx[p] == self.edges@[k].from;
                assert(new_idx[p] == self.edges@[k].from);
            } else {
                let f = self.edges@[k].from as int;
                assert(old_done[f]);
                let p = choose|p: int| 0 <= p < old_idx.len() && #[trigger] old_idx[p] == f;
                assert(new_idx[p] == self.edges@[k].from);
            }
        };
        // the unemitted node i keeps the emitted list short of full
        if old_idx.len() == self.nodes@.len() {
            lemma_unique_hits(old_idx, self.nodes@.len() as int, i as int);
            let p = choose|p: int|
                0 <= p < old_idx.len() && (#[trigger] old_idx[p]) as int == i as int;
            assert(old_done[(old_idx[p]) as int]);
            assert(false);
        }
        assert(new_idx.len() <= self.nodes@.len());
    }

    /// Map the emitted indices back to their nodes.
    #[verifier::spinoff_prover]
    fn build_order(&self, order_idx: &Vec<usize>) -> (order: Vec<CellId>)
        requires
            self.wf(),
            order_idx@.len() == self.nodes@.len(),
            forall|p: int| 0 <= p < order_idx@.len() ==> (#[trigger] order_idx@[p]) < self.nodes@.len(),
        ensures
            order@.len() == self.nodes@.len(),
            forall|p: int|
                0 <= p < order@.len() ==> #[trigger] order@[p] == self.nodes@[order_idx@[p] as int],
    {
        let n = self.nodes.len();
        let mut order: Vec<CellId> = Vec::new();
        let mut p: usize = 0;
        while p < n
            invariant
                p <= n,
                n == self.nodes@.len(),
                order_idx@.len() == n,
                order@.len() == p,
                forall|u: int| 0 <= u < order_idx@.len() ==> (#[trigger] order_idx@[u]) < n,
                forall|u: int|
                    0 <= u < p ==> #[trigger] order@[u] == self.nodes@[order_idx@[u] as int],
            decreases n - p,
        {
            order.push(self.nodes[order_idx[p]]);
            p = p + 1;
        }
        order
    }

    /// A completed emission order is a topological order of all nodes.
    #[verifier::spinoff_prover]
    proof fn lemma_order_ok(self, idx: Seq<usize>, order: Seq<CellId>)
        requires
            self.wf(),
            idx.len() == self.nodes@.len(),
            forall|p: int| 0 <= p < idx.len() ==> (#[trigger] idx[p]) < self.nodes@.len(),
            forall|p: int, q: int| 0 <= p < q < idx.len() ==> #[trigger] idx[p] != #[trigger] idx[q],
            forall|q: int, k: int|
                0 <= q < idx.len() && 0 <= k < self.edges@.len() && (#[trigger] self.edges@[k]).to
                    == #[trigger] idx[q] ==> exists|p: int| 0 <= p < q && idx[p] == self.edges@[k].from,
            order.len() == self.nodes@.len(),
            forall|p: int| 0 <= p < order.len() ==> #[trigger] order[p] == self.nodes@[idx[p] as int],
        ensures
            self.order_respects(order),
            forall|p: int, q: int|
                0 <= p < q < order.len() ==> !same_cell(#[trigger] order[p], #[trigger] order[q]),
            forall|p: int| 0 <= p < order.len() ==> self.has_node(#[trigger] order[p]),
    {
        assert forall|p: int, q: int| 0 <= p < q < order.len() implies !same_cell(
            #[trigger] order[p],
            #[trigger] order[q],
        ) by {
            assert(order[p] == self.nodes@[idx[p] as int]);
            assert(order[q] == self.nodes@[idx[q] as int]);
            assert(idx[p] != idx[q]);
        };
        assert forall|p: int| 0 <= p < order.len() implies self.has_node(#[trigger] order[p]) by {
            let i0 = idx[p] as int;
            assert(order[p] == self.nodes@[i0]);
            assert(same_cell(self.nodes@[i0], order[p]));
        };
        assert forall|k: int, pp: int, qq: int|
            0 <= k < self.edges@.len() && 0 <= pp < order.len() && 0 <= qq < order.len()
                && same_cell(order[pp], self.nodes@[(#[trigger] self.edges@[k]).from as int])
                && same_cell(#[trigger] order[pp], #[trigger] order[qq]) == false && same_cell(
                order[qq],
                self.nodes@[self.edges@[k].to as int],
            ) implies pp < qq by {
            let f = self.edges@[k].from as int;
            let d = self.edges@[k].to as int;
            assert(order[pp] == self.nodes@[idx[pp] as int]);
            assert(order[qq] == self.nodes@[idx[qq] as int]);
            if idx[pp] as int != f {
                assert(!same_cell(self.nodes@[idx[pp] as int], self.nodes@[f]));
            }
            if idx[qq] as int != d {
                assert(!same_cell(self.nodes@[idx[qq] as int], self.nodes@[d]));
            }
            let u = choose|u: int| 0 <= u < qq && idx[u] == self.edges@[k].from;
            if u != pp {
                assert(idx[u] != idx[pp]);
                assert(false);
            }
        };
    }

    /// What the cyclic-dependency participants certify: the set is
    /// nonempty and each member depends on another member, so the
    /// graph really has a cycle.
    pub open spec fn cycle_cert(self, ns: Seq<CellId>) -> bool {
        ns.len() >= 1 && (forall|j: int|
            0 <= j < ns.len() ==> #[trigger] waits_on_member(self, ns, ns[j]))
    }

    /// The node depends on some member of the set: an edge leads to it
    /// whose source carries a member's identity.
    pub open spec fn spec_waits(self, ns: Seq<CellId>, c: CellId) -> bool {
        exists|k: int|
            0 <= k < self.edges@.len() && member_of(
                ns,
                self.nodes@[(#[trigger] self.edges@[k]).from as int],
            ) && same_cell(c, self.nodes@[self.edges@[k].to as int])
    }

    /// A remainder in which every node is blocked certifies a cycle.
    #[verifier::spinoff_prover]
    #[verifier::rlimit(100)]
    proof fn lemma_remainder_cert(self, done: Seq<bool>, rem: Seq<usize>, ns: Seq<CellId>)
        requires
            self.wf(),
            done.len() == self.nodes@.len(),
            rem.len() == ns.len(),
            ns.len() >= 1,
            forall|u: int|
                0 <= u < rem.len() ==> (#[trigger] rem[u]) < self.nodes@.len() && !done[rem[u] as int]
                    && ns[u] == self.nodes@[rem[u] as int],
            forall|i2: int|
                #![trigger done[i2]]
                0 <= i2 < self.nodes@.len() && !done[i2] ==> exists|u: int|
                    0 <= u < rem.len() && (#[trigger] rem[u]) as int == i2,
            forall|j: int| 0 <= j < self.nodes@.len() ==> done[j] || self.blocked(done, j),
        ensures
            self.cycle_cert(ns),
    {
        assert forall|jj: int| 0 <= jj < ns.len() implies #[trigger] waits_on_member(
            self,
            ns,
            ns[jj],
        ) by {
            let i2 = rem[jj] as int;
            assert(!done[i2]);
            assert(self.blocked(done, i2));
            let k = choose|k: int|
                0 <= k < self.edges@.len() && (#[trigger] self.edges@[k]).to == i2 && !done[
                    self.edges@[k].from as int
                ];
            let f = self.edges@[k].from as int;
            assert(!done[f]);
            let m = choose|m: int| 0 <= m < rem.len() && (#[trigger] rem[m]) as int == f;
            assert(ns[m] == self.nodes@[f]);
            assert(same_cell(ns[m], self.nodes@[f]));
            assert(member_of(ns, self.nodes@[f]));
            assert(ns[jj] == self.nodes@[i2]);
            assert(same_cell(ns[jj], self.nodes@[self.edges@[k].to as int]));
            assert(self.spec_waits(ns, ns[jj]));
        };
    }

    /// Gather the nodes not yet emitted: when no node can be emitted,
    /// each of them waits on another member of the remainder.
    #[verifier::spinoff_prover]
    #[verifier::rlimit(100)]
    fn collect_remainder(&self, done: &Vec<bool>) -> (ns: Vec<CellId>)
        requires
            self.wf(),
            done@.len() == self.nodes@.len(),
            forall|j: int| 0 <= j < self.nodes@.len() ==> done@[j] || self.blocked(done@, j),
            exists|w: int| 0 <= w < self.nodes@.len() && !(#[trigger] done@[w]),
        ensures
            self.cycle_cert(ns@),
    {
        let n = self.nodes.len();
        let mut ns: Vec<CellId> = Vec::new();
        let mut rem: Vec<usize> = Vec::new();
        let mut j: usize = 0;
        while j < n
            invariant
                j <= n,
                n == self.nodes@.len(),
                done@.len() == n,
                self.wf(),
                rem@.len() == ns@.len(),
                forall|u: int|
                    0 <= u < rem@.len() ==> (#[trigger] rem@[u]) < n && !done@[rem@[u] as int]
                        && ns@[u] == self.nodes@[rem@[u] as int],
                forall|i2: int|
                    #![trigger done@[i2]]
                    0 <= i2 < j && !done@[i2] ==> exists|u: int|
                        0 <= u < rem@.len() && (#[trigger] rem@[u]) as int == i2,
            decreases n - j,
        {
            if !done[j] {
                let ghost old_ns = ns@;
                let ghost old_rem = rem@;
                ns.push(self.nodes[j]);
                rem.push(j);
                proof {
                    assert(ns@.drop_last() =~= old_ns);
                    assert(rem@.drop_last() =~= old_rem);
                    assert(ns@[ns@.len() - 1] == self.nodes@[j as int]);
                    assert(rem@[rem@.len() - 1] == j);
                    assert forall|u: int| 0 <= u < old_rem.len() implies #[trigger] rem@[u]
                        == old_rem[u] && ns@[u] == old_ns[u] by {
                        assert(rem@[u] == rem@.drop_last()[u]);
                        assert(ns@[u] == ns@.drop_last()[u]);
                    };
                    assert forall|i2: int|
                        #![trigger done@[i2]]
                        0 <= i2 < j + 1 && !done@[i2] implies exists|u: int|
                        0 <= u < rem@.len() && (#[trigger] rem@[u]) as int == i2 by {
                        if i2 < j {
                            let u = choose|u: int|
                                0 <= u < old_rem.len() && (#[trigger] old_rem[u]) as int == i2;
                            assert(rem@[u] as int == i2);
                        } else {
                            assert(rem@[rem@.len() - 1] as int == i2);
                        }
                    };
                }
            }
            j = j + 1;
        }
        proof {
            let w = choose|w: int| 0 <= w < n && !(#[trigger] done@[w]);
            assert(exists|u: int| 0 <= u < rem@.len() && (#[trigger] rem@[u]) as int == w);
            assert(ns@.len() >= 1);
            self.lemma_remainder_cert(done@, rem@, ns@);
        }
        ns
    }

    /// Build the cyclic-dependency report from a stalled sort state.
    #[verifier::spinoff_prover]
    fn report_cycle(&self, done: &Vec<bool>, order_idx: &Vec<usize>) -> (e: crate::errors::Error)
        requires
            self.wf(),
            self.topo_inv(done@, order_idx@),
            order_idx@.len() < self.nodes@.len(),
            forall|j: int|
                0 <= j < self.nodes@.len() ==> done@[j] || self.blocked(done@, j),
        ensures
            e matches crate::errors::Error::CyclicDependency(ns) && self.cycle_cert(ns@),
    {
        let n = self.nodes.len();
        proof {
            if (forall|w: int| 0 <= w < n ==> #[trigger] done@[w]) {
                lemma_count_emitted(done@, order_idx@, n as int);
                assert(false);
            }
        }
        let ns = self.collect_remainder(done);
        crate::errors::Error::CyclicDependency(ns)
    }

    /// A topological order of the nodes, ties broken by insertion
    /// order.  On success the order is as long as the node list, its
    /// entries are nodes of the graph, no two entries share an
    /// identity — so every node appears exactly once — and no edge
    /// points from a later position to an earlier one.  On a cycle,
    /// the unordered remainder comes back as the participants: each of
    /// them waits on another member of that set, so a cycle does exist
    /// and an acyclic graph always gets the order.
    #[verifier::spinoff_prover]
    pub fn get_order(&self) -> (r: Result<Vec<CellId>, crate::errors::Error>)
        requires
            self.wf(),
        ensures
            match r {
                Ok(order) => {
                    &&& order@.len() == self.nodes@.len()
                    &&& self.order_respects(order@)
                    &&& forall|p: int, q: int|
                        0 <= p < q < order@.len() ==> !same_cell(
                            #[trigger] order@[p],
                            #[trigger] order@[q],
                        )
                    &&& forall|p: int|
                        0 <= p < order@.len() ==> self.has_node(#[trigger] order@[p])
                },
                Err(e) => e matches crate::errors::Error::CyclicDependency(ns)
                    && self.cycle_cert(ns@),
            },
    {
        let n = self.nodes.len();
        let mut done: Vec<bool> = Vec::new();
        let mut t: usize = 0;
        while t < n
            invariant
                t <= n,
                done@.len() == t,
                forall|j: int| 0 <= j < t ==> !(#[trigger] done@[j]),
            decreases n - t,
        {
            done.push(false);
            t = t + 1;
        }
        let mut order_idx: Vec<usize> = Vec::new();
        loop
            invariant
                self.wf(),
                n == self.nodes@.len(),
                self.topo_inv(done@, order_idx@),
            decreases n - order_idx@.len(),
        {
            let before = order_idx.len();
            let progress = self.scan_once(&mut done, &mut order_idx);
            if !progress {
                if order_idx.len() == n {
                    let order = self.build_order(&order_idx);
                    proof {
                        self.lemma_order_ok(order_idx@, order@);
                    }
                    return Ok(order);
                }
                return Err(self.report_cycle(&done, &order_idx));
            }
            proof {
                assert(order_idx@.len() == before + 1);
            }
        }
    }
}

/// Position `p`'s value with the slot `v` squeezed out of the range.
spec fn squeeze(idx: Seq<usize>, v: int, p: int) -> int {
    if (idx[p] as int) < v {
        idx[p] as int
    } else {
        idx[p] as int - 1
    }
}

/// A list of `n` unique values below `n` hits each value below `n`.
#[verifier::spinoff_prover]
proof fn lemma_unique_hits(idx: Seq<usize>, n: int, v: int)
    requires
        idx.len() == n,
        0 <= v < n,
        forall|p: int| 0 <= p < idx.len() ==> (#[trigger] idx[p]) < n,
        forall|p: int, q: int| 0 <= p < q < idx.len() ==> #[trigger] idx[p] != #[trigger] idx[q],
    ensures
        exists|p: int| 0 <= p < idx.len() && (#[trigger] idx[p]) as int == v,
{
    if (forall|p: int| 0 <= p < idx.len() ==> (#[trigger] idx[p]) as int != v) {
        // squeeze the values past v down one slot: an injection into
        // n - 1 slots
        let pos = Seq::new(n as nat, |p: int| squeeze(idx, v, p));
        assert forall|a: int| 0 <= a < n implies 0 <= #[trigger] pos[a] < n - 1 by {
            assert(idx[a] as int != v);
        };
        assert forall|a: int, b: int| 0 <= a < b < n implies #[trigger] pos[a]
            != #[trigger] pos[b] by {
            assert(idx[a] != idx[b]);
            assert(idx[a] as int != v && idx[b] as int != v);
        };
        lemma_injection_bound(pos, n - 1, n);
        assert(false);
    }
}

/// When every node is done, the emitted list, being unique and
/// in-range, is as long as the node list.
proof fn lemma_count_emitted(done: Seq<bool>, idx: Seq<usize>, n: int)
    requires
        n >= 0,
        done.len() == n,
        forall|p: int| 0 <= p < idx.len() ==> (#[trigger] idx[p]) < n,
        forall|p: int, q: int| 0 <= p < q < idx.len() ==> #[trigger] idx[p] != #[trigger] idx[q],
        forall|i: int|
            0 <= i < n && #[trigger] done[i] ==> exists|p: int|
                0 <= p < idx.len() && #[trigger] idx[p] == i,
        forall|w: int| 0 <= w < n ==> #[trigger] done[w],
    ensures
        idx.len() >= n,
{
    let pos = Seq::new(n as nat, |i: int| choose|p: int| 0 <= p < idx.len() && idx[p] == i);
    assert forall|i: int| 0 <= i < n implies 0 <= #[trigger] pos[i] < idx.len() by {
        assert(done[i]);
        assert(idx[pos[i]] == i);
    };
    assert forall|i: int, j: int| 0 <= i < j < n implies #[trigger] pos[i] != #[trigger] pos[j] by {
        assert(done[i] && done[j]);
        assert(idx[pos[i]] == i && idx[pos[j]] == j);
    };
    lemma_injection_bound(pos, idx.len() as int, n);
}

/// An injection of `n` values into `[0, m)` forces `n <= m`.
#[verifier::spinoff_prover]
proof fn lemma_injection_bound(pos: Seq<int>, m: int, n: int)
    requires
        pos.len() == n,
        n >= 0,
        m >= 0,
        forall|i: int| 0 <= i < n ==> 0 <= #[trigger] pos[i] < m,
        forall|i: int, j: int| 0 <= i < j < n ==> #[trigger] pos[i] != #[trigger] pos[j],
    ensures
        n <= m,
    decreases n,
{
    if n > 0 {
        assert(0 <= pos[0] < m);
        if exists|i: int| 0 <= i < n && #[trigger] pos[i] == m - 1 {
            let i0 = choose|i: int| 0 <= i < n && #[trigger] pos[i] == m - 1;
            let rest = pos.remove(i0);
            assert forall|i: int| 0 <= i < n - 1 implies 0 <= #[trigger] rest[i] < m - 1 by {
                if i < i0 {
                    assert(rest[i] == pos[i]);
                    if pos[i] == m - 1 {
                        assert(pos[i] == pos[i0]);
                    }
                } else {
                    assert(rest[i] == pos[i + 1]);
                    if pos[i + 1] == m - 1 {
                        assert(pos[i + 1] == pos[i0]);
                    }
                }
            };
            assert forall|i: int, j: int| 0 <= i < j < n - 1 implies #[trigger] rest[i]
                != #[trigger] rest[j] by {
                if j < i0 {
                } else if i < i0 {
                    assert(rest[i] == pos[i] && rest[j] == pos[j + 1]);
                } else {
                    assert(rest[i] == pos[i + 1] && rest[j] == pos[j + 1]);
                }
            };
            lemma_injection_bound(rest, m - 1, n - 1);
        } else {
            let rest = pos.drop_last();
            assert forall|i: int| 0 <= i < n - 1 implies 0 <= #[trigger] rest[i] < m - 1 by {
                assert(rest[i] == pos[i]);
                assert(pos[i] != m - 1);
            };
            assert forall|i: int, j: int| 0 <= i < j < n - 1 implies #[trigger] rest[i]
                != #[trigger] rest[j] by {
                assert(rest[i] == pos[i] && rest[j] == pos[j]);
            };
            lemma_injection_bound(rest, m - 1, n - 1);
            assert(pos[n - 1] != m - 1);
        }
    }
}

/// First sheet with the given name at or after `i`, or the list length
/// when none.
pub open spec fn spec_sheet_index(sheets: Seq<SheetV>, name: Seq<char>, i: int) -> int
    decreases sheets.len() - i,
{
    if i < 0 || i >= sheets.len() {
        sheets.len() as int
    } else if sheets[i].name == name {
        i
    } else {
        spec_sheet_index(sheets, name, i + 1)
    }
}

/// The graph node a reference inside a formula stands for: the named
/// sheet (or the referring cell's own), the parsed region, its extent
/// clamped to the sheet; `None` on malformed text or an unknown sheet.
pub open spec fn spec_resolve_ref(
    sheet: Option<Seq<char>>,
    text: Seq<char>,
    cur: usize,
    sheets: Seq<SheetV>,
) -> Option<CellId> {
    let si = match sheet {
        None => cur as int,
        Some(nm) => spec_sheet_index(sheets, nm, 0),
    };
    if 0 <= si < sheets.len() {
        match crate::reference::spec_parse_ref(text) {
            Some(r) => {
                let d = r.spec_dimensions();
                let h = if d.2 > sheets[si].max_rows {
                    sheets[si].max_rows
                } else {
                    d.2
                };
                let w = if d.3 > sheets[si].max_columns {
                    sheets[si].max_columns
                } else {
                    d.3
                };
                Some(
                    CellId {
                        sheet: si as usize,
                        row: d.0,
                        column: d.1,
                        num_row: h,
                        num_col: w,
                        calculated: None,
                    },
                )
            },
            None => None,
        }
    } else {
        None
    }
}

/// A region whose cells the wiring enumerates: more than one cell, in
/// bounds, and of a size the enumeration can hold.
pub open spec fn region_enumerable(cid: CellId) -> bool {
    cid.num_row >= 1 && cid.num_col >= 1 && cid.num_row * cid.num_col >= 2 && cid.row
        + cid.num_row <= crate::reference::MAX_DIM + 1 && cid.column + cid.num_col
        <= crate::reference::MAX_DIM + 1 && cid.num_row * cid.num_col <= crate::reference::MAX_DIM
        + 1
}

/// The single-cell node standing under a region node.
pub open spec fn sub_cell_of(cid: CellId, rr: int, cc: int) -> CellId {
    CellId {
        sheet: cid.sheet,
        row: rr as usize,
        column: cc as usize,
        num_row: 1,
        num_col: 1,
        calculated: None,
    }
}

/// Every cell of an enumerable multi-cell region is wired beneath the
/// region node.
pub open spec fn region_subwired(t: DependencyTree, cid: CellId) -> bool {
    region_enumerable(cid) ==> forall|rr: int, cc: int|
        cid.row <= rr < cid.row + cid.num_row && cid.column <= cc < cid.column + cid.num_col
            ==> #[trigger] t.has_edge(sub_cell_of(cid, rr, cc), cid)
}

/// Every cell region an expression references resolves and stands in
/// the graph as a precedent of `cell`, with the cells of a multi-cell
/// region wired beneath their region node.
pub open spec fn all_refs_wired(
    t: DependencyTree,
    e: ExprV,
    cell: CellId,
    sheets: Seq<SheetV>,
) -> bool
    decreases e, 0int,
{
    match e {
        ExprV::Reference { sheet, reference } => match spec_resolve_ref(
            sheet,
            reference,
            cell.sheet,
            sheets,
        ) {
            Some(cid) => t.has_edge(cid, cell) && region_subwired(t, cid),
            None => false,
        },
        ExprV::Infix(_, a, b) => all_refs_wired(t, *a, cell, sheets) && all_refs_wired(
            t,
            *b,
            cell,
            sheets,
        ),
        ExprV::Prefix(_, a) => all_refs_wired(t, *a, cell, sheets),
        ExprV::Postfix(_, a) => all_refs_wired(t, *a, cell, sheets),
        ExprV::Func { name, args } => all_wired_seq(t, args, 0, cell, sheets),
        ExprV::Array(a) => all_wired_seq(t, a, 0, cell, sheets),
        _ => true,
    }
}

pub open spec fn all_wired_seq(
    t: DependencyTree,
    s: Seq<ExprV>,
    i: int,
    cell: CellId,
    sheets: Seq<SheetV>,
) -> bool
    decreases s, s.len() - i,
{
    if i < 0 || i >= s.len() {
        true
    } else {
        all_refs_wired(t, s[i], cell, sheets) && all_wired_seq(t, s, i + 1, cell, sheets)
    }
}

/// Every cell region an expression references resolves: its sheet is
/// known, its text parses, so wiring it can succeed.
pub open spec fn all_refs_resolve(e: ExprV, cur: usize, sheets: Seq<SheetV>) -> bool
    decreases e, 0int,
{
    match e {
        ExprV::Reference { sheet, reference } => spec_resolve_ref(
            sheet,
            reference,
            cur,
            sheets,
        ) is Some,
        ExprV::Infix(_, a, b) => all_refs_resolve(*a, cur, sheets) && all_refs_resolve(
            *b,
            cur,
            sheets,
        ),
        ExprV::Prefix(_, a) => all_refs_resolve(*a, cur, sheets),
        ExprV::Postfix(_, a) => all_refs_resolve(*a, cur, sheets),
        ExprV::Func { name, args } => all_resolve_seq(args, 0, cur, sheets),
        ExprV::Array(a) => all_resolve_seq(a, 0, cur, sheets),
        _ => true,
    }
}

pub open spec fn all_resolve_seq(s: Seq<ExprV>, i: int, cur: usize, sheets: Seq<SheetV>) -> bool
    decreases s, s.len() - i,
{
    if i < 0 || i >= s.len() {
        true
    } else {
        all_refs_resolve(s[i], cur, sheets) && all_resolve_seq(s, i + 1, cur, sheets)
    }
}

/// A resolvable list has each member resolvable.
proof fn lemma_resolve_seq_elim(s: Seq<ExprV>, i: int, k: int, cur: usize, sheets: Seq<SheetV>)
    requires
        all_resolve_seq(s, i, cur, sheets),
        0 <= i <= k < s.len(),
    ensures
        all_refs_resolve(s[k], cur, sheets),
    decreases k - i,
{
    if i < k {
        lemma_resolve_seq_elim(s, i + 1, k, cur, sheets);
    }
}

/// Elementwise resolvability gives the sequence form.
proof fn lemma_resolve_seq_intro(s: Seq<ExprV>, i: int, cur: usize, sheets: Seq<SheetV>)
    requires
        forall|k: int| i <= k < s.len() ==> all_refs_resolve(#[trigger] s[k], cur, sheets),
    ensures
        all_resolve_seq(s, i, cur, sheets),
    decreases s.len() - i,
{
    if 0 <= i < s.len() {
        lemma_resolve_seq_intro(s, i + 1, cur, sheets);
    }
}

/// Whether an expression holds a call of a volatile function (OFFSET
/// or INDIRECT).
pub open spec fn has_volatile(e: ExprV) -> bool
    decreases e, 0int,
{
    match e {
        ExprV::Func { name, args } => name == "OFFSET"@ || name == "INDIRECT"@
            || has_volatile_seq(args, 0),
        ExprV::Infix(_, a, b) => has_volatile(*a) || has_volatile(*b),
        ExprV::Prefix(_, a) => has_volatile(*a),
        ExprV::Postfix(_, a) => has_volatile(*a),
        ExprV::Array(a) => has_volatile_seq(a, 0),
        _ => false,
    }
}

pub open spec fn has_volatile_seq(s: Seq<ExprV>, i: int) -> bool
    decreases s, s.len() - i,
{
    if i < 0 || i >= s.len() {
        false
    } else {
        has_volatile(s[i]) || has_volatile_seq(s, i + 1)
    }
}

/// A volatile list has a volatile member.
proof fn lemma_vol_seq_elim(s: Seq<ExprV>, i: int)
    requires
        has_volatile_seq(s, i),
    ensures
        exists|k: int| i <= k < s.len() && has_volatile(#[trigger] s[k]),
    decreases s.len() - i,
{
    if 0 <= i < s.len() {
        if has_volatile(s[i]) {
        } else {
            lemma_vol_seq_elim(s, i + 1);
        }
    }
}

/// Wiring survives growth of the graph.
proof fn lemma_wired_mono(
    t1: DependencyTree,
    t2: DependencyTree,
    e: ExprV,
    cell: CellId,
    sheets: Seq<SheetV>,
)
    requires
        all_refs_wired(t1, e, cell, sheets),
        forall|p: CellId, d: CellId| t1.has_edge(p, d) ==> #[trigger] t2.has_edge(p, d),
    ensures
        all_refs_wired(t2, e, cell, sheets),
    decreases e, 0int,
{
    match e {
        ExprV::Reference { sheet, reference } => {
            match spec_resolve_ref(sheet, reference, cell.sheet, sheets) {
                Some(cid) => {
                    assert(t2.has_edge(cid, cell));
                    if region_enumerable(cid) {
                        assert forall|rr: int, cc: int|
                            cid.row <= rr < cid.row + cid.num_row && cid.column <= cc < cid.column
                                + cid.num_col implies #[trigger] t2.has_edge(
                            sub_cell_of(cid, rr, cc),
                            cid,
                        ) by {
                            assert(t1.has_edge(sub_cell_of(cid, rr, cc), cid));
                        };
                    }
                },
                None => {},
            }
        },
        ExprV::Infix(_, a, b) => {
            lemma_wired_mono(t1, t2, *a, cell, sheets);
            lemma_wired_mono(t1, t2, *b, cell, sheets);
        },
        ExprV::Prefix(_, a) => {
            lemma_wired_mono(t1, t2, *a, cell, sheets);
        },
        ExprV::Postfix(_, a) => {
            lemma_wired_mono(t1, t2, *a, cell, sheets);
        },
        ExprV::Func { name, args } => {
            lemma_wired_seq_mono(t1, t2, args, 0, cell, sheets);
        },
        ExprV::Array(a) => {
            lemma_wired_seq_mono(t1, t2, a, 0, cell, sheets);
        },
        _ => {},
    }
}

proof fn lemma_wired_seq_mono(
    t1: DependencyTree,
    t2: DependencyTree,
    s: Seq<ExprV>,
    i: int,
    cell: CellId,
    sheets: Seq<SheetV>,
)
    requires
        all_wired_seq(t1, s, i, cell, sheets),
        forall|p: CellId, d: CellId| t1.has_edge(p, d) ==> #[trigger] t2.has_edge(p, d),
    ensures
        all_wired_seq(t2, s, i, cell, sheets),
    decreases s, s.len() - i,
{
    if 0 <= i < s.len() {
        lemma_wired_mono(t1, t2, s[i], cell, sheets);
        lemma_wired_seq_mono(t1, t2, s, i + 1, cell, sheets);
    }
}

/// Elementwise wiring gives the sequence form.
proof fn lemma_wired_seq_intro(
    t: DependencyTree,
    s: Seq<ExprV>,
    i: int,
    cell: CellId,
    sheets: Seq<SheetV>,
)
    requires
        forall|k: int| i <= k < s.len() ==> all_refs_wired(t, #[trigger] s[k], cell, sheets),
    ensures
        all_wired_seq(t, s, i, cell, sheets),
    decreases s.len() - i,
{
    if 0 <= i < s.len() {
        lemma_wired_seq_intro(t, s, i + 1, cell, sheets);
    }
}

/// A per-index wiring of the enumerated region cells covers every
/// (row, column) position of the region.
proof fn lemma_region_coverage(t: DependencyTree, cid: CellId, all: Seq<(usize, usize)>)
    requires
        region_enumerable(cid),
        all == crate::reference::Reference::spec_cells_of_dim(
            cid.row as nat,
            cid.column as nat,
            cid.num_row as nat,
            cid.num_col as nat,
        ),
        forall|j: int|
            0 <= j < all.len() ==> #[trigger] t.has_edge(
                sub_cell_of(cid, all[j].0 as int, all[j].1 as int),
                cid,
            ),
    ensures
        region_subwired(t, cid),
{
    assert forall|rr: int, cc: int|
        cid.row <= rr < cid.row + cid.num_row && cid.column <= cc < cid.column + cid.num_col
        implies #[trigger] t.has_edge(sub_cell_of(cid, rr, cc), cid) by {
        let w = cid.num_col as int;
        let dr = rr - cid.row;
        let dc = cc - cid.column;
        let j = dr * w + dc;
        assert(0 <= j < cid.num_row * cid.num_col) by (nonlinear_arith)
            requires
                0 <= dr < cid.num_row,
                0 <= dc < cid.num_col,
                j == dr * (cid.num_col as int) + dc,
                w == cid.num_col as int,
                cid.num_col >= 1,
        ;
        vstd::arithmetic::div_mod::lemma_fundamental_div_mod_converse(j, w, dr, dc);
        assert(all[j].0 as int == cid.row + j / w);
        assert(all[j].1 as int == cid.column + j % w);
        assert(all[j].0 as int == rr && all[j].1 as int == cc);
        assert(t.has_edge(sub_cell_of(cid, all[j].0 as int, all[j].1 as int), cid));
    };
}

/// An index below a prefix's length reads the same in the longer list.
proof fn lemma_prefix_index(a: Seq<CellId>, b: Seq<CellId>, k: int)
    requires
        a.is_prefix_of(b),
        0 <= k < a.len(),
    ensures
        b[k] == a[k],
{
    assert(a[k] == b.subrange(0, a.len() as int)[k]);
}

/// Growth of the graph is reflexive.
proof fn lemma_extends_refl(a: DependencyTree)
    ensures
        a.extends(a),
{
    assert(a.nodes@ =~= a.nodes@.subrange(0, a.nodes@.len() as int));
    assert(a.edges@ =~= a.edges@.subrange(0, a.edges@.len() as int));
    assert(a.offsets@ =~= a.offsets@.subrange(0, a.offsets@.len() as int));
}

/// Growth of the graph is transitive.
proof fn lemma_extends_trans(a: DependencyTree, b: DependencyTree, c: DependencyTree)
    requires
        b.extends(a),
        c.extends(b),
    ensures
        c.extends(a),
{
    assert(a.nodes@ =~= c.nodes@.subrange(0, a.nodes@.len() as int));
    assert(a.edges@ =~= c.edges@.subrange(0, a.edges@.len() as int));
    assert(a.offsets@ =~= c.offsets@.subrange(0, a.offsets@.len() as int));
}

fn find_sheet(sheets: &Vec<Sheet>, name: &String) -> (r: Option<usize>)
    ensures
        ({
            let si = spec_sheet_index(view_of_sheets(sheets@), name@, 0);
            match r {
                Some(i) => si == i && i < sheets@.len(),
                None => si == sheets@.len(),
            }
        }),
{
    proof {
        lemma_view_of_sheets_local(sheets@);
    }
    let ghost sv = view_of_sheets(sheets@);
    let mut i: usize = 0;
    while i < sheets.len()
        invariant
            i <= sheets@.len(),
            sv == view_of_sheets(sheets@),
            sv.len() == sheets@.len(),
            forall|j: int| 0 <= j < sheets@.len() ==> sv[j] == (#[trigger] sheets@[j])@,
            spec_sheet_index(sv, name@, 0) == spec_sheet_index(sv, name@, i as int),
        decreases sheets@.len() - i,
    {
        if sheets[i].name.eq(name) {
            proof {
                assert(sv[i as int].name == name@);
            }
            return Some(i);
        }
        proof {
            assert(sv[i as int].name != name@);
        }
        i = i + 1;
    }
    None
}

proof fn lemma_view_of_sheets_local(s: Seq<Sheet>)
    ensures
        view_of_sheets(s).len() == s.len(),
        forall|i: int| 0 <= i < s.len() ==> view_of_sheets(s)[i] == (#[trigger] s[i])@,
{
    crate::workbook::lemma_view_of_sheets(s);
}

impl DependencyTree {
    /// Walk a formula's expression tree: every referenced region joins
    /// the graph as a precedent of `cell`, the cells of a multi-cell
    /// region are wired under their region node, and a cell whose
    /// formula holds a volatile function (OFFSET or INDIRECT) joins
    /// the worklist.  It succeeds exactly when every reference
    /// resolves — a known sheet and parseable text — and fails as
    /// malformed otherwise.
    pub fn add_expression(&mut self, cell: CellId, expression: &Expr, sheets: &Vec<Sheet>) -> (r:
        Result<(), crate::errors::Error>)
        requires
            old(self).wf(),
            sheets_wf(sheets@),
            (cell.sheet as int) < sheets@.len(),
        ensures
            final(self).wf(),
            final(self).extends(*old(self)),
            forall|p: CellId, d: CellId|
                old(self).has_edge(p, d) ==> #[trigger] final(self).has_edge(p, d),
            r is Ok ==> all_refs_wired(*final(self), expression@, cell, view_of_sheets(sheets@)),
            r is Ok && has_volatile(expression@) ==> final(self).offsets@.contains(cell),
            r is Ok <==> all_refs_resolve(expression@, cell.sheet, view_of_sheets(sheets@)),
            r matches Err(e2) ==> e2 is MalformedReference,
            forall|k: int|
                old(self).offsets@.len() <= k < final(self).offsets@.len()
                    ==> final(self).offsets@[k] == cell,
        decreases expression,
    {
        let ghost sv = view_of_sheets(sheets@);
        proof {
            lemma_view_of_sheets_local(sheets@);
        }
        match expression {
            Expr::Reference { sheet, reference } => {
                let si: usize = match sheet {
                    None => cell.sheet,
                    Some(nm) => match find_sheet(sheets, nm) {
                        Some(i) => i,
                        None => {
                            proof {
                                lemma_extends_refl(*self);
                                assert(spec_resolve_ref(
                                    expression@->Reference_sheet,
                                    expression@->Reference_reference,
                                    cell.sheet,
                                    sv,
                                ) is None);
                            }
                            return Err(crate::errors::Error::MalformedReference);
                        },
                    },
                };
                match crate::reference::Reference::parse(reference.as_str()) {
                    None => {
                        proof {
                            lemma_extends_refl(*self);
                            assert(spec_resolve_ref(
                                expression@->Reference_sheet,
                                expression@->Reference_reference,
                                cell.sheet,
                                sv,
                            ) is None);
                        }
                        Err(crate::errors::Error::MalformedReference)
                    },
                    Some(rf) => {
                        let d = rf.get_dimensions();
                        let sh_rows = sheets[si].max_rows;
                        let sh_cols = sheets[si].max_columns;
                        proof {
                            assert(sv[si as int] == sheets@[si as int]@);
                        }
                        let nr: usize = if d.2 > sh_rows {
                            sh_rows
                        } else {
                            d.2
                        };
                        let nc: usize = if d.3 > sh_cols {
                            sh_cols
                        } else {
                            d.3
                        };
                        let pre_cell = CellId {
                            sheet: si,
                            row: d.0,
                            column: d.1,
                            num_row: nr,
                            num_col: nc,
                            calculated: None,
                        };
                        let ghost mid0 = *self;
                        let mut enumerable = false;
                        if nr >= 1 && nc >= 1 && d.0 + nr <= crate::reference::MAX_DIM + 1 && d.1
                            + nc <= crate::reference::MAX_DIM + 1 {
                            proof {
                                assert(sheets@[si as int].wf());
                                assert(nr * nc <= (crate::reference::MAX_DIM + 1)) by (nonlinear_arith)
                                    requires
                                        nr <= sheets@[si as int].max_rows,
                                        nc <= sheets@[si as int].max_columns,
                                        sheets@[si as int].max_rows * sheets@[si as int].max_columns
                                            <= crate::reference::MAX_DIM + 1,
                                        nr >= 1,
                                        nc >= 1,
                                ;
                            }
                            enumerable = (nr as u64) * (nc as u64) >= 2;
                        }
                        proof {
                            assert(enumerable == region_enumerable(pre_cell));
                        }
                        if enumerable {
                            let region = crate::reference::Reference::get_cells_from_dim(
                                d.0,
                                d.1,
                                nr,
                                nc,
                            );
                            let ghost all = crate::reference::Reference::spec_cells_of_dim(
                                d.0 as nat,
                                d.1 as nat,
                                nr as nat,
                                nc as nat,
                            );
                            let mut k: usize = 0;
                            while k < region.len()
                                invariant
                                    self.wf(),
                                    self.extends(mid0),
                                    self.offsets@ == mid0.offsets@,
                                    region@ == all,
                                    all.len() == nr as int * nc as int,
                                    k <= region@.len(),
                                    pre_cell.num_row == nr && pre_cell.num_col == nc
                                        && pre_cell.sheet == si && pre_cell.row == d.0
                                        && pre_cell.column == d.1 && pre_cell.calculated is None,
                                    nr * nc >= 2 && nr >= 1 && nc >= 1,
                                    forall|p: CellId, dd: CellId|
                                        mid0.has_edge(p, dd) ==> #[trigger] self.has_edge(p, dd),
                                    forall|j: int|
                                        0 <= j < k ==> #[trigger] self.has_edge(
                                            sub_cell_of(pre_cell, all[j].0 as int, all[j].1 as int),
                                            pre_cell,
                                        ),
                                decreases region.len() - k,
                            {
                                let rc = region[k];
                                let sub_cell = CellId {
                                    sheet: si,
                                    row: rc.0,
                                    column: rc.1,
                                    num_row: 1,
                                    num_col: 1,
                                    calculated: None,
                                };
                                proof {
                                    // a single cell never carries the
                                    // multi-cell region's identity
                                    assert(!same_cell(sub_cell, pre_cell));
                                }
                                let ghost m1 = *self;
                                self.add_precedent(&sub_cell, &pre_cell);
                                proof {
                                    assert forall|p: CellId, dd: CellId|
                                        mid0.has_edge(p, dd) implies #[trigger] self.has_edge(
                                        p,
                                        dd,
                                    ) by {
                                        assert(m1.has_edge(p, dd));
                                    };
                                    assert forall|j: int| 0 <= j < k + 1 implies #[trigger] self.has_edge(
                                        sub_cell_of(pre_cell, all[j].0 as int, all[j].1 as int),
                                        pre_cell,
                                    ) by {
                                        if j < k {
                                            assert(m1.has_edge(
                                                sub_cell_of(
                                                    pre_cell,
                                                    all[j].0 as int,
                                                    all[j].1 as int,
                                                ),
                                                pre_cell,
                                            ));
                                        } else {
                                            assert(sub_cell == sub_cell_of(
                                                pre_cell,
                                                all[j].0 as int,
                                                all[j].1 as int,
                                            ));
                                        }
                                    };
                                }
                                k = k + 1;
                            }
                            proof {
                                lemma_region_coverage(*self, pre_cell, all);
                            }
                        }
                        let ghost mid1 = *self;
                        self.add_precedent(&pre_cell, &cell);
                        proof {
                            lemma_extends_trans(mid0, mid1, *self);
                            assert(self.offsets@ == old(self).offsets@);
                            assert(spec_resolve_ref(
                                expression@->Reference_sheet,
                                expression@->Reference_reference,
                                cell.sheet,
                                sv,
                            ) == Some(pre_cell));
                            assert forall|p: CellId, dd: CellId|
                                old(self).has_edge(p, dd) implies #[trigger] self.has_edge(
                                p,
                                dd,
                            ) by {
                                assert(mid1.has_edge(p, dd));
                            };
                        }
                        Ok(())
                    },
                }
            },
            Expr::Infix(_, a, b) => {
                let ghost t0 = *self;
                match self.add_expression(cell, a, sheets) {
                    Err(e) => {
                        return Err(e);
                    },
                    Ok(()) => {},
                }
                let ghost t1 = *self;
                match self.add_expression(cell, b, sheets) {
                    Err(e) => {
                        proof {
                            lemma_extends_trans(t0, t1, *self);
                            assert forall|p: CellId, dd: CellId|
                                t0.has_edge(p, dd) implies #[trigger] self.has_edge(p, dd) by {
                                assert(t1.has_edge(p, dd));
                            };
                            assert forall|k: int|
                                t0.offsets@.len() <= k < self.offsets@.len() implies self.offsets@[
                                    k
                                ] == cell by {
                                if k < t1.offsets@.len() {
                                    assert(t1.offsets@[k] == cell);
                                    lemma_prefix_index(t1.offsets@, self.offsets@, k);
                                }
                            };
                        }
                        return Err(e);
                    },
                    Ok(()) => {},
                }
                proof {
                    lemma_extends_trans(t0, t1, *self);
                    lemma_wired_mono(t1, *self, (*a)@, cell, sv);
                    assert forall|p: CellId, dd: CellId|
                        t0.has_edge(p, dd) implies #[trigger] self.has_edge(p, dd) by {
                        assert(t1.has_edge(p, dd));
                    };
                    if has_volatile((**a)@) {
                        assert(t1.offsets@.contains(cell));
                        let idx = choose|idx: int|
                            0 <= idx < t1.offsets@.len() && t1.offsets@[idx] == cell;
                        assert(self.offsets@[idx] == cell);
                    }
                    assert forall|k: int|
                        t0.offsets@.len() <= k < self.offsets@.len() implies self.offsets@[k]
                            == cell by {
                        if k < t1.offsets@.len() {
                            assert(t1.offsets@[k] == cell);
                            lemma_prefix_index(t1.offsets@, self.offsets@, k);
                        }
                    };
                }
                Ok(())
            },
            Expr::Prefix(_, a) => self.add_expression(cell, a, sheets),
            Expr::Postfix(_, a) => self.add_expression(cell, a, sheets),
            Expr::Func { name, args } => {
                if crate::text::str_eq(name.as_str(), "OFFSET") || crate::text::str_eq(
                    name.as_str(),
                    "INDIRECT",
                ) {
                    self.offsets.push(cell);
                    proof {
                        assert(self.offsets@[self.offsets@.len() - 1] == cell);
                        assert(self.offsets@.contains(cell));
                        assert(self.offsets@.drop_last() =~= old(self).offsets@);
                        assert(old(self).offsets@.is_prefix_of(self.offsets@));
                        assert(self.extends(*old(self)));
                    }
                }
                let ghost tmid = *self;
                let r = self.add_args(cell, args, sheets);
                proof {
                    lemma_extends_trans(*old(self), tmid, *self);
                    assert forall|k: int|
                        old(self).offsets@.len() <= k < self.offsets@.len() implies self.offsets@[
                            k
                        ] == cell by {
                        if k < tmid.offsets@.len() {
                            assert(tmid.offsets@[k] == cell);
                            lemma_prefix_index(tmid.offsets@, self.offsets@, k);
                        }
                    };
                }
                proof {
                    if r is Ok {
                        assert(expression@->Func_args == crate::ast::view_of_exprs(args@));
                    }
                }
                r
            },
            Expr::Array(a) => {
                let r = self.add_args(cell, a, sheets);
                r
            },
            _ => {
                proof {
                    lemma_extends_refl(*self);
                }
                Ok(())
            },
        }
    }

    /// Wire every expression of a list (function arguments or array
    /// elements).
    fn add_args(&mut self, cell: CellId, args: &Vec<Expr>, sheets: &Vec<Sheet>) -> (r: Result<
        (),
        crate::errors::Error,
    >)
        requires
            old(self).wf(),
            sheets_wf(sheets@),
            (cell.sheet as int) < sheets@.len(),
        ensures
            final(self).wf(),
            final(self).extends(*old(self)),
            forall|p: CellId, d: CellId|
                old(self).has_edge(p, d) ==> #[trigger] final(self).has_edge(p, d),
            r is Ok ==> all_wired_seq(
                *final(self),
                crate::ast::view_of_exprs(args@),
                0,
                cell,
                view_of_sheets(sheets@),
            ),
            old(self).offsets@.contains(cell) ==> final(self).offsets@.contains(cell),
            r is Ok && has_volatile_seq(crate::ast::view_of_exprs(args@), 0)
                ==> final(self).offsets@.contains(cell),
            r is Ok <==> all_resolve_seq(
                crate::ast::view_of_exprs(args@),
                0,
                cell.sheet,
                view_of_sheets(sheets@),
            ),
            r matches Err(e2) ==> e2 is MalformedReference,
            forall|k: int|
                old(self).offsets@.len() <= k < final(self).offsets@.len()
                    ==> final(self).offsets@[k] == cell,
        decreases args,
    {
        let ghost sv = view_of_sheets(sheets@);
        let ghost av = crate::ast::view_of_exprs(args@);
        proof {
            crate::ast::lemma_view_of_exprs(args@);
            lemma_extends_refl(*self);
        }
        let mut i: usize = 0;
        while i < args.len()
            invariant
                self.wf(),
                sheets_wf(sheets@),
                (cell.sheet as int) < sheets@.len(),
                i <= args@.len(),
                av == crate::ast::view_of_exprs(args@),
                av.len() == args@.len(),
                forall|j: int| 0 <= j < args@.len() ==> av[j] == (#[trigger] args@[j])@,
                sv == view_of_sheets(sheets@),
                self.extends(*old(self)),
                forall|p: CellId, d: CellId|
                    old(self).has_edge(p, d) ==> #[trigger] self.has_edge(p, d),
                forall|k: int| 0 <= k < i ==> all_refs_wired(*self, #[trigger] av[k], cell, sv),
                forall|k: int| 0 <= k < i ==> all_refs_resolve(#[trigger] av[k], cell.sheet, sv),
                old(self).offsets@.contains(cell) ==> self.offsets@.contains(cell),
                forall|k: int|
                    0 <= k < i && has_volatile(#[trigger] av[k]) ==> self.offsets@.contains(cell),
                forall|k: int|
                    old(self).offsets@.len() <= k < self.offsets@.len()
                        ==> #[trigger] self.offsets@[k] == cell,
            decreases args@.len() - i,
        {
            let ghost t_before = *self;
            match self.add_expression(cell, &args[i], sheets) {
                Err(e) => {
                    proof {
                        lemma_extends_trans(*old(self), t_before, *self);
                        assert forall|p: CellId, d: CellId|
                            old(self).has_edge(p, d) implies #[trigger] self.has_edge(p, d) by {
                            assert(t_before.has_edge(p, d));
                        };
                        if old(self).offsets@.contains(cell) {
                            let idx = choose|idx: int|
                                0 <= idx < t_before.offsets@.len() && t_before.offsets@[idx]
                                    == cell;
                            assert(self.offsets@[idx] == cell);
                        }
                        assert forall|k: int|
                            old(self).offsets@.len() <= k < self.offsets@.len() implies #[trigger] self.offsets@[
                                k
                            ] == cell by {
                            if k < t_before.offsets@.len() {
                                assert(t_before.offsets@[k] == cell);
                                lemma_prefix_index(t_before.offsets@, self.offsets@, k);
                            }
                        };
                        assert(!all_refs_resolve(av[i as int], cell.sheet, sv));
                        if all_resolve_seq(av, 0, cell.sheet, sv) {
                            lemma_resolve_seq_elim(av, 0, i as int, cell.sheet, sv);
                            assert(false);
                        }
                    }
                    return Err(e);
                },
                Ok(()) => {},
            }
            proof {
                lemma_extends_trans(*old(self), t_before, *self);
                assert forall|k: int| 0 <= k < i + 1 implies all_refs_wired(
                    *self,
                    #[trigger] av[k],
                    cell,
                    sv,
                ) by {
                    if k < i {
                        lemma_wired_mono(t_before, *self, av[k], cell, sv);
                    } else {
                        assert(av[k] == args@[k]@);
                    }
                };
                assert forall|p: CellId, d: CellId|
                    old(self).has_edge(p, d) implies #[trigger] self.has_edge(p, d) by {
                    assert(t_before.has_edge(p, d));
                };
                if old(self).offsets@.contains(cell) {
                    let idx = choose|idx: int|
                        0 <= idx < t_before.offsets@.len() && t_before.offsets@[idx] == cell;
                    assert(self.offsets@[idx] == cell);
                }
                assert forall|k: int|
                    0 <= k < i + 1 && has_volatile(#[trigger] av[k]) implies self.offsets@.contains(
                    cell,
                ) by {
                    if k < i {
                        assert(t_before.offsets@.contains(cell));
                        let idx = choose|idx: int|
                            0 <= idx < t_before.offsets@.len() && t_before.offsets@[idx] == cell;
                        assert(self.offsets@[idx] == cell);
                    } else {
                        assert(av[k] == args@[k]@);
                    }
                };
                assert forall|k: int|
                    old(self).offsets@.len() <= k < self.offsets@.len() implies #[trigger] self.offsets@[
                        k
                    ] == cell by {
                    if k < t_before.offsets@.len() {
                        assert(t_before.offsets@[k] == cell);
                        lemma_prefix_index(t_before.offsets@, self.offsets@, k);
                    }
                };
            }
            i = i + 1;
        }
        proof {
            lemma_wired_seq_intro(*self, av, 0, cell, sv);
            lemma_resolve_seq_intro(av, 0, cell.sheet, sv);
            if has_volatile_seq(av, 0) {
                lemma_vol_seq_elim(av, 0);
            }
        }
        Ok(())
    }
}

} // verus!