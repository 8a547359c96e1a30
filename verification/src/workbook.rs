//! Sheets: named, bounded stores of raw cell values.

use vstd::prelude::*;
use crate::reference::MAX_DIM;
use crate::value::{Value, ValueV};

verus! {

/// One stored cell of a sheet.
pub struct CellRecord {
    pub row: usize,
    pub column: usize,
    pub value: Value,
}

/// A sheet: a name, extents, and the cells that hold a value.
pub struct Sheet {
    pub name: String,
    pub max_rows: usize,
    pub max_columns: usize,
    pub cells: Vec<CellRecord>,
}

/// The mathematical model of a sheet.
pub struct SheetV {
    pub name: Seq<char>,
    pub max_rows: usize,
    pub max_columns: usize,
    pub cells: Seq<(usize, usize, ValueV)>,
}

pub open spec fn view_of_cells(s: Seq<CellRecord>) -> Seq<(usize, usize, ValueV)>
    decreases s,
{
    if s.len() == 0 {
        Seq::empty()
    } else {
        view_of_cells(s.drop_last()).push(
            (s.last().row, s.last().column, s.last().value@),
        )
    }
}

impl View for Sheet {
    type V = SheetV;

    open spec fn view(&self) -> SheetV {
        SheetV {
            name: self.name@,
            max_rows: self.max_rows,
            max_columns: self.max_columns,
            cells: view_of_cells(self.cells@),
        }
    }
}

impl Sheet {
    /// Extents stay small enough that any clamped region can be
    /// enumerated.
    pub open spec fn wf(self) -> bool {
        self.max_rows >= 1 && self.max_columns >= 1 && self.max_rows * self.max_columns <= MAX_DIM
            + 1 && self.max_rows <= MAX_DIM + 1 && self.max_columns <= MAX_DIM + 1
    }

    pub fn new(name: String, max_rows: usize, max_columns: usize) -> (r: Sheet)
        requires
            1 <= max_rows,
            1 <= max_columns,
            max_rows * max_columns <= MAX_DIM + 1,
            max_rows <= MAX_DIM + 1,
            max_columns <= MAX_DIM + 1,
        ensures
            r.wf(),
            r@.name == name@,
            r@.max_rows == max_rows,
            r@.max_columns == max_columns,
            r@.cells.len() == 0,
    {
        Sheet { name, max_rows, max_columns, cells: Vec::new() }
    }
}

pub open spec fn view_of_sheets(s: Seq<Sheet>) -> Seq<SheetV>
    decreases s,
{
    if s.len() == 0 {
        Seq::empty()
    } else {
        view_of_sheets(s.drop_last()).push(s.last()@)
    }
}

/// The views of a sheet list, elementwise.
pub proof fn lemma_view_of_sheets(s: Seq<Sheet>)
    ensures
        view_of_sheets(s).len() == s.len(),
        forall|i: int| 0 <= i < s.len() ==> view_of_sheets(s)[i] == (#[trigger] s[i])@,
    decreases s,
{
    if s.len() > 0 {
        lemma_view_of_sheets(s.drop_last());
        assert forall|i: int| 0 <= i < s.len() implies view_of_sheets(s)[i] == (#[trigger] s[i])@ by {
            let x = view_of_sheets(s.drop_last());
            let y = s.last()@;
            assert(view_of_sheets(s) == x.push(y));
            assert(x.len() == s.len() - 1);
            if i < s.len() - 1 {
                assert(x.push(y)[i] == x[i]);
                assert(s.drop_last()[i] == s[i]);
            } else {
                assert(x.push(y)[i] == y);
            }
        };
    }
}

/// All sheets well-formed.
pub open spec fn sheets_wf(s: Seq<Sheet>) -> bool {
    forall|i: int| 0 <= i < s.len() ==> (#[trigger] s[i]).wf()
}

} // verus!