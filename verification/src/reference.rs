//! A1-style cell and range references: parsing, serialization, dimension
//! arithmetic, and enumeration of the cells of a region.
//!
//! Column letters are bijective base-26 (`A` = 1, `Z` = 26, `AA` = 27);
//! rows are 1-based decimal in the text and 0-based indices in the
//! structures.  Parsing and serialization are verified inverses
//! (`lemma_reference_round_trip`).

use vstd::prelude::*;

verus! {

/// Largest row or column index a reference may carry; keeps every
/// dimension computation inside `usize`.
pub const MAX_DIM: usize = 0x0FFF_FFFF;

/// One cell position: 0-based row and column indices.
#[derive(Clone, Copy, PartialEq, Eq, Structural, Debug)]
pub struct Cell {
    pub row: usize,
    pub column: usize,
}

impl Cell {
    pub open spec fn wf(self) -> bool {
        self.row <= MAX_DIM && self.column <= MAX_DIM
    }

    /// Row-major ordering of cell positions.
    pub open spec fn spec_lt(self, other: Cell) -> bool {
        self.row < other.row || (self.row == other.row && self.column < other.column)
    }

    pub fn lt(&self, other: &Cell) -> (r: bool)
        ensures
            r == self.spec_lt(*other),
    {
        self.row < other.row || (self.row == other.row && self.column < other.column)
    }
}

impl From<(usize, usize)> for Cell {
    fn from(rc: (usize, usize)) -> (r: Cell)
        ensures
            r.row == rc.0 && r.column == rc.1,
    {
        Cell { row: rc.0, column: rc.1 }
    }
}

impl vstd::std_specs::convert::FromSpecImpl<(usize, usize)> for Cell {
    open spec fn obeys_from_spec() -> bool {
        true
    }

    open spec fn from_spec(rc: (usize, usize)) -> Cell {
        Cell { row: rc.0, column: rc.1 }
    }
}

/// A rectangular region of one sheet.  `end_cell` is present for a
/// multi-cell region; `full_rows` marks a whole-column reference
/// (`C:C`), `full_cols` a whole-row reference (`3:3`).
#[derive(Clone, Copy, PartialEq, Eq, Structural, Debug)]
pub struct Reference {
    pub start_cell: Cell,
    pub end_cell: Option<Cell>,
    pub full_rows: bool,
    pub full_cols: bool,
}

pub open spec fn spec_digit_char(d: int) -> char {
    ((48 + d) as u8) as char
}

pub open spec fn spec_digit_val(c: char) -> int {
    (c as int) - 48
}

pub open spec fn spec_is_digit(c: char) -> bool {
    48 <= c as int <= 57
}

/// Letter for a 0-based column remainder (`0` is `A`).
pub open spec fn spec_letter_char(i: int) -> char {
    ((65 + i) as u8) as char
}

pub open spec fn spec_letter_val(c: char) -> int {
    (c as int) - 65
}

pub open spec fn spec_is_letter(c: char) -> bool {
    65 <= c as int <= 90
}

/// Decimal digits of a natural number, empty for zero.
pub open spec fn spec_dec_digits(n: nat) -> Seq<char>
    decreases n,
{
    if n == 0 {
        Seq::empty()
    } else {
        spec_dec_digits(n / 10).push(spec_digit_char((n % 10) as int))
    }
}

/// The number a digit string spells.
pub open spec fn spec_dec_val(s: Seq<char>) -> nat
    decreases s.len(),
{
    if s.len() == 0 {
        0
    } else {
        (spec_dec_val(s.drop_last()) * 10 + spec_digit_val(s.last())) as nat
    }
}

/// Bijective base-26 letters of a positive number (`1` is `A`).
pub open spec fn spec_col_letters(n: nat) -> Seq<char>
    decreases n,
{
    if n == 0 {
        Seq::empty()
    } else {
        spec_col_letters((n - 1) as nat / 26).push(spec_letter_char(((n - 1) as nat % 26) as int))
    }
}

/// The number a letter string spells in bijective base-26.
pub open spec fn spec_col_val(s: Seq<char>) -> nat
    decreases s.len(),
{
    if s.len() == 0 {
        0
    } else {
        (spec_col_val(s.drop_last()) * 26 + spec_letter_val(s.last()) + 1) as nat
    }
}

pub open spec fn all_digits(s: Seq<char>) -> bool {
    forall|i: int| 0 <= i < s.len() ==> spec_is_digit(#[trigger] s[i])
}

pub open spec fn all_letters(s: Seq<char>) -> bool {
    forall|i: int| 0 <= i < s.len() ==> spec_is_letter(#[trigger] s[i])
}

pub proof fn lemma_dec_round_trip(n: nat)
    ensures
        spec_dec_val(spec_dec_digits(n)) == n,
        all_digits(spec_dec_digits(n)),
        n > 0 ==> spec_dec_digits(n).len() >= 1,
    decreases n,
{
    if n == 0 {
    } else {
        lemma_dec_round_trip(n / 10);
        let s = spec_dec_digits(n);
        assert(s.drop_last() =~= spec_dec_digits(n / 10));
        assert(spec_digit_val(spec_digit_char((n % 10) as int)) == n % 10);
    }
}

/// The A1-style text of one cell: column letters then 1-based row digits.
pub open spec fn spec_cell_text(c: Cell) -> Seq<char> {
    spec_col_letters((c.column + 1) as nat) + spec_dec_digits((c.row + 1) as nat)
}

/// The canonical text of a reference (no `$` markers).
pub open spec fn spec_ref_text(r: Reference) -> Seq<char> {
    if r.full_rows {
        spec_col_letters((r.start_cell.column + 1) as nat) + seq![':'] + spec_col_letters(
            (r.end_cell->Some_0.column + 1) as nat,
        )
    } else if r.full_cols {
        spec_dec_digits((r.start_cell.row + 1) as nat) + seq![':'] + spec_dec_digits(
            (r.end_cell->Some_0.row + 1) as nat,
        )
    } else if r.end_cell is Some {
        spec_cell_text(r.start_cell) + seq![':'] + spec_cell_text(r.end_cell->Some_0)
    } else {
        spec_cell_text(r.start_cell)
    }
}

/// The input with every `$` removed, over the first `i` characters.
pub open spec fn spec_strip_upto(s: Seq<char>, i: int) -> Seq<char>
    decreases i,
{
    if i <= 0 {
        Seq::empty()
    } else {
        spec_strip_upto(s, i - 1) + (if s[i - 1] == '$' {
            Seq::<char>::empty()
        } else {
            seq![s[i - 1]]
        })
    }
}

pub open spec fn spec_strip(s: Seq<char>) -> Seq<char> {
    spec_strip_upto(s, s.len() as int)
}

/// Index of the first `:` at or after `i`, or the length when none.
pub open spec fn spec_scan_colon(s: Seq<char>, i: int) -> int
    decreases s.len() - i,
{
    if i < 0 || i >= s.len() {
        s.len() as int
    } else if s[i] == ':' {
        i
    } else {
        spec_scan_colon(s, i + 1)
    }
}

/// Index of the first non-letter at or after `i`, or the length.
pub open spec fn spec_scan_letters(s: Seq<char>, i: int) -> int
    decreases s.len() - i,
{
    if i < 0 || i >= s.len() {
        s.len() as int
    } else if !spec_is_letter(s[i]) {
        i
    } else {
        spec_scan_letters(s, i + 1)
    }
}

/// A single cell's text: a run of letters followed only by digits, the
/// spelled numbers staying within `MAX_DIM` and the row at least 1.
pub open spec fn spec_parse_cell(s: Seq<char>) -> Option<Cell> {
    let k = spec_scan_letters(s, 0);
    if k < 1 || k >= s.len() || !all_digits(s.skip(k)) {
        None
    } else {
        let cv = spec_col_val(s.take(k));
        let rv = spec_dec_val(s.skip(k));
        if 1 <= cv <= MAX_DIM + 1 && 1 <= rv <= MAX_DIM + 1 {
            Some(Cell { row: (rv - 1) as usize, column: (cv - 1) as usize })
        } else {
            None
        }
    }
}

/// What parsing a reference yields: a single cell, a cell range, a
/// whole-column range (`C:C`) or a whole-row range (`3:3`), after `$`
/// markers are discarded; `None` exactly on malformed text (no column
/// letters, no digits, or ends out of order after `:`).
pub open spec fn spec_parse_ref(s0: Seq<char>) -> Option<Reference> {
    let s = spec_strip(s0);
    let c = spec_scan_colon(s, 0);
    if c == s.len() {
        match spec_parse_cell(s) {
            Some(start) => Some(
                Reference { start_cell: start, end_cell: None, full_rows: false, full_cols: false },
            ),
            None => None,
        }
    } else {
        let left = s.take(c);
        let right = s.skip(c + 1);
        if left.len() >= 1 && right.len() >= 1 && all_letters(left) && all_letters(right) {
            let c1 = spec_col_val(left);
            let c2 = spec_col_val(right);
            if c1 <= c2 && c2 <= MAX_DIM + 1 {
                Some(
                    Reference {
                        start_cell: Cell { row: 0, column: (c1 - 1) as usize },
                        end_cell: Some(Cell { row: 0, column: (c2 - 1) as usize }),
                        full_rows: true,
                        full_cols: false,
                    },
                )
            } else {
                None
            }
        } else if left.len() >= 1 && right.len() >= 1 && all_digits(left) && all_digits(right) {
            let r1 = spec_dec_val(left);
            let r2 = spec_dec_val(right);
            if 1 <= r1 && r1 <= r2 && r2 <= MAX_DIM + 1 {
                Some(
                    Reference {
                        start_cell: Cell { row: (r1 - 1) as usize, column: 0 },
                        end_cell: Some(Cell { row: (r2 - 1) as usize, column: 0 }),
                        full_rows: false,
                        full_cols: true,
                    },
                )
            } else {
                None
            }
        } else {
            match (spec_parse_cell(left), spec_parse_cell(right)) {
                (Some(a), Some(b)) => {
                    if a.row <= b.row && a.column <= b.column {
                        Some(
                            Reference {
                                start_cell: a,
                                end_cell: Some(b),
                                full_rows: false,
                                full_cols: false,
                            },
                        )
                    } else {
                        None
                    }
                },
                _ => None,
            }
        }
    }
}

pub proof fn lemma_col_round_trip(n: nat)
    ensures
        spec_col_val(spec_col_letters(n)) == n,
        all_letters(spec_col_letters(n)),
        n > 0 ==> spec_col_letters(n).len() >= 1,
    decreases n,
{
    if n == 0 {
    } else {
        lemma_col_round_trip((n - 1) as nat / 26);
        let s = spec_col_letters(n);
        assert(s.drop_last() =~= spec_col_letters((n - 1) as nat / 26));
        assert(spec_letter_val(spec_letter_char(((n - 1) as nat % 26) as int)) == (n - 1) as nat % 26);
    }
}

impl Reference {
    /// Shape every reference the engine builds satisfies: indices in
    /// bounds, the region normalized (start at most end componentwise),
    /// whole-column and whole-row shapes anchored at zero.
    pub open spec fn wf(self) -> bool {
        &&& self.start_cell.wf()
        &&& !(self.full_rows && self.full_cols)
        &&& (self.full_rows ==> self.end_cell is Some && self.start_cell.row == 0
            && self.end_cell->Some_0.row == 0)
        &&& (self.full_cols ==> self.end_cell is Some && self.start_cell.column == 0
            && self.end_cell->Some_0.column == 0)
        &&& match self.end_cell {
            None => true,
            Some(e) => e.wf() && self.start_cell.row <= e.row && self.start_cell.column <= e.column,
        }
    }

    /// Whether the region satisfies the well-formedness shape.
    pub fn check_wf(&self) -> (r: bool)
        ensures
            r == self.wf(),
    {
        self.start_cell.row <= MAX_DIM && self.start_cell.column <= MAX_DIM && !(self.full_rows
            && self.full_cols) && (match self.end_cell {
            None => !self.full_rows && !self.full_cols,
            Some(e) => e.row <= MAX_DIM && e.column <= MAX_DIM && self.start_cell.row <= e.row
                && self.start_cell.column <= e.column && (!self.full_rows || (self.start_cell.row
                == 0 && e.row == 0)) && (!self.full_cols || (self.start_cell.column == 0
                && e.column == 0)),
        })
    }

    pub open spec fn spec_is_multi_cell(self) -> bool {
        self.end_cell is Some || self.full_rows || self.full_cols
    }

    pub fn is_multi_cell(&self) -> (r: bool)
        ensures
            r == self.spec_is_multi_cell(),
    {
        self.end_cell.is_some() || self.full_rows || self.full_cols
    }

    pub fn row(&self) -> (r: usize)
        ensures
            r == self.start_cell.row,
    {
        self.start_cell.row
    }

    pub fn column(&self) -> (r: usize)
        ensures
            r == self.start_cell.column,
    {
        self.start_cell.column
    }

    /// The region's placement and extent: start row, start column,
    /// height, width.  A whole-column reference reports the largest
    /// height, a whole-row reference the largest width; the caller
    /// clamps both to the sheet.
    pub open spec fn spec_dimensions(self) -> (usize, usize, usize, usize) {
        let h: usize = if self.full_rows {
            usize::MAX
        } else {
            match self.end_cell {
                None => 1usize,
                Some(e) => (e.row - self.start_cell.row + 1) as usize,
            }
        };
        let w: usize = if self.full_cols {
            usize::MAX
        } else {
            match self.end_cell {
                None => 1usize,
                Some(e) => (e.column - self.start_cell.column + 1) as usize,
            }
        };
        (self.start_cell.row, self.start_cell.column, h, w)
    }

    pub fn get_dimensions(&self) -> (r: (usize, usize, usize, usize))
        requires
            self.wf(),
        ensures
            r == self.spec_dimensions(),
    {
        let h: usize = if self.full_rows {
            usize::MAX
        } else {
            match self.end_cell {
                None => 1,
                Some(e) => e.row - self.start_cell.row + 1,
            }
        };
        let w: usize = if self.full_cols {
            usize::MAX
        } else {
            match self.end_cell {
                None => 1,
                Some(e) => e.column - self.start_cell.column + 1,
            }
        };
        (self.start_cell.row, self.start_cell.column, h, w)
    }

    /// Shift the whole region by a row and column delta.
    pub fn offset(&mut self, d: (i32, i32))
        requires
            old(self).wf(),
            0 <= old(self).start_cell.row + d.0 <= MAX_DIM,
            0 <= old(self).start_cell.column + d.1 <= MAX_DIM,
            old(self).end_cell matches Some(e) ==> 0 <= e.row + d.0 <= MAX_DIM && 0 <= e.column
                + d.1 <= MAX_DIM,
        ensures
            final(self).start_cell.row == old(self).start_cell.row + d.0,
            final(self).start_cell.column == old(self).start_cell.column + d.1,
            final(self).full_rows == old(self).full_rows,
            final(self).full_cols == old(self).full_cols,
            match old(self).end_cell {
                None => final(self).end_cell is None,
                Some(e) => final(self).end_cell == Some(
                    Cell { row: (e.row + d.0) as usize, column: (e.column + d.1) as usize },
                ),
            },
    {
        let sr = self.start_cell.row as i64 + d.0 as i64;
        let sc = self.start_cell.column as i64 + d.1 as i64;
        self.start_cell = Cell { row: sr as usize, column: sc as usize };
        self.end_cell = match self.end_cell {
            None => None,
            Some(e) => Some(
                Cell {
                    row: (e.row as i64 + d.0 as i64) as usize,
                    column: (e.column as i64 + d.1 as i64) as usize,
                },
            ),
        };
    }

    /// All cell positions of a region, row-major.
    pub open spec fn spec_cells_of_dim(
        start_row: nat,
        start_col: nat,
        num_rows: nat,
        num_cols: nat,
    ) -> Seq<(usize, usize)> {
        Seq::new(
            num_rows * num_cols,
            |i: int|
                (
                    ((start_row + i / (num_cols as int)) as usize),
                    ((start_col + i % (num_cols as int)) as usize),
                ),
        )
    }

    pub fn get_cells_from_dim(
        start_row: usize,
        start_col: usize,
        num_rows: usize,
        num_cols: usize,
    ) -> (r: Vec<(usize, usize)>)
        requires
            start_row + num_rows <= MAX_DIM + 1,
            start_col + num_cols <= MAX_DIM + 1,
            num_rows >= 1,
            num_cols >= 1,
            num_rows * num_cols <= MAX_DIM + 1,
        ensures
            r@ == Self::spec_cells_of_dim(
                start_row as nat,
                start_col as nat,
                num_rows as nat,
                num_cols as nat,
            ),
    {
        let ghost all = Self::spec_cells_of_dim(
            start_row as nat,
            start_col as nat,
            num_rows as nat,
            num_cols as nat,
        );
        let mut out: Vec<(usize, usize)> = Vec::new();
        let mut i: usize = 0;
        let total: usize = num_rows * num_cols;
        while i < total
            invariant
                i <= total,
                total == num_rows as int * num_cols as int,
                all == Self::spec_cells_of_dim(
                    start_row as nat,
                    start_col as nat,
                    num_rows as nat,
                    num_cols as nat,
                ),
                all.len() == total,
                num_cols >= 1,
                start_row + num_rows <= MAX_DIM + 1,
                start_col + num_cols <= MAX_DIM + 1,
                out@ == all.take(i as int),
            decreases total - i,
        {
            let dr: usize = i / num_cols;
            let dc: usize = i % num_cols;
            assert(dr < num_rows && dc < num_cols) by (nonlinear_arith)
                requires
                    i < num_rows as int * num_cols as int,
                    num_cols >= 1,
                    dr == i as int / num_cols as int,
                    dc == i as int % num_cols as int,
            ;
            out.push((start_row + dr, start_col + dc));
            i = i + 1;
            proof {
                assert(out@ =~= all.take(i as int));
            }
        }
        proof {
            assert(out@ =~= all);
        }
        out
    }
}

fn push_dec(n: usize, out: &mut Vec<char>)
    ensures
        final(out)@ == old(out)@ + spec_dec_digits(n as nat),
    decreases n,
{
    if n == 0 {
        proof {
            assert(out@ =~= old(out)@ + spec_dec_digits(0));
        }
    } else {
        push_dec(n / 10, out);
        let d: u8 = (n % 10) as u8;
        out.push((48 + d) as char);
        proof {
            assert(out@ =~= old(out)@ + spec_dec_digits(n as nat));
        }
    }
}

fn push_letters(n: usize, out: &mut Vec<char>)
    ensures
        final(out)@ == old(out)@ + spec_col_letters(n as nat),
    decreases n,
{
    if n == 0 {
        proof {
            assert(out@ =~= old(out)@ + spec_col_letters(0));
        }
    } else {
        push_letters((n - 1) / 26, out);
        let d: u8 = ((n - 1) % 26) as u8;
        out.push((65 + d) as char);
        proof {
            assert(out@ =~= old(out)@ + spec_col_letters(n as nat));
        }
    }
}

fn push_cell(c: Cell, out: &mut Vec<char>)
    requires
        c.wf(),
    ensures
        final(out)@ == old(out)@ + spec_cell_text(c),
{
    push_letters(c.column + 1, out);
    push_dec(c.row + 1, out);
    proof {
        assert(out@ =~= old(out)@ + spec_cell_text(c));
    }
}

impl Reference {
    /// The canonical A1-style text of the region.
    pub fn to_text(&self) -> (s: String)
        requires
            self.wf(),
        ensures
            s@ == spec_ref_text(*self),
    {
        let mut v: Vec<char> = Vec::new();
        if self.full_rows {
            match self.end_cell {
                Some(e) => {
                    push_letters(self.start_cell.column + 1, &mut v);
                    v.push(':');
                    push_letters(e.column + 1, &mut v);
                    proof {
                        assert(v@ =~= spec_ref_text(*self));
                    }
                },
                None => {
                    assert(false);
                },
            }
        } else if self.full_cols {
            match self.end_cell {
                Some(e) => {
                    push_dec(self.start_cell.row + 1, &mut v);
                    v.push(':');
                    push_dec(e.row + 1, &mut v);
                    proof {
                        assert(v@ =~= spec_ref_text(*self));
                    }
                },
                None => {
                    assert(false);
                },
            }
        } else {
            push_cell(self.start_cell, &mut v);
            match self.end_cell {
                Some(e) => {
                    v.push(':');
                    push_cell(e, &mut v);
                    proof {
                        assert(v@ =~= spec_ref_text(*self));
                    }
                },
                None => {
                    proof {
                        assert(v@ =~= spec_ref_text(*self));
                    }
                },
            }
        }
        crate::text::string_of(&v)
    }
}

fn strip_dollars(v: &Vec<char>) -> (out: Vec<char>)
    ensures
        out@ == spec_strip(v@),
{
    let mut out: Vec<char> = Vec::new();
    let mut i: usize = 0;
    while i < v.len()
        invariant
            i <= v.len(),
            out@ == spec_strip_upto(v@, i as int),
        decreases v.len() - i,
    {
        let c = v[i];
        if c != '$' {
            out.push(c);
        }
        i = i + 1;
        proof {
            assert(out@ =~= spec_strip_upto(v@, i as int));
        }
    }
    out
}

fn scan_colon(v: &Vec<char>) -> (k: usize)
    ensures
        k as int == spec_scan_colon(v@, 0),
        k <= v.len(),
{
    let mut i: usize = 0;
    while i < v.len() && v[i] != ':'
        invariant
            i <= v.len(),
            spec_scan_colon(v@, 0) == spec_scan_colon(v@, i as int),
        decreases v.len() - i,
    {
        i = i + 1;
    }
    i
}

fn is_letter_char(c: char) -> (r: bool)
    ensures
        r == spec_is_letter(c),
{
    let u = c as u32;
    65 <= u && u <= 90
}

fn is_digit_char(c: char) -> (r: bool)
    ensures
        r == spec_is_digit(c),
{
    let u = c as u32;
    48 <= u && u <= 57
}

fn scan_letters(v: &Vec<char>) -> (k: usize)
    ensures
        k as int == spec_scan_letters(v@, 0),
        k <= v.len(),
        forall|j: int| 0 <= j < k ==> spec_is_letter(#[trigger] v@[j]),
{
    let mut i: usize = 0;
    while i < v.len() && is_letter_char(v[i])
        invariant
            i <= v.len(),
            spec_scan_letters(v@, 0) == spec_scan_letters(v@, i as int),
            forall|j: int| 0 <= j < i ==> spec_is_letter(#[trigger] v@[j]),
        decreases v.len() - i,
    {
        i = i + 1;
    }
    i
}

fn subvec(v: &Vec<char>, lo: usize, hi: usize) -> (out: Vec<char>)
    requires
        lo <= hi <= v.len(),
    ensures
        out@ == v@.subrange(lo as int, hi as int),
{
    let mut out: Vec<char> = Vec::new();
    let mut i: usize = lo;
    while i < hi
        invariant
            lo <= i <= hi <= v.len(),
            out@ == v@.subrange(lo as int, i as int),
        decreases hi - i,
    {
        out.push(v[i]);
        i = i + 1;
        proof {
            assert(out@ =~= v@.subrange(lo as int, i as int));
        }
    }
    out
}

fn check_all_letters(v: &Vec<char>) -> (r: bool)
    ensures
        r == all_letters(v@),
{
    let mut i: usize = 0;
    while i < v.len()
        invariant
            i <= v.len(),
            forall|j: int| 0 <= j < i ==> spec_is_letter(#[trigger] v@[j]),
        decreases v.len() - i,
    {
        if !is_letter_char(v[i]) {
            return false;
        }
        i = i + 1;
    }
    true
}

fn check_all_digits(v: &Vec<char>) -> (r: bool)
    ensures
        r == all_digits(v@),
{
    let mut i: usize = 0;
    while i < v.len()
        invariant
            i <= v.len(),
            forall|j: int| 0 <= j < i ==> spec_is_digit(#[trigger] v@[j]),
        decreases v.len() - i,
    {
        if !is_digit_char(v[i]) {
            return false;
        }
        i = i + 1;
    }
    true
}

/// A spelled number capped just above the representable range, so that
/// the cap by itself witnesses an out-of-range value.
pub open spec fn capped(n: nat) -> nat {
    if n > MAX_DIM + 2 {
        (MAX_DIM + 2) as nat
    } else {
        n
    }
}

fn dec_val_capped(v: &Vec<char>) -> (r: usize)
    requires
        all_digits(v@),
    ensures
        r == capped(spec_dec_val(v@)),
{
    let mut acc: usize = 0;
    let mut i: usize = 0;
    while i < v.len()
        invariant
            i <= v.len(),
            all_digits(v@),
            acc == capped(spec_dec_val(v@.take(i as int))),
            acc <= MAX_DIM + 2,
        decreases v.len() - i,
    {
        let d: usize = (v[i] as u32 - 48) as usize;
        assert(spec_is_digit(v@[i as int]));
        let t: u64 = acc as u64 * 10 + d as u64;
        let next: usize = if t > (MAX_DIM as u64) + 2 {
            MAX_DIM + 2
        } else {
            t as usize
        };
        proof {
            let p = v@.take(i as int);
            let q = v@.take(i + 1);
            assert(q.drop_last() =~= p);
            assert(q.last() == v@[i as int]);
            assert(spec_dec_val(q) == spec_dec_val(p) * 10 + spec_digit_val(v@[i as int]));
            assert(spec_dec_val(p) * 10 >= spec_dec_val(p));
        }
        acc = next;
        i = i + 1;
    }
    proof {
        assert(v@.take(v@.len() as int) =~= v@);
    }
    acc
}

fn col_val_capped(v: &Vec<char>) -> (r: usize)
    requires
        all_letters(v@),
    ensures
        r == capped(spec_col_val(v@)),
{
    let mut acc: usize = 0;
    let mut i: usize = 0;
    while i < v.len()
        invariant
            i <= v.len(),
            all_letters(v@),
            acc == capped(spec_col_val(v@.take(i as int))),
            acc <= MAX_DIM + 2,
        decreases v.len() - i,
    {
        let d: usize = (v[i] as u32 - 65) as usize;
        assert(spec_is_letter(v@[i as int]));
        let t: u64 = acc as u64 * 26 + d as u64 + 1;
        let next: usize = if t > (MAX_DIM as u64) + 2 {
            MAX_DIM + 2
        } else {
            t as usize
        };
        proof {
            let p = v@.take(i as int);
            let q = v@.take(i + 1);
            assert(q.drop_last() =~= p);
            assert(q.last() == v@[i as int]);
            assert(spec_col_val(q) == spec_col_val(p) * 26 + spec_letter_val(v@[i as int]) + 1);
            assert(spec_col_val(p) * 26 >= spec_col_val(p));
        }
        acc = next;
        i = i + 1;
    }
    proof {
        assert(v@.take(v@.len() as int) =~= v@);
    }
    acc
}

fn parse_cell_chars(v: &Vec<char>) -> (r: Option<Cell>)
    ensures
        r == spec_parse_cell(v@),
{
    let k = scan_letters(v);
    if k < 1 || k >= v.len() {
        return None;
    }
    let digits = subvec(v, k, v.len());
    proof {
        assert(digits@ =~= v@.skip(k as int));
    }
    if !check_all_digits(&digits) {
        return None;
    }
    let letters = subvec(v, 0, k);
    proof {
        assert(letters@ =~= v@.take(k as int));
    }
    assert(all_letters(letters@));
    let cv = col_val_capped(&letters);
    let rv = dec_val_capped(&digits);
    if 1 <= cv && cv <= MAX_DIM + 1 && 1 <= rv && rv <= MAX_DIM + 1 {
        Some(Cell { row: rv - 1, column: cv - 1 })
    } else {
        None
    }
}

impl Reference {
    /// Parse A1-style reference text; `None` exactly when the text is
    /// malformed (no column letters, no digits, or ends out of order
    /// after `:`).
    pub fn parse(text: &str) -> (r: Option<Reference>)
        ensures
            r == spec_parse_ref(text@),
            r matches Some(rf) ==> rf.wf(),
    {
        let raw = crate::text::chars_of(text);
        let s = strip_dollars(&raw);
        let c = scan_colon(&s);
        let res: Option<Reference> = if c == s.len() {
            match parse_cell_chars(&s) {
                Some(start) => Some(
                    Reference {
                        start_cell: start,
                        end_cell: None,
                        full_rows: false,
                        full_cols: false,
                    },
                ),
                None => None,
            }
        } else {
            let left = subvec(&s, 0, c);
            let right = subvec(&s, c + 1, s.len());
            proof {
                assert(left@ =~= s@.take(c as int));
                assert(right@ =~= s@.skip(c as int + 1));
            }
            if left.len() >= 1 && right.len() >= 1 && check_all_letters(&left) && check_all_letters(
                &right,
            ) {
                let c1 = col_val_capped(&left);
                let c2 = col_val_capped(&right);
                proof {
                    lemma_val_pos_letters(left@);
                    lemma_val_pos_letters(right@);
                }
                if c1 <= c2 && c2 <= MAX_DIM + 1 {
                    Some(
                        Reference {
                            start_cell: Cell { row: 0, column: c1 - 1 },
                            end_cell: Some(Cell { row: 0, column: c2 - 1 }),
                            full_rows: true,
                            full_cols: false,
                        },
                    )
                } else {
                    None
                }
            } else if left.len() >= 1 && right.len() >= 1 && check_all_digits(&left)
                && check_all_digits(&right) {
                let r1 = dec_val_capped(&left);
                let r2 = dec_val_capped(&right);
                if 1 <= r1 && r1 <= r2 && r2 <= MAX_DIM + 1 {
                    Some(
                        Reference {
                            start_cell: Cell { row: r1 - 1, column: 0 },
                            end_cell: Some(Cell { row: r2 - 1, column: 0 }),
                            full_rows: false,
                            full_cols: true,
                        },
                    )
                } else {
                    None
                }
            } else {
                match (parse_cell_chars(&left), parse_cell_chars(&right)) {
                    (Some(a), Some(b)) => {
                        if a.row <= b.row && a.column <= b.column {
                            Some(
                                Reference {
                                    start_cell: a,
                                    end_cell: Some(b),
                                    full_rows: false,
                                    full_cols: false,
                                },
                            )
                        } else {
                            None
                        }
                    },
                    _ => None,
                }
            }
        };
        res
    }
}

/// A nonempty letter string spells a positive column number.
proof fn lemma_val_pos_letters(s: Seq<char>)
    requires
        s.len() >= 1,
        all_letters(s),
    ensures
        spec_col_val(s) >= 1,
{
    assert(spec_is_letter(s.last()));
}

proof fn lemma_scan_colon_finds(s: Seq<char>, j: int, m: int)
    requires
        0 <= j <= m <= s.len(),
        forall|i: int| j <= i < m ==> s[i] != ':',
        m == s.len() || s[m] == ':',
    ensures
        spec_scan_colon(s, j) == m,
    decreases m - j,
{
    if j < m {
        lemma_scan_colon_finds(s, j + 1, m);
    }
}

proof fn lemma_scan_letters_finds(s: Seq<char>, j: int, m: int)
    requires
        0 <= j <= m <= s.len(),
        forall|i: int| j <= i < m ==> spec_is_letter(#[trigger] s[i]),
        m == s.len() || !spec_is_letter(s[m]),
    ensures
        spec_scan_letters(s, j) == m,
    decreases m - j,
{
    if j < m {
        lemma_scan_letters_finds(s, j + 1, m);
    }
}

proof fn lemma_strip_take(s: Seq<char>, j: int)
    requires
        0 <= j <= s.len(),
        forall|i: int| 0 <= i < j ==> s[i] != '$',
    ensures
        spec_strip_upto(s, j) =~= s.take(j),
    decreases j,
{
    if j > 0 {
        lemma_strip_take(s, j - 1);
    }
}

proof fn lemma_strip_identity(s: Seq<char>)
    requires
        forall|i: int| 0 <= i < s.len() ==> s[i] != '$',
    ensures
        spec_strip(s) == s,
{
    lemma_strip_take(s, s.len() as int);
    assert(s.take(s.len() as int) =~= s);
}

/// Every character of a cell's text is a column letter or a row digit.
proof fn lemma_cell_text_chars(c: Cell)
    ensures
        forall|i: int|
            0 <= i < spec_cell_text(c).len() ==> (spec_is_letter(#[trigger] spec_cell_text(c)[i])
                || spec_is_digit(spec_cell_text(c)[i])),
{
    let l = spec_col_letters((c.column + 1) as nat);
    let d = spec_dec_digits((c.row + 1) as nat);
    lemma_col_round_trip((c.column + 1) as nat);
    lemma_dec_round_trip((c.row + 1) as nat);
    assert forall|i: int| 0 <= i < spec_cell_text(c).len() implies (spec_is_letter(
        #[trigger] spec_cell_text(c)[i],
    ) || spec_is_digit(spec_cell_text(c)[i])) by {
        if i < l.len() {
            assert(spec_cell_text(c)[i] == l[i]);
        } else {
            assert(spec_cell_text(c)[i] == d[i - l.len()]);
        }
    };
}

/// Parsing the canonical text of one in-bounds cell recovers the cell.
proof fn lemma_parse_cell_text(c: Cell)
    requires
        c.wf(),
    ensures
        spec_parse_cell(spec_cell_text(c)) == Some(c),
{
    let l = spec_col_letters((c.column + 1) as nat);
    let d = spec_dec_digits((c.row + 1) as nat);
    let s = spec_cell_text(c);
    lemma_col_round_trip((c.column + 1) as nat);
    lemma_dec_round_trip((c.row + 1) as nat);
    assert forall|i: int| 0 <= i < l.len() implies spec_is_letter(#[trigger] s[i]) by {
        assert(s[i] == l[i]);
    };
    assert(s[l.len() as int] == d[0]);
    assert(spec_is_digit(d[0]));
    assert(!spec_is_letter(s[l.len() as int]));
    lemma_scan_letters_finds(s, 0, l.len() as int);
    assert(s.take(l.len() as int) =~= l);
    assert(s.skip(l.len() as int) =~= d);
}

/// Parsing then re-serializing a reference is the identity: the canonical
/// text of any well-formed reference parses back to that same reference
/// (`$` markers, which serialization never emits, are discarded on the
/// way in).
pub proof fn lemma_reference_round_trip(r: Reference)
    requires
        r.wf(),
    ensures
        spec_parse_ref(spec_ref_text(r)) == Some(r),
{
    let s = spec_ref_text(r);
    if r.full_rows {
        let e = r.end_cell->Some_0;
        let l1 = spec_col_letters((r.start_cell.column + 1) as nat);
        let l2 = spec_col_letters((e.column + 1) as nat);
        lemma_col_round_trip((r.start_cell.column + 1) as nat);
        lemma_col_round_trip((e.column + 1) as nat);
        assert forall|i: int| 0 <= i < s.len() implies s[i] != '$' && (i < l1.len() ==> s[i]
            != ':') by {
            if i < l1.len() {
                assert(s[i] == l1[i]);
                assert(spec_is_letter(l1[i]));
            } else if i == l1.len() {
                assert(s[i] == ':');
            } else {
                assert(s[i] == l2[i - l1.len() - 1]);
                assert(spec_is_letter(l2[i - l1.len() - 1]));
            }
        };
        lemma_strip_identity(s);
        assert(s[l1.len() as int] == ':');
        lemma_scan_colon_finds(s, 0, l1.len() as int);
        let left = s.take(l1.len() as int);
        let right = s.skip(l1.len() as int + 1);
        assert(left =~= l1);
        assert(right =~= l2);
    } else if r.full_cols {
        let e = r.end_cell->Some_0;
        let d1 = spec_dec_digits((r.start_cell.row + 1) as nat);
        let d2 = spec_dec_digits((e.row + 1) as nat);
        lemma_dec_round_trip((r.start_cell.row + 1) as nat);
        lemma_dec_round_trip((e.row + 1) as nat);
        assert forall|i: int| 0 <= i < s.len() implies s[i] != '$' && (i < d1.len() ==> s[i]
            != ':') by {
            if i < d1.len() {
                assert(s[i] == d1[i]);
                assert(spec_is_digit(d1[i]));
            } else if i == d1.len() {
                assert(s[i] == ':');
            } else {
                assert(s[i] == d2[i - d1.len() - 1]);
                assert(spec_is_digit(d2[i - d1.len() - 1]));
            }
        };
        lemma_strip_identity(s);
        assert(s[d1.len() as int] == ':');
        lemma_scan_colon_finds(s, 0, d1.len() as int);
        let left = s.take(d1.len() as int);
        let right = s.skip(d1.len() as int + 1);
        assert(left =~= d1);
        assert(right =~= d2);
        assert(!spec_is_letter(left[0]));
        assert(spec_dec_val(left) == r.start_cell.row + 1);
    } else if r.end_cell is Some {
        let e = r.end_cell->Some_0;
        let ta = spec_cell_text(r.start_cell);
        let tb = spec_cell_text(e);
        lemma_cell_text_chars(r.start_cell);
        lemma_cell_text_chars(e);
        lemma_col_round_trip((r.start_cell.column + 1) as nat);
        lemma_dec_round_trip((r.start_cell.row + 1) as nat);
        assert forall|i: int| 0 <= i < s.len() implies s[i] != '$' && (i < ta.len() ==> s[i]
            != ':') by {
            if i < ta.len() {
                assert(s[i] == ta[i]);
            } else if i == ta.len() {
                assert(s[i] == ':');
            } else {
                assert(s[i] == tb[i - ta.len() - 1]);
            }
        };
        lemma_strip_identity(s);
        assert(s[ta.len() as int] == ':');
        lemma_scan_colon_finds(s, 0, ta.len() as int);
        let left = s.take(ta.len() as int);
        let right = s.skip(ta.len() as int + 1);
        assert(left =~= ta);
        assert(right =~= tb);
        lemma_parse_cell_text(r.start_cell);
        lemma_parse_cell_text(e);
        // the whole-column and whole-row branches are ruled out by a
        // digit inside the letter run and a letter up front
        let la = spec_col_letters((r.start_cell.column + 1) as nat);
        let da = spec_dec_digits((r.start_cell.row + 1) as nat);
        assert(left[la.len() as int] == da[0]);
        assert(spec_is_digit(da[0]) && !spec_is_letter(left[la.len() as int]));
        assert(!all_letters(left));
        assert(left[0] == la[0]);
        assert(spec_is_letter(la[0]) && !spec_is_digit(left[0]));
        assert(!all_digits(left));
    } else {
        lemma_cell_text_chars(r.start_cell);
        assert forall|i: int| 0 <= i < s.len() implies s[i] != '$' && s[i] != ':' by {
            assert(spec_is_letter(s[i]) || spec_is_digit(s[i]));
        };
        lemma_strip_identity(s);
        lemma_scan_colon_finds(s, 0, s.len() as int);
        lemma_parse_cell_text(r.start_cell);
    }
}

} // verus!
