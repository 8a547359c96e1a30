//! The function registry: each spreadsheet function over already
//! evaluated values, with its result pinned by a spec-level mirror.

use vstd::prelude::*;
use crate::ast::ExprV;
use crate::date::Date;
use crate::num::{bits_of_i64, eq_bits, i64_of_bits, lt_bits, ONE_BITS, SIGN_MASK};
use crate::ops::{scalar_op, spec_scalar_op, spec_value_cmp, spec_value_eq, value_cmp, value_eq, Op};
use crate::reference::{Cell, Reference, MAX_DIM};
use crate::value::{
    lemma_view_of_seq, spec_as_num, spec_as_text, spec_ensure_single, view_of_seq, ErrorKind, Value,
    ValueV,
};
use core::cmp::Ordering;

verus! {

/// A value's numeric coercion, or the coercion error.
pub open spec fn spec_nv(v: ValueV) -> ValueV {
    match spec_as_num(v) {
        Some(x) => ValueV::Num(x),
        None => ValueV::Error(ErrorKind::Value),
    }
}

fn nv(v: &Value) -> (r: Value)
    ensures
        r@ == spec_nv(v@),
{
    match v.as_num() {
        Some(x) => Value::Num(x),
        None => Value::Error(ErrorKind::Value),
    }
}

/// The integer value of an optional count, zero when absent.
pub open spec fn spec_opt_i32(o: Option<i32>) -> int {
    match o {
        Some(v) => v as int,
        None => 0int,
    }
}

/// How far a height or width count moves the end cell: one less than a
/// positive count, one more than a negative one.
pub open spec fn spec_off_delta(h: int) -> int {
    if h > 0 {
        h - 1
    } else {
        h + 1
    }
}

/// Whether a height/width pair asks for a region larger than one cell.
pub open spec fn spec_offset_grows(height: Option<i32>, width: Option<i32>) -> bool {
    let h = spec_opt_i32(height);
    let w = spec_opt_i32(width);
    (height is Some || width is Some) && (h > 1 || h < -1 || w > 1 || w < -1)
}

/// The region OFFSET builds: the anchor shifted by the row and column
/// deltas; a height or width of magnitude above one extends the region,
/// and the result is normalized so that the start is at most the end in
/// each coordinate separately.
pub open spec fn spec_offset_region(
    start: Cell,
    rows: int,
    cols: int,
    height: Option<i32>,
    width: Option<i32>,
) -> Reference {
    let ar = start.row + rows;
    let ac = start.column + cols;
    if spec_offset_grows(height, width) {
        let er = ar + spec_off_delta(spec_opt_i32(height));
        let ec = ac + spec_off_delta(spec_opt_i32(width));
        Reference {
            start_cell: Cell {
                row: (if ar <= er {
                    ar
                } else {
                    er
                }) as usize,
                column: (if ac <= ec {
                    ac
                } else {
                    ec
                }) as usize,
            },
            end_cell: Some(
                Cell {
                    row: (if ar <= er {
                        er
                    } else {
                        ar
                    }) as usize,
                    column: (if ac <= ec {
                        ec
                    } else {
                        ac
                    }) as usize,
                },
            ),
            full_rows: false,
            full_cols: false,
        }
    } else {
        Reference {
            start_cell: Cell { row: ar as usize, column: ac as usize },
            end_cell: None,
            full_rows: false,
            full_cols: false,
        }
    }
}

/// Shift a region and resize it.  The input is left holding the shifted
/// anchor and the raw computed end; the returned region is the same
/// area normalized componentwise (start at most end in each
/// coordinate).
pub fn offset_reference(
    r: &mut Reference,
    rows: i32,
    cols: i32,
    height: Option<i32>,
    width: Option<i32>,
) -> (out: Reference)
    requires
        old(r).wf(),
        0 <= old(r).start_cell.row + rows <= MAX_DIM,
        0 <= old(r).start_cell.column + cols <= MAX_DIM,
        old(r).end_cell matches Some(e) ==> 0 <= e.row + rows <= MAX_DIM && 0 <= e.column + cols
            <= MAX_DIM,
        spec_offset_grows(height, width) ==> 0 <= old(r).start_cell.row + rows + spec_off_delta(
            spec_opt_i32(height),
        ) <= MAX_DIM && 0 <= old(r).start_cell.column + cols + spec_off_delta(spec_opt_i32(width))
            <= MAX_DIM,
    ensures
        final(r).start_cell.row == old(r).start_cell.row + rows,
        final(r).start_cell.column == old(r).start_cell.column + cols,
        final(r).full_rows == false && final(r).full_cols == false,
        spec_offset_grows(height, width) ==> final(r).end_cell == Some(
            Cell {
                row: (old(r).start_cell.row + rows + spec_off_delta(spec_opt_i32(height))) as usize,
                column: (old(r).start_cell.column + cols + spec_off_delta(
                    spec_opt_i32(width),
                )) as usize,
            },
        ),
        !spec_offset_grows(height, width) ==> final(r).end_cell is None,
        out == spec_offset_region(old(r).start_cell, rows as int, cols as int, height, width),
        out.wf(),
{
    r.offset((rows, cols));
    let mut end_cell: Option<Cell> = None;
    if height.is_some() || width.is_some() {
        let h_u: i32 = match height {
            Some(h) => h,
            None => 0,
        };
        let w_u: i32 = match width {
            Some(w) => w,
            None => 0,
        };
        if h_u > 1 || h_u < -1 || w_u > 1 || w_u < -1 {
            let h_offset: i32 = if h_u > 0 {
                h_u - 1
            } else {
                h_u + 1
            };
            let w_offset: i32 = if w_u > 0 {
                w_u - 1
            } else {
                w_u + 1
            };
            end_cell = Some(
                Cell {
                    row: (r.start_cell.row as i64 + h_offset as i64) as usize,
                    column: (r.start_cell.column as i64 + w_offset as i64) as usize,
                },
            );
        }
    }
    r.end_cell = end_cell;
    r.full_rows = false;
    r.full_cols = false;
    match r.end_cell {
        Some(ec) => {
            let sr: usize = if r.start_cell.row <= ec.row {
                r.start_cell.row
            } else {
                ec.row
            };
            let sc: usize = if r.start_cell.column <= ec.column {
                r.start_cell.column
            } else {
                ec.column
            };
            let er: usize = if r.start_cell.row <= ec.row {
                ec.row
            } else {
                r.start_cell.row
            };
            let ecol: usize = if r.start_cell.column <= ec.column {
                ec.column
            } else {
                r.start_cell.column
            };
            Reference {
                start_cell: Cell { row: sr, column: sc },
                end_cell: Some(Cell { row: er, column: ecol }),
                full_rows: false,
                full_cols: false,
            }
        },
        None => *r,
    }
}

/// IFERROR: the fallback when the subject is any error, else the
/// subject itself.
pub fn iferror(a: Value, b: Value) -> (r: Value)
    ensures
        r@ == (if a@ is Error {
            b@
        } else {
            a@
        }),
{
    if a.is_err() {
        b
    } else {
        a
    }
}

/// IF: the branch picked by the condition's boolean coercion.
pub fn iffunc(condition: &Value, a: Value, b: Value) -> (r: Value)
    ensures
        r@ == (match crate::value::spec_as_bool(condition@) {
            Some(true) => a@,
            Some(false) => b@,
            None => ValueV::Error(ErrorKind::Value),
        }),
{
    match condition.as_bool() {
        Some(true) => a,
        Some(false) => b,
        None => Value::Error(ErrorKind::Value),
    }
}

/// AND of the boolean coercions.
pub fn andfunc(a: &Value, b: &Value) -> (r: Value)
    ensures
        r@ == (match (crate::value::spec_as_bool(a@), crate::value::spec_as_bool(b@)) {
            (Some(x), Some(y)) => ValueV::Bool(x && y),
            _ => ValueV::Error(ErrorKind::Value),
        }),
{
    match (a.as_bool(), b.as_bool()) {
        (Some(x), Some(y)) => Value::Bool(x && y),
        _ => Value::Error(ErrorKind::Value),
    }
}

/// OR of the boolean coercions.
pub fn orfunc(a: &Value, b: &Value) -> (r: Value)
    ensures
        r@ == (match (crate::value::spec_as_bool(a@), crate::value::spec_as_bool(b@)) {
            (Some(x), Some(y)) => ValueV::Bool(x || y),
            _ => ValueV::Error(ErrorKind::Value),
        }),
{
    match (a.as_bool(), b.as_bool()) {
        (Some(x), Some(y)) => Value::Bool(x || y),
        _ => Value::Error(ErrorKind::Value),
    }
}

/// CONCAT of the text coercions.
pub fn concat(a: &Value, b: &Value) -> (r: Value)
    ensures
        r@ == (match (spec_as_text(a@), spec_as_text(b@)) {
            (Some(x), Some(y)) => ValueV::Text(x + y),
            _ => ValueV::Error(ErrorKind::Value),
        }),
{
    match (a.as_text(), b.as_text()) {
        (Some(x), Some(y)) => {
            let mut s = x;
            s.append(y.as_str());
            Value::Text(s)
        },
        _ => Value::Error(ErrorKind::Value),
    }
}

/// EXPONENT: the first numeric coercion raised to the second.
pub fn exponent(a: &Value, b: &Value) -> (r: Value)
    ensures
        r@ == spec_scalar_op(Op::Exponent, spec_nv(a@), spec_nv(b@)),
{
    let x = nv(a);
    let y = nv(b);
    scalar_op(Op::Exponent, &x, &y)
}

/// An argument whose array or matrix payload is of modest size, so
/// that counts stay far from any integer bound.
pub open spec fn spec_arg_small(v: ValueV) -> bool {
    match v {
        ValueV::Array(a) => a.len() <= 65536,
        ValueV::Array2 { rows, cols, data } => data.len() <= 65536,
        _ => true,
    }
}

pub open spec fn spec_args_small(s: Seq<ValueV>) -> bool {
    forall|k: int| 0 <= k < s.len() ==> spec_arg_small(#[trigger] s[k])
}

/// How many numbers a list of arguments holds: every element of an
/// array or matrix argument that is a number, and every plain argument.
pub open spec fn spec_count_nums(s: Seq<ValueV>, i: int) -> int
    decreases s.len() - i,
{
    if i < 0 || i >= s.len() {
        0
    } else {
        (match s[i] {
            ValueV::Array(a) => spec_count_items(a, 0),
            ValueV::Array2 { rows, cols, data } => spec_count_items(data, 0),
            _ => 1,
        }) + spec_count_nums(s, i + 1)
    }
}

pub open spec fn spec_count_items(s: Seq<ValueV>, i: int) -> int
    decreases s.len() - i,
{
    if i < 0 || i >= s.len() {
        0
    } else {
        (if s[i] is Num {
            1int
        } else {
            0int
        }) + spec_count_items(s, i + 1)
    }
}

fn count_items(items: &Vec<Value>, i: usize) -> (r: usize)
    requires
        i <= items@.len(),
    ensures
        r == spec_count_items(view_of_seq(items@), i as int),
        r <= items@.len() - i,
    decreases items@.len() - i,
{
    proof {
        lemma_view_of_seq(items@);
    }
    if i >= items.len() {
        0
    } else {
        let h: usize = if items[i].is_num() {
            1
        } else {
            0
        };
        h + count_items(items, i + 1)
    }
}

/// COUNT: how many numbers the arguments hold.
pub fn count(args: &Vec<Value>) -> (r: Value)
    requires
        args@.len() <= 16384,
        spec_args_small(view_of_seq(args@)),
    ensures
        r@ == ValueV::Num(bits_of_i64(spec_count_nums(view_of_seq(args@), 0) as i64)),
{
    let c = count_go(args, 0);
    proof {
        lemma_count_nums_bound(view_of_seq(args@), 0);
    }
    Value::Num(crate::num::num_from_i64(c as i64))
}

fn count_go(args: &Vec<Value>, i: usize) -> (r: usize)
    requires
        i <= args@.len(),
        args@.len() <= 16384,
        spec_args_small(view_of_seq(args@)),
    ensures
        r == spec_count_nums(view_of_seq(args@), i as int),
        r <= (args@.len() - i) * 65536,
    decreases args@.len() - i,
{
    proof {
        lemma_view_of_seq(args@);
        lemma_count_nums_bound(view_of_seq(args@), i as int);
    }
    if i >= args.len() {
        0
    } else {
        let h: usize = match &args[i] {
            Value::Array(a) => {
                proof {
                    lemma_count_items_bound(view_of_seq(a@), 0);
                    lemma_view_of_seq(a@);
                }
                count_items(a, 0)
            },
            Value::Array2(m) => {
                proof {
                    lemma_count_items_bound(view_of_seq(m.data@), 0);
                    lemma_view_of_seq(m.data@);
                }
                count_items(&m.data, 0)
            },
            _ => 1,
        };
        let rest = count_go(args, i + 1);
        proof {
            lemma_count_nums_bound(view_of_seq(args@), i as int + 1);
        }
        h + rest
    }
}

proof fn lemma_count_items_bound(s: Seq<ValueV>, i: int)
    ensures
        0 <= spec_count_items(s, i) <= (if i < 0 || i >= s.len() {
            0int
        } else {
            s.len() - i
        }),
    decreases s.len() - i,
{
    if 0 <= i < s.len() {
        lemma_count_items_bound(s, i + 1);
    }
}

proof fn lemma_count_nums_bound(s: Seq<ValueV>, i: int)
    requires
        spec_args_small(s),
    ensures
        0 <= spec_count_nums(s, i),
        0 <= i <= s.len() ==> spec_count_nums(s, i) <= (s.len() - i) * 65536,
        (i < 0 || i > s.len()) ==> spec_count_nums(s, i) <= s.len() * 65536,
    decreases s.len() - i,
{
    if 0 <= i < s.len() {
        lemma_count_nums_bound(s, i + 1);
        match s[i] {
            ValueV::Array(a) => {
                lemma_count_items_bound(a, 0);
            },
            ValueV::Array2 { rows, cols, data } => {
                lemma_count_items_bound(data, 0);
            },
            _ => {},
        }
    }
}

/// How many non-empty entries the arguments hold (array and matrix
/// elements counted individually).
pub open spec fn spec_counta(s: Seq<ValueV>, i: int) -> int
    decreases s.len() - i,
{
    if i < 0 || i >= s.len() {
        0
    } else {
        (match s[i] {
            ValueV::Array(a) => spec_counta_items(a, 0),
            ValueV::Array2 { rows, cols, data } => spec_counta_items(data, 0),
            _ => 1,
        }) + spec_counta(s, i + 1)
    }
}

pub open spec fn spec_counta_items(s: Seq<ValueV>, i: int) -> int
    decreases s.len() - i,
{
    if i < 0 || i >= s.len() {
        0
    } else {
        (if s[i] is Empty {
            0int
        } else {
            1int
        }) + spec_counta_items(s, i + 1)
    }
}

fn counta_items(items: &Vec<Value>, i: usize) -> (r: usize)
    requires
        i <= items@.len(),
    ensures
        r == spec_counta_items(view_of_seq(items@), i as int),
        r <= items@.len() - i,
    decreases items@.len() - i,
{
    proof {
        lemma_view_of_seq(items@);
    }
    if i >= items.len() {
        0
    } else {
        let h: usize = if items[i].is_empty() {
            0
        } else {
            1
        };
        h + counta_items(items, i + 1)
    }
}

proof fn lemma_counta_items_bound(s: Seq<ValueV>, i: int)
    ensures
        0 <= spec_counta_items(s, i) <= (if i < 0 || i >= s.len() {
            0int
        } else {
            s.len() - i
        }),
    decreases s.len() - i,
{
    if 0 <= i < s.len() {
        lemma_counta_items_bound(s, i + 1);
    }
}

proof fn lemma_counta_bound(s: Seq<ValueV>, i: int)
    requires
        spec_args_small(s),
    ensures
        0 <= spec_counta(s, i),
        0 <= i <= s.len() ==> spec_counta(s, i) <= (s.len() - i) * 65536,
        (i < 0 || i > s.len()) ==> spec_counta(s, i) <= s.len() * 65536,
    decreases s.len() - i,
{
    if 0 <= i < s.len() {
        lemma_counta_bound(s, i + 1);
        match s[i] {
            ValueV::Array(a) => {
                lemma_counta_items_bound(a, 0);
            },
            ValueV::Array2 { rows, cols, data } => {
                lemma_counta_items_bound(data, 0);
            },
            _ => {},
        }
    }
}

fn counta_go(args: &Vec<Value>, i: usize) -> (r: usize)
    requires
        i <= args@.len(),
        args@.len() <= 16384,
        spec_args_small(view_of_seq(args@)),
    ensures
        r == spec_counta(view_of_seq(args@), i as int),
        r <= (args@.len() - i) * 65536,
    decreases args@.len() - i,
{
    proof {
        lemma_view_of_seq(args@);
        lemma_counta_bound(view_of_seq(args@), i as int);
    }
    if i >= args.len() {
        0
    } else {
        let h: usize = match &args[i] {
            Value::Array(a) => {
                proof {
                    lemma_counta_items_bound(view_of_seq(a@), 0);
                    lemma_view_of_seq(a@);
                }
                counta_items(a, 0)
            },
            Value::Array2(m) => {
                proof {
                    lemma_counta_items_bound(view_of_seq(m.data@), 0);
                    lemma_view_of_seq(m.data@);
                }
                counta_items(&m.data, 0)
            },
            _ => 1,
        };
        let rest = counta_go(args, i + 1);
        proof {
            lemma_counta_bound(view_of_seq(args@), i as int + 1);
        }
        h + rest
    }
}

/// COUNTA: how many non-empty entries the arguments hold.
pub fn counta(args: &Vec<Value>) -> (r: Value)
    requires
        args@.len() <= 16384,
        spec_args_small(view_of_seq(args@)),
    ensures
        r@ == ValueV::Num(bits_of_i64(spec_counta(view_of_seq(args@), 0) as i64)),
{
    let c = counta_go(args, 0);
    proof {
        lemma_counta_bound(view_of_seq(args@), 0);
    }
    Value::Num(crate::num::num_from_i64(c as i64))
}

/// Running sum over the numeric elements of one array argument.
pub open spec fn spec_sum_items(s: Seq<ValueV>, i: int, acc: ValueV) -> ValueV
    decreases s.len() - i,
{
    if i < 0 || i >= s.len() {
        acc
    } else {
        spec_sum_items(
            s,
            i + 1,
            if s[i] is Num {
                spec_scalar_op(Op::Plus, acc, s[i])
            } else {
                acc
            },
        )
    }
}

/// Running sum over the arguments: array and matrix arguments
/// contribute their numeric elements, every other argument its numeric
/// coercion.
pub open spec fn spec_sum(s: Seq<ValueV>, i: int, acc: ValueV) -> ValueV
    decreases s.len() - i,
{
    if i < 0 || i >= s.len() {
        acc
    } else {
        spec_sum(
            s,
            i + 1,
            match s[i] {
                ValueV::Array(a) => spec_sum_items(a, 0, acc),
                ValueV::Array2 { rows, cols, data } => spec_sum_items(data, 0, acc),
                _ => spec_scalar_op(Op::Plus, acc, spec_nv(s[i])),
            },
        )
    }
}

fn sum_items(items: &Vec<Value>, i: usize, acc: Value) -> (r: Value)
    requires
        i <= items@.len(),
    ensures
        r@ == spec_sum_items(view_of_seq(items@), i as int, acc@),
    decreases items@.len() - i,
{
    proof {
        lemma_view_of_seq(items@);
    }
    if i >= items.len() {
        acc
    } else {
        let acc2 = if items[i].is_num() {
            scalar_op(Op::Plus, &acc, &items[i])
        } else {
            acc
        };
        sum_items(items, i + 1, acc2)
    }
}

fn sum_go(args: &Vec<Value>, i: usize, acc: Value) -> (r: Value)
    requires
        i <= args@.len(),
    ensures
        r@ == spec_sum(view_of_seq(args@), i as int, acc@),
    decreases args@.len() - i,
{
    proof {
        lemma_view_of_seq(args@);
    }
    if i >= args.len() {
        acc
    } else {
        let acc2 = match &args[i] {
            Value::Array(a) => sum_items(a, 0, acc),
            Value::Array2(m) => sum_items(&m.data, 0, acc),
            _ => {
                let c = nv(&args[i]);
                scalar_op(Op::Plus, &acc, &c)
            },
        };
        sum_go(args, i + 1, acc2)
    }
}

/// SUM over the arguments, starting from zero.
pub fn sum(args: &Vec<Value>) -> (r: Value)
    ensures
        r@ == spec_sum(view_of_seq(args@), 0, ValueV::Num(bits_of_i64(0))),
{
    let zero = Value::Num(crate::num::num_from_i64(0));
    sum_go(args, 0, zero)
}

/// AVERAGE: the sum of the counted numbers divided by how many there
/// are; array and matrix elements count when numeric, plain arguments
/// by coercion.
pub open spec fn spec_average(s: Seq<ValueV>) -> ValueV {
    spec_scalar_op(
        Op::Divide,
        spec_avg_sum(s, 0, ValueV::Num(bits_of_i64(0))),
        ValueV::Num(bits_of_i64(spec_avg_count(s, 0) as i64)),
    )
}

pub open spec fn spec_avg_sum(s: Seq<ValueV>, i: int, acc: ValueV) -> ValueV
    decreases s.len() - i,
{
    if i < 0 || i >= s.len() {
        acc
    } else {
        spec_avg_sum(
            s,
            i + 1,
            match s[i] {
                ValueV::Array(a) => spec_sum_items(a, 0, acc),
                ValueV::Array2 { rows, cols, data } => spec_sum_items(data, 0, acc),
                _ => spec_scalar_op(Op::Plus, acc, spec_nv(s[i])),
            },
        )
    }
}

pub open spec fn spec_avg_count(s: Seq<ValueV>, i: int) -> int
    decreases s.len() - i,
{
    if i < 0 || i >= s.len() {
        0
    } else {
        (match s[i] {
            ValueV::Array(a) => spec_count_items(a, 0),
            ValueV::Array2 { rows, cols, data } => spec_count_items(data, 0),
            _ => 1,
        }) + spec_avg_count(s, i + 1)
    }
}

/// AVERAGE over the arguments.
pub fn average(args: &Vec<Value>) -> (r: Value)
    requires
        args@.len() <= 16384,
        spec_args_small(view_of_seq(args@)),
    ensures
        r@ == spec_average(view_of_seq(args@)),
{
    let zero = Value::Num(crate::num::num_from_i64(0));
    let total = avg_sum_go(args, 0, zero);
    let c = count_go(args, 0);
    proof {
        lemma_count_nums_bound(view_of_seq(args@), 0);
        lemma_avg_count_is_count(view_of_seq(args@), 0);
    }
    let n = Value::Num(crate::num::num_from_i64(c as i64));
    scalar_op(Op::Divide, &total, &n)
}

proof fn lemma_avg_count_is_count(s: Seq<ValueV>, i: int)
    ensures
        spec_avg_count(s, i) == spec_count_nums(s, i),
    decreases s.len() - i,
{
    if 0 <= i < s.len() {
        lemma_avg_count_is_count(s, i + 1);
    }
}

fn avg_sum_go(args: &Vec<Value>, i: usize, acc: Value) -> (r: Value)
    requires
        i <= args@.len(),
    ensures
        r@ == spec_avg_sum(view_of_seq(args@), i as int, acc@),
    decreases args@.len() - i,
{
    proof {
        lemma_view_of_seq(args@);
    }
    if i >= args.len() {
        acc
    } else {
        let acc2 = match &args[i] {
            Value::Array(a) => sum_items(a, 0, acc),
            Value::Array2(m) => sum_items(&m.data, 0, acc),
            _ => {
                let c = nv(&args[i]);
                scalar_op(Op::Plus, &acc, &c)
            },
        };
        avg_sum_go(args, i + 1, acc2)
    }
}

/// Keep the larger (or smaller) of the running best and a candidate,
/// by the heterogeneous ordering.
pub open spec fn spec_pick(acc: ValueV, cand: ValueV, want_max: bool) -> ValueV {
    if want_max {
        if spec_value_cmp(cand, acc) == Some(Ordering::Greater) {
            cand
        } else {
            acc
        }
    } else {
        if spec_value_cmp(cand, acc) == Some(Ordering::Less) {
            cand
        } else {
            acc
        }
    }
}

pub open spec fn spec_extreme_items(s: Seq<ValueV>, i: int, acc: ValueV, want_max: bool) -> ValueV
    decreases s.len() - i,
{
    if i < 0 || i >= s.len() {
        acc
    } else {
        spec_extreme_items(
            s,
            i + 1,
            if s[i] is Num {
                spec_pick(acc, s[i], want_max)
            } else {
                acc
            },
            want_max,
        )
    }
}

pub open spec fn spec_extreme(s: Seq<ValueV>, i: int, acc: ValueV, want_max: bool) -> ValueV
    decreases s.len() - i,
{
    if i < 0 || i >= s.len() {
        acc
    } else {
        spec_extreme(
            s,
            i + 1,
            match s[i] {
                ValueV::Array(a) => spec_extreme_items(a, 0, acc, want_max),
                ValueV::Array2 { rows, cols, data } => spec_extreme_items(data, 0, acc, want_max),
                _ => spec_pick(acc, s[i], want_max),
            },
            want_max,
        )
    }
}

fn pick(acc: Value, cand: &Value, want_max: bool) -> (r: Value)
    ensures
        r@ == spec_pick(acc@, cand@, want_max),
{
    let c = value_cmp(cand, &acc);
    if want_max {
        if matches!(c, Some(Ordering::Greater)) {
            cand.clone()
        } else {
            acc
        }
    } else {
        if matches!(c, Some(Ordering::Less)) {
            cand.clone()
        } else {
            acc
        }
    }
}

fn extreme_items(items: &Vec<Value>, i: usize, acc: Value, want_max: bool) -> (r: Value)
    requires
        i <= items@.len(),
    ensures
        r@ == spec_extreme_items(view_of_seq(items@), i as int, acc@, want_max),
    decreases items@.len() - i,
{
    proof {
        lemma_view_of_seq(items@);
    }
    if i >= items.len() {
        acc
    } else {
        let acc2 = if items[i].is_num() {
            pick(acc, &items[i], want_max)
        } else {
            acc
        };
        extreme_items(items, i + 1, acc2, want_max)
    }
}

fn extreme_go(args: &Vec<Value>, i: usize, acc: Value, want_max: bool) -> (r: Value)
    requires
        i <= args@.len(),
    ensures
        r@ == spec_extreme(view_of_seq(args@), i as int, acc@, want_max),
    decreases args@.len() - i,
{
    proof {
        lemma_view_of_seq(args@);
    }
    if i >= args.len() {
        acc
    } else {
        let acc2 = match &args[i] {
            Value::Array(a) => extreme_items(a, 0, acc, want_max),
            Value::Array2(m) => extreme_items(&m.data, 0, acc, want_max),
            _ => pick(acc, &args[i], want_max),
        };
        extreme_go(args, i + 1, acc2, want_max)
    }
}

/// MAX over the arguments, seeded with the first; empty input refuses.
pub fn max(args: &Vec<Value>) -> (r: Value)
    ensures
        r@ == (if args@.len() == 0 {
            ValueV::Error(ErrorKind::Value)
        } else {
            spec_extreme(view_of_seq(args@), 0, view_of_seq(args@)[0], true)
        }),
{
    if args.len() == 0 {
        return Value::Error(ErrorKind::Value);
    }
    proof {
        lemma_view_of_seq(args@);
    }
    let seed = args[0].clone();
    extreme_go(args, 0, seed, true)
}

/// MIN over the arguments, seeded with the first; empty input refuses.
pub fn min(args: &Vec<Value>) -> (r: Value)
    ensures
        r@ == (if args@.len() == 0 {
            ValueV::Error(ErrorKind::Value)
        } else {
            spec_extreme(view_of_seq(args@), 0, view_of_seq(args@)[0], false)
        }),
{
    if args.len() == 0 {
        return Value::Error(ErrorKind::Value);
    }
    proof {
        lemma_view_of_seq(args@);
    }
    let seed = args[0].clone();
    extreme_go(args, 0, seed, false)
}

/// DATE: a calendar date from numeric year, month, day; the number
/// error when they name no supported day.
pub open spec fn spec_date_fn(y: ValueV, m: ValueV, d: ValueV) -> ValueV {
    match (spec_as_num(y), spec_as_num(m), spec_as_num(d)) {
        (Some(a), Some(b), Some(c)) => {
            let yy = i64_of_bits(a);
            let mm = i64_of_bits(b);
            let dd = i64_of_bits(c);
            if 1 <= yy <= 9999 && 1 <= mm <= 12 && 1 <= dd <= crate::date::spec_days_in_month(
                yy as int,
                mm as int,
            ) {
                ValueV::Date(Date { year: yy as i32, month: mm as u8, day: dd as u8 })
            } else {
                ValueV::Error(ErrorKind::Num)
            }
        },
        _ => ValueV::Error(ErrorKind::Value),
    }
}

pub fn date(y: &Value, m: &Value, d: &Value) -> (r: Value)
    ensures
        r@ == spec_date_fn(y@, m@, d@),
{
    match (y.as_num(), m.as_num(), d.as_num()) {
        (Some(a), Some(b), Some(c)) => {
            let yy = crate::num::num_to_i64(a);
            let mm = crate::num::num_to_i64(b);
            let dd = crate::num::num_to_i64(c);
            if 1 <= yy && yy <= 9999 {
                match Date::from_ymd(yy as i32, mm, dd) {
                    Some(dt) => Value::Date(dt),
                    None => Value::Error(ErrorKind::Num),
                }
            } else {
                Value::Error(ErrorKind::Num)
            }
        },
        _ => Value::Error(ErrorKind::Value),
    }
}

/// YEAR of a date value.
pub fn year(v: &Value) -> (r: Value)
    ensures
        r@ == (match v@ {
            ValueV::Date(d) => ValueV::Num(bits_of_i64(d.year as i64)),
            _ => ValueV::Error(ErrorKind::Value),
        }),
{
    match v.as_date() {
        Some(d) => Value::Num(crate::num::num_from_i64(d.year as i64)),
        None => Value::Error(ErrorKind::Value),
    }
}

/// MONTH of a date value.
pub fn month(v: &Value) -> (r: Value)
    ensures
        r@ == (match v@ {
            ValueV::Date(d) => ValueV::Num(bits_of_i64(d.month as i64)),
            _ => ValueV::Error(ErrorKind::Value),
        }),
{
    match v.as_date() {
        Some(d) => Value::Num(crate::num::num_from_i64(d.month as i64)),
        None => Value::Error(ErrorKind::Value),
    }
}

/// EOMONTH: the last day of the month a signed count of months away.
pub open spec fn spec_eomonth_fn(v: ValueV, m: ValueV) -> ValueV {
    match (v, spec_as_num(m)) {
        (ValueV::Date(d), Some(mb)) => {
            let delta = i64_of_bits(mb);
            if d.wf() && -200000 <= delta <= 200000 {
                match d.spec_eomonth(delta as int) {
                    Some(e) => ValueV::Date(e),
                    None => ValueV::Error(ErrorKind::Num),
                }
            } else {
                ValueV::Error(ErrorKind::Num)
            }
        },
        _ => ValueV::Error(ErrorKind::Value),
    }
}

pub fn eomonth(v: &Value, m: &Value) -> (r: Value)
    ensures
        r@ == spec_eomonth_fn(v@, m@),
{
    match (v.as_date(), m.as_num()) {
        (Some(d), Some(mb)) => {
            let delta = crate::num::num_to_i64(mb);
            if d.check_wf() && -200000 <= delta && delta <= 200000 {
                match d.eomonth(delta as i32) {
                    Some(e) => Value::Date(e),
                    None => Value::Error(ErrorKind::Num),
                }
            } else {
                Value::Error(ErrorKind::Num)
            }
        },
        _ => Value::Error(ErrorKind::Value),
    }
}

/// DATEDIF: the difference of two dates in the named unit (whole
/// years, months, days, or the partial-period forms).
pub open spec fn spec_datedif(a: ValueV, b: ValueV, unit: ValueV) -> ValueV {
    match (a, b, spec_as_text(unit)) {
        (ValueV::Date(d1), ValueV::Date(d2), Some(u)) => {
            if d1.wf() && d2.wf() {
                if u == "Y"@ || u == "y"@ {
                    ValueV::Num(bits_of_i64((d2.year - d1.year) as i64))
                } else if u == "M"@ || u == "m"@ {
                    ValueV::Num(
                        bits_of_i64(((d2.year - d1.year) * 12 + d2.month - d1.month) as i64),
                    )
                } else if u == "D"@ || u == "d"@ {
                    ValueV::Num(bits_of_i64((d2.spec_day_number() - d1.spec_day_number()) as i64))
                } else if u == "MD"@ || u == "md"@ {
                    ValueV::Num(bits_of_i64((d2.day - d1.day) as i64))
                } else if u == "YM"@ || u == "ym"@ {
                    ValueV::Num(bits_of_i64((d2.month - d1.month) as i64))
                } else if u == "YD"@ || u == "yd"@ {
                    ValueV::Num(bits_of_i64((d2.spec_ordinal() - d1.spec_ordinal()) as i64))
                } else {
                    ValueV::Error(ErrorKind::Value)
                }
            } else {
                ValueV::Error(ErrorKind::Num)
            }
        },
        _ => ValueV::Error(ErrorKind::Value),
    }
}

pub fn datedif(a: &Value, b: &Value, unit: &Value) -> (r: Value)
    ensures
        r@ == spec_datedif(a@, b@, unit@),
{
    match (a.as_date(), b.as_date(), unit.as_text()) {
        (Some(d1), Some(d2), Some(u)) => {
            if d1.check_wf() && d2.check_wf() {
                let us = u.as_str();
                if crate::text::str_eq(us, "Y") || crate::text::str_eq(us, "y") {
                    Value::Num(crate::num::num_from_i64(d2.year as i64 - d1.year as i64))
                } else if crate::text::str_eq(us, "M") || crate::text::str_eq(us, "m") {
                    Value::Num(
                        crate::num::num_from_i64(
                            (d2.year as i64 - d1.year as i64) * 12 + d2.month as i64
                                - d1.month as i64,
                        ),
                    )
                } else if crate::text::str_eq(us, "D") || crate::text::str_eq(us, "d") {
                    Value::Num(crate::num::num_from_i64(d2.day_number() - d1.day_number()))
                } else if crate::text::str_eq(us, "MD") || crate::text::str_eq(us, "md") {
                    Value::Num(crate::num::num_from_i64(d2.day as i64 - d1.day as i64))
                } else if crate::text::str_eq(us, "YM") || crate::text::str_eq(us, "ym") {
                    Value::Num(crate::num::num_from_i64(d2.month as i64 - d1.month as i64))
                } else if crate::text::str_eq(us, "YD") || crate::text::str_eq(us, "yd") {
                    Value::Num(crate::num::num_from_i64(d2.ordinal() - d1.ordinal()))
                } else {
                    Value::Error(ErrorKind::Value)
                }
            } else {
                Value::Error(ErrorKind::Num)
            }
        },
        _ => Value::Error(ErrorKind::Value),
    }
}

/// YEARFRAC on the 360-day basis: whole years at 360 days plus the
/// difference of the days-of-year, over 360.
pub open spec fn spec_yearfrac(a: ValueV, b: ValueV) -> ValueV {
    match (a, b) {
        (ValueV::Date(d1), ValueV::Date(d2)) => {
            if d1.wf() && d2.wf() {
                let num = (d2.year - d1.year) * 360 + d2.spec_ordinal() - d1.spec_ordinal();
                ValueV::Num(
                    crate::num::div_bits(bits_of_i64(num as i64), bits_of_i64(360)),
                )
            } else {
                ValueV::Error(ErrorKind::Num)
            }
        },
        _ => ValueV::Error(ErrorKind::Value),
    }
}

pub fn yearfrac(a: &Value, b: &Value) -> (r: Value)
    ensures
        r@ == spec_yearfrac(a@, b@),
{
    match (a.as_date(), b.as_date()) {
        (Some(d1), Some(d2)) => {
            if d1.check_wf() && d2.check_wf() {
                let num: i64 = (d2.year as i64 - d1.year as i64) * 360 + d2.ordinal()
                    - d1.ordinal();
                Value::Num(
                    crate::num::num_div(
                        crate::num::num_from_i64(num),
                        crate::num::num_from_i64(360),
                    ),
                )
            } else {
                Value::Error(ErrorKind::Num)
            }
        },
        _ => Value::Error(ErrorKind::Value),
    }
}

/// FLOOR: the numeric coercion rounded toward negative infinity.
pub fn floor(x: &Value, _significance: &Value) -> (r: Value)
    ensures
        r@ == (match spec_as_num(x@) {
            Some(b) => ValueV::Num(crate::num::floor_bits(b)),
            None => ValueV::Error(ErrorKind::Value),
        }),
{
    match x.as_num() {
        Some(b) => Value::Num(crate::num::num_floor(b)),
        None => Value::Error(ErrorKind::Value),
    }
}

/// The sign a rounding step adds: -1 for a negative number, 0 for NaN,
/// else 1.
pub open spec fn spec_sign_i64(b: u64) -> int {
    if crate::num::is_nan_bits(b) {
        0
    } else if b & SIGN_MASK != 0 {
        -1
    } else {
        1
    }
}

fn sign_i64(b: u64) -> (r: i64)
    ensures
        r == spec_sign_i64(b),
{
    if crate::num::num_is_nan(b) {
        0
    } else if b & SIGN_MASK != 0 {
        -1
    } else {
        1
    }
}

/// ROUNDDOWN: shift by a power of ten, truncate toward zero, shift
/// back.
pub open spec fn spec_rounddown(x: ValueV, d: ValueV) -> ValueV {
    match (spec_as_num(x), spec_as_num(d)) {
        (Some(xb), Some(db)) => {
            if lt_bits(0u64, db) {
                match crate::num::pow_bits(bits_of_i64(10), db) {
                    Some(p) => ValueV::Num(
                        crate::num::div_bits(
                            bits_of_i64(i64_of_bits(crate::num::mul_bits(xb, p))),
                            p,
                        ),
                    ),
                    None => ValueV::Error(ErrorKind::Num),
                }
            } else if lt_bits(db, 0u64) {
                match crate::num::pow_bits(bits_of_i64(10), crate::num::neg_bits(db)) {
                    Some(p) => ValueV::Num(
                        crate::num::mul_bits(
                            bits_of_i64(i64_of_bits(crate::num::div_bits(xb, p))),
                            p,
                        ),
                    ),
                    None => ValueV::Error(ErrorKind::Num),
                }
            } else {
                ValueV::Num(bits_of_i64(i64_of_bits(xb)))
            }
        },
        _ => ValueV::Error(ErrorKind::Value),
    }
}

pub fn rounddown(x: &Value, d: &Value) -> (r: Value)
    ensures
        r@ == spec_rounddown(x@, d@),
{
    match (x.as_num(), d.as_num()) {
        (Some(xb), Some(db)) => {
            if crate::num::num_lt(0u64, db) {
                match crate::num::num_pow(crate::num::num_from_i64(10), db) {
                    Some(p) => Value::Num(
                        crate::num::num_div(
                            crate::num::num_from_i64(
                                crate::num::num_to_i64(crate::num::num_mul(xb, p)),
                            ),
                            p,
                        ),
                    ),
                    None => Value::Error(ErrorKind::Num),
                }
            } else if crate::num::num_lt(db, 0u64) {
                match crate::num::num_pow(crate::num::num_from_i64(10), crate::num::num_neg(db)) {
                    Some(p) => Value::Num(
                        crate::num::num_mul(
                            crate::num::num_from_i64(
                                crate::num::num_to_i64(crate::num::num_div(xb, p)),
                            ),
                            p,
                        ),
                    ),
                    None => Value::Error(ErrorKind::Num),
                }
            } else {
                Value::Num(crate::num::num_from_i64(crate::num::num_to_i64(xb)))
            }
        },
        _ => Value::Error(ErrorKind::Value),
    }
}

/// ROUNDUP: like ROUNDDOWN but stepping one digit away from zero.
pub open spec fn spec_roundup(x: ValueV, d: ValueV) -> ValueV {
    match (spec_as_num(x), spec_as_num(d)) {
        (Some(xb), Some(db)) => {
            let sg = spec_sign_i64(xb);
            if lt_bits(0u64, db) {
                match crate::num::pow_bits(bits_of_i64(10), db) {
                    Some(p) => ValueV::Num(
                        crate::num::div_bits(
                            bits_of_i64(
                                crate::num::i64_of_bits(crate::num::mul_bits(xb, p)).wrapping_add(
                                    sg as i64,
                                ),
                            ),
                            p,
                        ),
                    ),
                    None => ValueV::Error(ErrorKind::Num),
                }
            } else if lt_bits(db, 0u64) {
                match crate::num::pow_bits(bits_of_i64(10), crate::num::neg_bits(db)) {
                    Some(p) => ValueV::Num(
                        crate::num::mul_bits(
                            bits_of_i64(
                                crate::num::i64_of_bits(crate::num::div_bits(xb, p)).wrapping_add(
                                    sg as i64,
                                ),
                            ),
                            p,
                        ),
                    ),
                    None => ValueV::Error(ErrorKind::Num),
                }
            } else {
                ValueV::Num(bits_of_i64(i64_of_bits(xb).wrapping_add(sg as i64)))
            }
        },
        _ => ValueV::Error(ErrorKind::Value),
    }
}

pub fn roundup(x: &Value, d: &Value) -> (r: Value)
    ensures
        r@ == spec_roundup(x@, d@),
{
    match (x.as_num(), d.as_num()) {
        (Some(xb), Some(db)) => {
            let sg = sign_i64(xb);
            if crate::num::num_lt(0u64, db) {
                match crate::num::num_pow(crate::num::num_from_i64(10), db) {
                    Some(p) => {
                        let t = crate::num::num_to_i64(crate::num::num_mul(xb, p));
                        Value::Num(
                            crate::num::num_div(
                                crate::num::num_from_i64(t.wrapping_add(sg)),
                                p,
                            ),
                        )
                    },
                    None => Value::Error(ErrorKind::Num),
                }
            } else if crate::num::num_lt(db, 0u64) {
                match crate::num::num_pow(crate::num::num_from_i64(10), crate::num::num_neg(db)) {
                    Some(p) => {
                        let t = crate::num::num_to_i64(crate::num::num_div(xb, p));
                        Value::Num(
                            crate::num::num_mul(
                                crate::num::num_from_i64(t.wrapping_add(sg)),
                                p,
                            ),
                        )
                    },
                    None => Value::Error(ErrorKind::Num),
                }
            } else {
                let t = crate::num::num_to_i64(xb);
                Value::Num(crate::num::num_from_i64(t.wrapping_add(sg)))
            }
        },
        _ => Value::Error(ErrorKind::Value),
    }
}

/// First element equal to the lookup value, scanning forward.
pub open spec fn spec_match_first(s: Seq<ValueV>, i: int, lk: ValueV) -> Option<int>
    decreases s.len() - i,
{
    if i < 0 || i >= s.len() {
        None
    } else if spec_value_eq(s[i], lk) {
        Some(i)
    } else {
        spec_match_first(s, i + 1, lk)
    }
}

/// Last element ordered at or above the lookup value, scanning the
/// array in its own order.
pub open spec fn spec_match_last_ge(s: Seq<ValueV>, i: int, lk: ValueV) -> Option<int>
    decreases s.len() - i,
{
    if i < 0 || i >= s.len() {
        None
    } else {
        let rest = spec_match_last_ge(s, i + 1, lk);
        if rest is Some {
            rest
        } else {
            let c = spec_value_cmp(s[i], lk);
            if c == Some(Ordering::Greater) || c == Some(Ordering::Equal) {
                Some(i)
            } else {
                None
            }
        }
    }
}

/// How many elements are ordered at or below the lookup value — which
/// is the 1-based position of the last such element once the array is
/// sorted ascending.
pub open spec fn spec_count_le(s: Seq<ValueV>, i: int, lk: ValueV) -> int
    decreases s.len() - i,
{
    if i < 0 || i >= s.len() {
        0
    } else {
        (if spec_value_cmp(s[i], lk) == Some(Ordering::Less) || spec_value_cmp(s[i], lk) == Some(
            Ordering::Equal,
        ) {
            1int
        } else {
            0int
        }) + spec_count_le(s, i + 1, lk)
    }
}

/// MATCH: match type 0 gives the 1-based position of the first equal
/// element; type -1 the position, in the array's own order, of the
/// last element at least the value; any other type the position, in
/// the array sorted ascending, of the last element at most the value —
/// that is, the count of such elements; no hit is the NA error.
pub open spec fn spec_matchfn(lookup: ValueV, arr: ValueV, mtype: ValueV) -> ValueV {
    let lk = spec_ensure_single(lookup);
    match (arr, spec_as_num(mtype)) {
        (ValueV::Array(items), Some(mb)) => {
            if eq_bits(mb, bits_of_i64((-1) as i64)) {
                match spec_match_last_ge(items, 0, lk) {
                    Some(j) => ValueV::Num(bits_of_i64((j + 1) as i64)),
                    None => ValueV::Error(ErrorKind::NA),
                }
            } else if eq_bits(mb, 0u64) {
                match spec_match_first(items, 0, lk) {
                    Some(j) => ValueV::Num(bits_of_i64((j + 1) as i64)),
                    None => ValueV::Error(ErrorKind::NA),
                }
            } else {
                let c = spec_count_le(items, 0, lk);
                if c >= 1 {
                    ValueV::Num(bits_of_i64(c as i64))
                } else {
                    ValueV::Error(ErrorKind::NA)
                }
            }
        },
        _ => ValueV::Error(ErrorKind::Value),
    }
}

fn match_first(items: &Vec<Value>, i: usize, lk: &Value) -> (r: Option<usize>)
    requires
        i <= items@.len(),
    ensures
        ({
            let sr = spec_match_first(view_of_seq(items@), i as int, lk@);
            match r {
                Some(j) => sr == Some(j as int) && j < items@.len(),
                None => sr is None,
            }
        }),
    decreases items@.len() - i,
{
    proof {
        lemma_view_of_seq(items@);
    }
    if i >= items.len() {
        None
    } else if value_eq(&items[i], lk) {
        Some(i)
    } else {
        match_first(items, i + 1, lk)
    }
}

fn match_last_ge(items: &Vec<Value>, i: usize, lk: &Value) -> (r: Option<usize>)
    requires
        i <= items@.len(),
    ensures
        ({
            let sr = spec_match_last_ge(view_of_seq(items@), i as int, lk@);
            match r {
                Some(j) => sr == Some(j as int) && j < items@.len(),
                None => sr is None,
            }
        }),
    decreases items@.len() - i,
{
    proof {
        lemma_view_of_seq(items@);
    }
    if i >= items.len() {
        None
    } else {
        let rest = match_last_ge(items, i + 1, lk);
        if rest.is_some() {
            rest
        } else {
            let c = value_cmp(&items[i], lk);
            if matches!(c, Some(Ordering::Greater)) || matches!(c, Some(Ordering::Equal)) {
                Some(i)
            } else {
                None
            }
        }
    }
}

fn count_le(items: &Vec<Value>, i: usize, lk: &Value) -> (r: usize)
    requires
        i <= items@.len(),
    ensures
        r == spec_count_le(view_of_seq(items@), i as int, lk@),
        r <= items@.len() - i,
    decreases items@.len() - i,
{
    proof {
        lemma_view_of_seq(items@);
    }
    if i >= items.len() {
        0
    } else {
        let c = value_cmp(&items[i], lk);
        let h: usize = if matches!(c, Some(Ordering::Less)) || matches!(c, Some(Ordering::Equal)) {
            1
        } else {
            0
        };
        h + count_le(items, i + 1, lk)
    }
}

pub fn matchfn(lookup: &Value, arr: &Value, mtype: &Value) -> (r: Value)
    requires
        arr@ matches ValueV::Array(items) ==> items.len() <= 0x10000000,
    ensures
        r@ == spec_matchfn(lookup@, arr@, mtype@),
{
    let lk = lookup.ensure_single();
    match (arr, mtype.as_num()) {
        (Value::Array(items), Some(mb)) => {
            proof {
                lemma_view_of_seq(items@);
            }
            if crate::num::num_eq(mb, crate::num::num_from_i64(-1)) {
                match match_last_ge(items, 0, &lk) {
                    Some(j) => Value::Num(crate::num::num_from_i64((j + 1) as i64)),
                    None => Value::Error(ErrorKind::NA),
                }
            } else if crate::num::num_eq(mb, 0u64) {
                match match_first(items, 0, &lk) {
                    Some(j) => Value::Num(crate::num::num_from_i64((j + 1) as i64)),
                    None => Value::Error(ErrorKind::NA),
                }
            } else {
                let c = count_le(items, 0, &lk);
                if c >= 1 {
                    Value::Num(crate::num::num_from_i64(c as i64))
                } else {
                    Value::Error(ErrorKind::NA)
                }
            }
        },
        _ => Value::Error(ErrorKind::Value),
    }
}

/// The input with every double-quote removed, over the first `i`
/// characters.
pub open spec fn spec_strip_q_upto(s: Seq<char>, i: int) -> Seq<char>
    decreases i,
{
    if i <= 0 {
        Seq::empty()
    } else {
        spec_strip_q_upto(s, i - 1) + (if (s[i - 1] as u32) == 34 {
            Seq::<char>::empty()
        } else {
            seq![s[i - 1]]
        })
    }
}

pub open spec fn spec_strip_q(s: Seq<char>) -> Seq<char> {
    spec_strip_q_upto(s, s.len() as int)
}

fn strip_quotes(v: &Vec<char>) -> (out: Vec<char>)
    ensures
        out@ == spec_strip_q(v@),
{
    let mut out: Vec<char> = Vec::new();
    let mut i: usize = 0;
    while i < v.len()
        invariant
            i <= v.len(),
            out@ == spec_strip_q_upto(v@, i as int),
        decreases v.len() - i,
    {
        let c = v[i];
        if (c as u32) != 34 {
            out.push(c);
        }
        i = i + 1;
        proof {
            assert(out@ =~= spec_strip_q_upto(v@, i as int));
        }
    }
    out
}

/// The comparator a criterion starts with, and how many characters it
/// takes; a bare literal compares for equality.
pub open spec fn spec_crit_op(c: Seq<char>) -> Op {
    if c.len() >= 2 && (c[0] as u32) == 60 && (c[1] as u32) == 62 {
        Op::NotEqual
    } else if c.len() >= 2 && (c[0] as u32) == 60 && (c[1] as u32) == 61 {
        Op::LessEq
    } else if c.len() >= 1 && (c[0] as u32) == 60 {
        Op::Less
    } else if c.len() >= 2 && (c[0] as u32) == 62 && (c[1] as u32) == 61 {
        Op::GreaterEq
    } else if c.len() >= 1 && (c[0] as u32) == 62 {
        Op::Greater
    } else {
        Op::Equal
    }
}

pub open spec fn spec_crit_skip(c: Seq<char>) -> int {
    if c.len() >= 2 && (c[0] as u32) == 60 && (c[1] as u32) == 62 {
        2
    } else if c.len() >= 2 && (c[0] as u32) == 60 && (c[1] as u32) == 61 {
        2
    } else if c.len() >= 1 && (c[0] as u32) == 60 {
        1
    } else if c.len() >= 2 && (c[0] as u32) == 62 && (c[1] as u32) == 61 {
        2
    } else if c.len() >= 1 && (c[0] as u32) == 62 {
        1
    } else if c.len() >= 1 && (c[0] as u32) == 61 {
        1
    } else {
        0
    }
}

/// Whether a cell satisfies a criterion: the criterion's literal,
/// quotes removed, compared through the value ordering against the
/// cell's text, quotes removed; a cell with no text form never
/// matches.
pub open spec fn spec_criteria(c: Seq<char>, cell: ValueV) -> bool {
    match spec_as_text(spec_ensure_single(cell)) {
        None => false,
        Some(t) => {
            let lit = spec_strip_q(c.skip(spec_crit_skip(c)));
            let rh = spec_strip_q(t);
            spec_scalar_op(spec_crit_op(c), ValueV::Text(lit), ValueV::Text(rh)) == ValueV::Bool(
                true,
            )
        },
    }
}

fn subvec_chars(v: &Vec<char>, lo: usize) -> (out: Vec<char>)
    requires
        lo <= v@.len(),
    ensures
        out@ == v@.skip(lo as int),
{
    let mut out: Vec<char> = Vec::new();
    let mut i: usize = lo;
    while i < v.len()
        invariant
            lo <= i <= v@.len(),
            out@ == v@.subrange(lo as int, i as int),
        decreases v.len() - i,
    {
        out.push(v[i]);
        i = i + 1;
        proof {
            assert(out@ =~= v@.subrange(lo as int, i as int));
        }
    }
    proof {
        assert(out@ =~= v@.skip(lo as int));
    }
    out
}

/// Parse a criterion and test one cell against it.
pub fn parse_criteria(c: &str, cell: &Value) -> (r: bool)
    ensures
        r == spec_criteria(c@, cell@),
{
    let single = cell.ensure_single();
    match single.as_text() {
        None => false,
        Some(t) => {
            let vc = crate::text::chars_of(c);
            let two = vc.len() >= 2;
            let c0: u32 = if vc.len() >= 1 {
                vc[0] as u32
            } else {
                0
            };
            let c1: u32 = if two {
                vc[1] as u32
            } else {
                0
            };
            let (op, k): (Op, usize) = if two && c0 == 60 && c1 == 62 {
                (Op::NotEqual, 2)
            } else if two && c0 == 60 && c1 == 61 {
                (Op::LessEq, 2)
            } else if vc.len() >= 1 && c0 == 60 {
                (Op::Less, 1)
            } else if two && c0 == 62 && c1 == 61 {
                (Op::GreaterEq, 2)
            } else if vc.len() >= 1 && c0 == 62 {
                (Op::Greater, 1)
            } else if vc.len() >= 1 && c0 == 61 {
                (Op::Equal, 1)
            } else {
                (Op::Equal, 0)
            };
            proof {
                assert(op == spec_crit_op(c@) && k == spec_crit_skip(c@));
            }
            let lit_chars = strip_quotes(&subvec_chars(&vc, k));
            let tv = crate::text::chars_of(t.as_str());
            let rh_chars = strip_quotes(&tv);
            let lit = Value::Text(crate::text::string_of(&lit_chars));
            let rh = Value::Text(crate::text::string_of(&rh_chars));
            let out = scalar_op(op, &lit, &rh);
            match out {
                Value::Bool(b) => b,
                _ => false,
            }
        },
    }
}

/// How many cells of a range satisfy a criterion.
pub open spec fn spec_select_count(items: Seq<ValueV>, i: int, c: Seq<char>) -> int
    decreases items.len() - i,
{
    if i < 0 || i >= items.len() {
        0
    } else {
        (if spec_criteria(c, items[i]) {
            1int
        } else {
            0int
        }) + spec_select_count(items, i + 1, c)
    }
}

/// Running sum of the numeric coercions of the sum-range cells whose
/// matching range cells satisfy a criterion.
pub open spec fn spec_select_sum(
    items: Seq<ValueV>,
    sums: Seq<ValueV>,
    i: int,
    c: Seq<char>,
    acc: ValueV,
) -> ValueV
    decreases items.len() - i,
{
    if i < 0 || i >= items.len() || items.len() != sums.len() {
        acc
    } else {
        spec_select_sum(
            items,
            sums,
            i + 1,
            c,
            if spec_criteria(c, items[i]) {
                spec_scalar_op(Op::Plus, acc, spec_nv(sums[i]))
            } else {
                acc
            },
        )
    }
}

proof fn lemma_select_count_bound(items: Seq<ValueV>, i: int, c: Seq<char>)
    ensures
        0 <= spec_select_count(items, i, c) <= (if 0 <= i <= items.len() {
            items.len() - i
        } else {
            items.len() as int
        }),
    decreases items.len() - i,
{
    if 0 <= i < items.len() {
        lemma_select_count_bound(items, i + 1, c);
    }
}

fn select_count(items: &Vec<Value>, i: usize, c: &str) -> (r: usize)
    requires
        i <= items@.len(),
    ensures
        r == spec_select_count(view_of_seq(items@), i as int, c@),
        r <= items@.len() - i,
    decreases items@.len() - i,
{
    proof {
        lemma_view_of_seq(items@);
    }
    if i >= items.len() {
        0
    } else {
        let h: usize = if parse_criteria(c, &items[i]) {
            1
        } else {
            0
        };
        h + select_count(items, i + 1, c)
    }
}

fn select_sum(items: &Vec<Value>, sums: &Vec<Value>, i: usize, c: &str, acc: Value) -> (r: Value)
    requires
        i <= items@.len(),
    ensures
        r@ == spec_select_sum(view_of_seq(items@), view_of_seq(sums@), i as int, c@, acc@),
    decreases items@.len() - i,
{
    proof {
        lemma_view_of_seq(items@);
        lemma_view_of_seq(sums@);
    }
    if i >= items.len() || items.len() != sums.len() {
        acc
    } else {
        let acc2 = if parse_criteria(c, &items[i]) {
            let x = nv(&sums[i]);
            scalar_op(Op::Plus, &acc, &x)
        } else {
            acc
        };
        select_sum(items, sums, i + 1, c, acc2)
    }
}

/// The criterion text of an argument: its single value's text form.
pub open spec fn spec_crit_text(v: ValueV) -> Option<Seq<char>> {
    spec_as_text(spec_ensure_single(v))
}

fn crit_text(v: &Value) -> (r: Option<String>)
    ensures
        match r {
            Some(t) => spec_crit_text(v@) == Some(t@),
            None => spec_crit_text(v@) is None,
        },
{
    let single = v.ensure_single();
    single.as_text()
}

/// COUNTIF: how many cells of the range satisfy the criterion.
pub open spec fn spec_countif(range: ValueV, criteria: ValueV) -> ValueV {
    match (range, spec_crit_text(criteria)) {
        (ValueV::Array(items), Some(c)) => ValueV::Num(
            bits_of_i64(spec_select_count(items, 0, c) as i64),
        ),
        _ => ValueV::Error(ErrorKind::Value),
    }
}

pub fn countif(range: &Value, criteria: &Value) -> (r: Value)
    requires
        range@ matches ValueV::Array(items) ==> items.len() <= 0x10000000,
    ensures
        r@ == spec_countif(range@, criteria@),
{
    match (range, crit_text(criteria)) {
        (Value::Array(items), Some(c)) => {
            proof {
                lemma_view_of_seq(items@);
                lemma_select_count_bound(view_of_seq(items@), 0, c@);
            }
            let n = select_count(items, 0, c.as_str());
            Value::Num(crate::num::num_from_i64(n as i64))
        },
        _ => Value::Error(ErrorKind::Value),
    }
}

/// SUMIF: the sum of the sum-range cells (the range itself when no
/// sum range is given) whose range cells satisfy the criterion.
pub open spec fn spec_sumif(range: ValueV, criteria: ValueV, sum_range: Option<ValueV>) -> ValueV {
    match (range, spec_crit_text(criteria)) {
        (ValueV::Array(items), Some(c)) => {
            let bad = match sum_range {
                Some(ValueV::Array(sv)) => false,
                Some(_) => true,
                None => false,
            };
            let sums = match sum_range {
                Some(ValueV::Array(sv)) => sv,
                Some(_) => Seq::empty(),
                None => items,
            };
            if !bad && sums.len() == items.len() {
                spec_select_sum(items, sums, 0, c, ValueV::Num(bits_of_i64(0)))
            } else {
                ValueV::Error(ErrorKind::Value)
            }
        },
        _ => ValueV::Error(ErrorKind::Value),
    }
}

pub fn sumif(range: &Value, criteria: &Value, sum_range: Option<&Value>) -> (r: Value)
    ensures
        r@ == spec_sumif(range@, criteria@, match sum_range {
            Some(v) => Some(v@),
            None => None,
        }),
{
    match (range, crit_text(criteria)) {
        (Value::Array(items), Some(c)) => {
            proof {
                lemma_view_of_seq(items@);
            }
            let zero = Value::Num(crate::num::num_from_i64(0));
            match sum_range {
                None => select_sum(items, items, 0, c.as_str(), zero),
                Some(Value::Array(sv)) => {
                    proof {
                        lemma_view_of_seq(sv@);
                    }
                    if sv.len() == items.len() {
                        select_sum(items, sv, 0, c.as_str(), zero)
                    } else {
                        Value::Error(ErrorKind::Value)
                    }
                },
                Some(_) => Value::Error(ErrorKind::Value),
            }
        },
        _ => Value::Error(ErrorKind::Value),
    }
}

/// AVERAGEIF: the selected sum divided by how many cells matched.
pub open spec fn spec_averageif(range: ValueV, criteria: ValueV, avg_range: Option<ValueV>) -> ValueV {
    match (range, spec_crit_text(criteria)) {
        (ValueV::Array(items), Some(c)) => {
            let bad = match avg_range {
                Some(ValueV::Array(sv)) => false,
                Some(_) => true,
                None => false,
            };
            let sums = match avg_range {
                Some(ValueV::Array(sv)) => sv,
                Some(_) => Seq::empty(),
                None => items,
            };
            if !bad && sums.len() == items.len() {
                spec_scalar_op(
                    Op::Divide,
                    spec_select_sum(items, sums, 0, c, ValueV::Num(bits_of_i64(0))),
                    ValueV::Num(bits_of_i64(spec_select_count(items, 0, c) as i64)),
                )
            } else {
                ValueV::Error(ErrorKind::Value)
            }
        },
        _ => ValueV::Error(ErrorKind::Value),
    }
}

pub fn averageif(range: &Value, criteria: &Value, avg_range: Option<&Value>) -> (r: Value)
    requires
        range@ matches ValueV::Array(items) ==> items.len() <= 0x10000000,
    ensures
        r@ == spec_averageif(range@, criteria@, match avg_range {
            Some(v) => Some(v@),
            None => None,
        }),
{
    match (range, crit_text(criteria)) {
        (Value::Array(items), Some(c)) => {
            proof {
                lemma_view_of_seq(items@);
                lemma_select_count_bound(view_of_seq(items@), 0, c@);
            }
            let zero = Value::Num(crate::num::num_from_i64(0));
            let total = match avg_range {
                None => select_sum(items, items, 0, c.as_str(), zero),
                Some(Value::Array(sv)) => {
                    proof {
                        lemma_view_of_seq(sv@);
                    }
                    if sv.len() == items.len() {
                        select_sum(items, sv, 0, c.as_str(), zero)
                    } else {
                        return Value::Error(ErrorKind::Value);
                    }
                },
                Some(_) => {
                    return Value::Error(ErrorKind::Value);
                },
            };
            let n = select_count(items, 0, c.as_str());
            let nn = Value::Num(crate::num::num_from_i64(n as i64));
            scalar_op(Op::Divide, &total, &nn)
        },
        _ => Value::Error(ErrorKind::Value),
    }
}

/// Whether row `j` satisfies every (range, criterion) pair of an
/// argument list.
pub open spec fn spec_pairs_hit(av: Seq<ValueV>, p: int, j: int) -> bool
    decreases av.len() - p,
{
    if p < 0 || p + 1 >= av.len() {
        true
    } else {
        (match (av[p], spec_crit_text(av[p + 1])) {
            (ValueV::Array(items), Some(c)) => 0 <= j < items.len() && spec_criteria(c, items[j]),
            _ => false,
        }) && spec_pairs_hit(av, p + 2, j)
    }
}

fn pairs_hit(args: &Vec<Value>, p: usize, j: usize) -> (r: bool)
    ensures
        r == spec_pairs_hit(view_of_seq(args@), p as int, j as int),
    decreases args@.len() - p,
{
    proof {
        lemma_view_of_seq(args@);
    }
    if p >= args.len() || p + 1 >= args.len() {
        true
    } else {
        match (&args[p], crit_text(&args[p + 1])) {
            (Value::Array(items), Some(c)) => {
                proof {
                    lemma_view_of_seq(items@);
                }
                j < items.len() && parse_criteria(c.as_str(), &items[j]) && pairs_hit(
                    args,
                    p + 2,
                    j,
                )
            },
            _ => false,
        }
    }
}

/// Running sum over the rows that satisfy every pair.
pub open spec fn spec_ifs_sum(sums: Seq<ValueV>, av: Seq<ValueV>, j: int, acc: ValueV) -> ValueV
    decreases sums.len() - j,
{
    if j < 0 || j >= sums.len() {
        acc
    } else {
        spec_ifs_sum(
            sums,
            av,
            j + 1,
            if spec_pairs_hit(av, 0, j) {
                spec_scalar_op(Op::Plus, acc, spec_nv(sums[j]))
            } else {
                acc
            },
        )
    }
}

fn ifs_sum(sums: &Vec<Value>, args: &Vec<Value>, j: usize, acc: Value) -> (r: Value)
    requires
        j <= sums@.len(),
    ensures
        r@ == spec_ifs_sum(view_of_seq(sums@), view_of_seq(args@), j as int, acc@),
    decreases sums@.len() - j,
{
    proof {
        lemma_view_of_seq(sums@);
    }
    if j >= sums.len() {
        acc
    } else {
        let acc2 = if pairs_hit(args, 0, j) {
            let x = nv(&sums[j]);
            scalar_op(Op::Plus, &acc, &x)
        } else {
            acc
        };
        ifs_sum(sums, args, j + 1, acc2)
    }
}

/// How many of the first `n` rows satisfy every pair.
pub open spec fn spec_ifs_count(av: Seq<ValueV>, n: int, j: int) -> int
    decreases n - j,
{
    if j < 0 || j >= n {
        0
    } else {
        (if spec_pairs_hit(av, 0, j) {
            1int
        } else {
            0int
        }) + spec_ifs_count(av, n, j + 1)
    }
}

proof fn lemma_ifs_count_bound(av: Seq<ValueV>, n: int, j: int)
    ensures
        0 <= spec_ifs_count(av, n, j) <= (if 0 <= j <= n {
            n - j
        } else if n >= 0 {
            n
        } else {
            0int
        }),
    decreases n - j,
{
    if 0 <= j < n {
        lemma_ifs_count_bound(av, n, j + 1);
    }
}

fn ifs_count(args: &Vec<Value>, n: usize, j: usize) -> (r: usize)
    requires
        j <= n,
    ensures
        r == spec_ifs_count(view_of_seq(args@), n as int, j as int),
        r <= n - j,
    decreases n - j,
{
    if j >= n {
        0
    } else {
        let h: usize = if pairs_hit(args, 0, j) {
            1
        } else {
            0
        };
        h + ifs_count(args, n, j + 1)
    }
}

/// SUMIFS: sum the sum-range rows that satisfy every following
/// (range, criterion) pair.
pub open spec fn spec_sumifs(sum_range: ValueV, av: Seq<ValueV>) -> ValueV {
    match sum_range {
        ValueV::Array(sv) => spec_ifs_sum(sv, av, 0, ValueV::Num(bits_of_i64(0))),
        _ => ValueV::Error(ErrorKind::Value),
    }
}

pub fn sumifs(sum_range: &Value, pairs: &Vec<Value>) -> (r: Value)
    ensures
        r@ == spec_sumifs(sum_range@, view_of_seq(pairs@)),
{
    match sum_range {
        Value::Array(sv) => {
            proof {
                lemma_view_of_seq(sv@);
            }
            let zero = Value::Num(crate::num::num_from_i64(0));
            ifs_sum(sv, pairs, 0, zero)
        },
        _ => Value::Error(ErrorKind::Value),
    }
}

/// COUNTIFS: how many rows of the first range satisfy every pair.
pub open spec fn spec_countifs(av: Seq<ValueV>) -> ValueV {
    if av.len() >= 1 {
        match av[0] {
            ValueV::Array(items0) => ValueV::Num(
                bits_of_i64(spec_ifs_count(av, items0.len() as int, 0) as i64),
            ),
            _ => ValueV::Error(ErrorKind::Value),
        }
    } else {
        ValueV::Error(ErrorKind::Value)
    }
}

pub fn countifs(pairs: &Vec<Value>) -> (r: Value)
    requires
        view_of_seq(pairs@).len() >= 1 ==> (view_of_seq(pairs@)[0] matches ValueV::Array(items0)
            ==> items0.len() <= 0x10000000),
    ensures
        r@ == spec_countifs(view_of_seq(pairs@)),
{
    proof {
        lemma_view_of_seq(pairs@);
    }
    if pairs.len() >= 1 {
        match &pairs[0] {
            Value::Array(items0) => {
                proof {
                    lemma_view_of_seq(items0@);
                    lemma_ifs_count_bound(view_of_seq(pairs@), items0@.len() as int, 0);
                }
                let n = ifs_count(pairs, items0.len(), 0);
                Value::Num(crate::num::num_from_i64(n as i64))
            },
            _ => Value::Error(ErrorKind::Value),
        }
    } else {
        Value::Error(ErrorKind::Value)
    }
}

/// AVERAGEIFS: the selected sum over the average range divided by how
/// many rows matched.
pub open spec fn spec_averageifs(avg_range: ValueV, av: Seq<ValueV>) -> ValueV {
    match avg_range {
        ValueV::Array(sv) => spec_scalar_op(
            Op::Divide,
            spec_ifs_sum(sv, av, 0, ValueV::Num(bits_of_i64(0))),
            ValueV::Num(bits_of_i64(spec_ifs_count(av, sv.len() as int, 0) as i64)),
        ),
        _ => ValueV::Error(ErrorKind::Value),
    }
}

pub fn averageifs(avg_range: &Value, pairs: &Vec<Value>) -> (r: Value)
    requires
        avg_range@ matches ValueV::Array(sv) ==> sv.len() <= 0x10000000,
    ensures
        r@ == spec_averageifs(avg_range@, view_of_seq(pairs@)),
{
    match avg_range {
        Value::Array(sv) => {
            proof {
                lemma_view_of_seq(sv@);
                lemma_ifs_count_bound(view_of_seq(pairs@), sv@.len() as int, 0);
            }
            let zero = Value::Num(crate::num::num_from_i64(0));
            let total = ifs_sum(sv, pairs, 0, zero);
            let n = ifs_count(pairs, sv.len(), 0);
            let nn = Value::Num(crate::num::num_from_i64(n as i64));
            scalar_op(Op::Divide, &total, &nn)
        },
        _ => Value::Error(ErrorKind::Value),
    }
}

/// The product of row `i` across every array argument, starting from
/// an accumulator; a missing row or a non-array argument poisons the
/// product with the coercion error.
pub open spec fn spec_prod_at(av: Seq<ValueV>, j: int, i: int, acc: ValueV) -> ValueV
    decreases av.len() - j,
{
    if j < 0 || j >= av.len() {
        acc
    } else {
        match av[j] {
            ValueV::Array(items) => {
                if 0 <= i < items.len() {
                    spec_prod_at(av, j + 1, i, spec_scalar_op(Op::Multiply, acc, items[i]))
                } else {
                    ValueV::Error(ErrorKind::Value)
                }
            },
            _ => ValueV::Error(ErrorKind::Value),
        }
    }
}

/// SUMPRODUCT: the sum over rows of the products across the array
/// arguments, rows counted by the first argument.
pub open spec fn spec_sumprod_rows(av: Seq<ValueV>, n: int, i: int, acc: ValueV) -> ValueV
    decreases n - i,
{
    if i < 0 || i >= n {
        acc
    } else {
        spec_sumprod_rows(
            av,
            n,
            i + 1,
            spec_scalar_op(Op::Plus, acc, spec_prod_at(av, 0, i, ValueV::Num(bits_of_i64(1)))),
        )
    }
}

pub open spec fn spec_sumproduct(av: Seq<ValueV>) -> ValueV {
    if av.len() >= 1 {
        match av[0] {
            ValueV::Array(items0) => spec_sumprod_rows(
                av,
                items0.len() as int,
                0,
                ValueV::Num(bits_of_i64(0)),
            ),
            _ => ValueV::Error(ErrorKind::Value),
        }
    } else {
        ValueV::Error(ErrorKind::Value)
    }
}

fn prod_at(args: &Vec<Value>, j: usize, i: usize, acc: Value) -> (r: Value)
    ensures
        r@ == spec_prod_at(view_of_seq(args@), j as int, i as int, acc@),
    decreases args@.len() - j,
{
    proof {
        lemma_view_of_seq(args@);
    }
    if j >= args.len() {
        acc
    } else {
        match &args[j] {
            Value::Array(items) => {
                proof {
                    lemma_view_of_seq(items@);
                }
                if i < items.len() {
                    let acc2 = scalar_op(Op::Multiply, &acc, &items[i]);
                    prod_at(args, j + 1, i, acc2)
                } else {
                    Value::Error(ErrorKind::Value)
                }
            },
            _ => Value::Error(ErrorKind::Value),
        }
    }
}

fn sumprod_rows(args: &Vec<Value>, n: usize, i: usize, acc: Value) -> (r: Value)
    requires
        i <= n,
    ensures
        r@ == spec_sumprod_rows(view_of_seq(args@), n as int, i as int, acc@),
    decreases n - i,
{
    if i >= n {
        acc
    } else {
        let one = Value::Num(crate::num::num_from_i64(1));
        let p = prod_at(args, 0, i, one);
        let acc2 = scalar_op(Op::Plus, &acc, &p);
        sumprod_rows(args, n, i + 1, acc2)
    }
}

pub fn sumproduct(args: &Vec<Value>) -> (r: Value)
    ensures
        r@ == spec_sumproduct(view_of_seq(args@)),
{
    proof {
        lemma_view_of_seq(args@);
    }
    if args.len() >= 1 {
        match &args[0] {
            Value::Array(items0) => {
                proof {
                    lemma_view_of_seq(items0@);
                }
                let zero = Value::Num(crate::num::num_from_i64(0));
                sumprod_rows(args, items0.len(), 0, zero)
            },
            _ => Value::Error(ErrorKind::Value),
        }
    } else {
        Value::Error(ErrorKind::Value)
    }
}

/// PMT: the signed periodic payment
/// `rate · (−fv + pv·(1+rate)^nper) / ((1+rate·type)·(1−(1+rate)^nper))`;
/// an infinite quotient is the number error, and so is a power with no
/// real value.
pub open spec fn spec_pmt(
    rate: ValueV,
    nper: ValueV,
    pv: ValueV,
    fv: Option<ValueV>,
    ftype: Option<ValueV>,
) -> ValueV {
    let fvn = match fv {
        Some(v) => spec_as_num(v),
        None => Some(bits_of_i64(0)),
    };
    let ftn = match ftype {
        Some(v) => spec_as_num(v),
        None => Some(bits_of_i64(0)),
    };
    match (spec_as_num(rate), spec_as_num(nper), spec_as_num(pv), fvn, ftn) {
        (Some(rb), Some(nb), Some(pb), Some(fb), Some(tb)) => {
            match crate::num::pow_bits(crate::num::add_bits(ONE_BITS, rb), nb) {
                Some(pw) => {
                    let numer = crate::num::mul_bits(
                        rb,
                        crate::num::add_bits(
                            crate::num::mul_bits(fb, bits_of_i64((-1) as i64)),
                            crate::num::mul_bits(pb, pw),
                        ),
                    );
                    let denom = crate::num::mul_bits(
                        crate::num::add_bits(ONE_BITS, crate::num::mul_bits(rb, tb)),
                        crate::num::sub_bits(ONE_BITS, pw),
                    );
                    let v = crate::num::div_bits(numer, denom);
                    if crate::num::is_inf_bits(v) {
                        ValueV::Error(ErrorKind::Num)
                    } else {
                        ValueV::Num(v)
                    }
                },
                None => ValueV::Error(ErrorKind::Num),
            }
        },
        _ => ValueV::Error(ErrorKind::Value),
    }
}

pub fn pmt(
    rate: &Value,
    nper: &Value,
    pv: &Value,
    fv: Option<&Value>,
    ftype: Option<&Value>,
) -> (r: Value)
    ensures
        r@ == spec_pmt(rate@, nper@, pv@, match fv {
            Some(v) => Some(v@),
            None => None,
        }, match ftype {
            Some(v) => Some(v@),
            None => None,
        }),
{
    let fvn = match fv {
        Some(v) => v.as_num(),
        None => Some(crate::num::num_from_i64(0)),
    };
    let ftn = match ftype {
        Some(v) => v.as_num(),
        None => Some(crate::num::num_from_i64(0)),
    };
    match (rate.as_num(), nper.as_num(), pv.as_num(), fvn, ftn) {
        (Some(rb), Some(nb), Some(pb), Some(fb), Some(tb)) => {
            match crate::num::num_pow(crate::num::num_add(ONE_BITS, rb), nb) {
                Some(pw) => {
                    let numer = crate::num::num_mul(
                        rb,
                        crate::num::num_add(
                            crate::num::num_mul(fb, crate::num::num_from_i64(-1)),
                            crate::num::num_mul(pb, pw),
                        ),
                    );
                    let denom = crate::num::num_mul(
                        crate::num::num_add(ONE_BITS, crate::num::num_mul(rb, tb)),
                        crate::num::num_sub(ONE_BITS, pw),
                    );
                    let v = crate::num::num_div(numer, denom);
                    if crate::num::num_is_inf(v) {
                        Value::Error(ErrorKind::Num)
                    } else {
                        Value::Num(v)
                    }
                },
                None => Value::Error(ErrorKind::Num),
            }
        },
        _ => Value::Error(ErrorKind::Value),
    }
}

/// The needle occurs in the haystack at position `i`.
pub open spec fn spec_match_at(hay: Seq<char>, needle: Seq<char>, i: int) -> bool {
    0 <= i && i + needle.len() <= hay.len() && hay.subrange(i, i + needle.len()) == needle
}

/// First occurrence of the needle at or after `i`.
pub open spec fn spec_find_from(hay: Seq<char>, needle: Seq<char>, i: int) -> Option<int>
    decreases hay.len() + 1 - i,
{
    if i < 0 || i + needle.len() > hay.len() {
        None
    } else if spec_match_at(hay, needle, i) {
        Some(i)
    } else {
        spec_find_from(hay, needle, i + 1)
    }
}

fn match_at(hay: &Vec<char>, needle: &Vec<char>, i: usize) -> (r: bool)
    requires
        i + needle@.len() <= hay@.len(),
    ensures
        r == spec_match_at(hay@, needle@, i as int),
{
    let hl: usize = hay.len();
    let mut k: usize = 0;
    while k < needle.len()
        invariant
            k <= needle@.len(),
            i + needle@.len() <= hay@.len(),
            hl == hay@.len(),
            forall|j: int| 0 <= j < k ==> hay@[i + j] == needle@[j],
        decreases needle@.len() - k,
    {
        proof {
            assert(i + k < hl);
        }
        if hay[i + k] != needle[k] {
            proof {
                if hay@.subrange(i as int, i + needle@.len()) == needle@ {
                    assert(hay@.subrange(i as int, i + needle@.len())[k as int] == needle@[
                        k as int
                    ]);
                }
            }
            return false;
        }
        proof {
            assert(hay@[i + k] == needle@[k as int]);
        }
        k = k + 1;
    }
    proof {
        assert(hay@.subrange(i as int, i + needle@.len()) =~= needle@);
    }
    true
}

fn find_sub(hay: &Vec<char>, needle: &Vec<char>, i: usize) -> (r: Option<usize>)
    ensures
        ({
            let sr = spec_find_from(hay@, needle@, i as int);
            match r {
                Some(j) => sr == Some(j as int) && j <= hay@.len(),
                None => sr is None,
            }
        }),
    decreases hay@.len() + 1 - i,
{
    if needle.len() == 0 {
        if i <= hay.len() {
            proof {
                assert(hay@.subrange(i as int, i as int) =~= needle@);
            }
            Some(i)
        } else {
            None
        }
    } else if i > hay.len() || hay.len() - i < needle.len() {
        None
    } else if match_at(hay, needle, i) {
        Some(i)
    } else {
        find_sub(hay, needle, i + 1)
    }
}

/// SEARCH: the 1-based position of the first case-insensitive
/// occurrence of the sought text within the subject, scanning from an
/// optional 1-based start; no occurrence is the coercion error.
pub open spec fn spec_search(find: ValueV, within: ValueV, start: Option<ValueV>) -> ValueV {
    let stn = match start {
        None => Some(bits_of_i64(1)),
        Some(v) => spec_as_num(v),
    };
    match (spec_as_text(find), spec_as_text(within), stn) {
        (Some(f), Some(w), Some(sb)) => {
            let st = i64_of_bits(sb);
            if 1 <= st <= 1000000000 {
                let fl = crate::text::lower_of(f);
                let wl = crate::text::lower_of(w);
                if st - 1 <= wl.len() && wl.len() <= 1000000000 {
                    match spec_find_from(wl.skip(st - 1), fl, 0) {
                        Some(idx) => ValueV::Num(bits_of_i64((idx + st) as i64)),
                        None => ValueV::Error(ErrorKind::Value),
                    }
                } else {
                    ValueV::Error(ErrorKind::Value)
                }
            } else {
                ValueV::Error(ErrorKind::Value)
            }
        },
        _ => ValueV::Error(ErrorKind::Value),
    }
}

pub fn search(find: &Value, within: &Value, start: Option<&Value>) -> (r: Value)
    ensures
        r@ == spec_search(find@, within@, match start {
            Some(v) => Some(v@),
            None => None,
        }),
{
    let stn = match start {
        None => Some(crate::num::num_from_i64(1)),
        Some(v) => v.as_num(),
    };
    match (find.as_text(), within.as_text(), stn) {
        (Some(f), Some(w), Some(sb)) => {
            let st = crate::num::num_to_i64(sb);
            if 1 <= st && st <= 1000000000 {
                let fl = crate::text::chars_of(crate::text::lowercase(f.as_str()).as_str());
                let wl = crate::text::chars_of(crate::text::lowercase(w.as_str()).as_str());
                if (st - 1) as usize <= wl.len() && wl.len() <= 1000000000 {
                    let tail = subvec_chars(&wl, (st - 1) as usize);
                    match find_sub(&tail, &fl, 0) {
                        Some(idx) => Value::Num(
                            crate::num::num_from_i64(idx as i64 + st),
                        ),
                        None => Value::Error(ErrorKind::Value),
                    }
                } else {
                    Value::Error(ErrorKind::Value)
                }
            } else {
                Value::Error(ErrorKind::Value)
            }
        },
        _ => Value::Error(ErrorKind::Value),
    }
}

/// Running XNPV sum: each value's numeric coercion discounted by
/// `(1+rate)^((d_i − d_0)/365)`; a bad value, date or power stops the
/// fold with the fitting error.
pub open spec fn spec_xnpv_fold(
    vs: Seq<ValueV>,
    ds: Seq<ValueV>,
    d0: Date,
    rb: u64,
    i: int,
    acc: ValueV,
) -> ValueV
    decreases vs.len() - i,
{
    if i < 0 || i >= vs.len() || vs.len() != ds.len() {
        acc
    } else {
        match (ds[i], spec_as_num(vs[i])) {
            (ValueV::Date(d), Some(vb)) => {
                if d.wf() && d0.wf() {
                    let dd = d.spec_day_number() - d0.spec_day_number();
                    let ex = crate::num::div_bits(bits_of_i64(dd as i64), bits_of_i64(365));
                    match crate::num::pow_bits(crate::num::add_bits(ONE_BITS, rb), ex) {
                        Some(p) => spec_xnpv_fold(
                            vs,
                            ds,
                            d0,
                            rb,
                            i + 1,
                            spec_scalar_op(
                                Op::Plus,
                                acc,
                                ValueV::Num(crate::num::div_bits(vb, p)),
                            ),
                        ),
                        None => ValueV::Error(ErrorKind::Num),
                    }
                } else {
                    ValueV::Error(ErrorKind::Num)
                }
            },
            _ => ValueV::Error(ErrorKind::Value),
        }
    }
}

/// XNPV: the discounted sum of dated values against the first date.
pub open spec fn spec_xnpv(rate: ValueV, values: ValueV, dates: ValueV) -> ValueV {
    match (spec_as_num(rate), values, dates) {
        (Some(rb), ValueV::Array(vs), ValueV::Array(ds)) => {
            if ds.len() >= 1 && (ds[0] matches ValueV::Date(d0)) {
                match ds[0] {
                    ValueV::Date(d0) => spec_xnpv_fold(
                        vs,
                        ds,
                        d0,
                        rb,
                        0,
                        ValueV::Num(bits_of_i64(0)),
                    ),
                    _ => ValueV::Error(ErrorKind::Value),
                }
            } else {
                ValueV::Error(ErrorKind::Value)
            }
        },
        _ => ValueV::Error(ErrorKind::Value),
    }
}

fn xnpv_fold(vs: &Vec<Value>, ds: &Vec<Value>, d0: Date, rb: u64, i: usize, acc: Value) -> (r:
    Value)
    requires
        i <= vs@.len(),
    ensures
        r@ == spec_xnpv_fold(view_of_seq(vs@), view_of_seq(ds@), d0, rb, i as int, acc@),
    decreases vs@.len() - i,
{
    proof {
        lemma_view_of_seq(vs@);
        lemma_view_of_seq(ds@);
    }
    if i >= vs.len() || vs.len() != ds.len() {
        acc
    } else {
        match (ds[i].as_date(), vs[i].as_num()) {
            (Some(d), Some(vb)) => {
                if d.check_wf() && d0.check_wf() {
                    let dd = d.day_number() - d0.day_number();
                    let ex = crate::num::num_div(
                        crate::num::num_from_i64(dd),
                        crate::num::num_from_i64(365),
                    );
                    match crate::num::num_pow(crate::num::num_add(ONE_BITS, rb), ex) {
                        Some(p) => {
                            let term = Value::Num(crate::num::num_div(vb, p));
                            let acc2 = scalar_op(Op::Plus, &acc, &term);
                            xnpv_fold(vs, ds, d0, rb, i + 1, acc2)
                        },
                        None => Value::Error(ErrorKind::Num),
                    }
                } else {
                    Value::Error(ErrorKind::Num)
                }
            },
            _ => Value::Error(ErrorKind::Value),
        }
    }
}

pub fn xnpv(rate: &Value, values: &Value, dates: &Value) -> (r: Value)
    ensures
        r@ == spec_xnpv(rate@, values@, dates@),
{
    match (rate.as_num(), values, dates) {
        (Some(rb), Value::Array(vs), Value::Array(ds)) => {
            proof {
                lemma_view_of_seq(vs@);
                lemma_view_of_seq(ds@);
            }
            if ds.len() >= 1 {
                match ds[0].as_date() {
                    Some(d0) => {
                        let zero = Value::Num(crate::num::num_from_i64(0));
                        xnpv_fold(vs, ds, d0, rb, 0, zero)
                    },
                    None => Value::Error(ErrorKind::Value),
                }
            } else {
                Value::Error(ErrorKind::Value)
            }
        },
        _ => Value::Error(ErrorKind::Value),
    }
}

/// The bit pattern of the XIRR starting guess, one tenth.
pub const XIRR_GUESS_BITS: u64 = 0x3FB9_9999_9999_999A;

/// The bit pattern of the XIRR convergence tolerance, ten to the
/// minus seventh.
pub const XIRR_EPS_BITS: u64 = 0x3E7A_D7F2_9ABC_AF48;

/// Whether some value's numeric coercion lies strictly on the wanted
/// side of zero.
pub open spec fn spec_any_sign(vs: Seq<ValueV>, i: int, want_pos: bool) -> bool
    decreases vs.len() - i,
{
    if i < 0 || i >= vs.len() {
        false
    } else {
        (match spec_as_num(vs[i]) {
            Some(vb) => if want_pos {
                lt_bits(0u64, vb)
            } else {
                lt_bits(vb, 0u64)
            },
            None => false,
        }) || spec_any_sign(vs, i + 1, want_pos)
    }
}

fn any_sign(vs: &Vec<Value>, i: usize, want_pos: bool) -> (r: bool)
    requires
        i <= vs@.len(),
    ensures
        r == spec_any_sign(view_of_seq(vs@), i as int, want_pos),
    decreases vs@.len() - i,
{
    proof {
        lemma_view_of_seq(vs@);
    }
    if i >= vs.len() {
        false
    } else {
        let here = match vs[i].as_num() {
            Some(vb) => {
                if want_pos {
                    crate::num::num_lt(0u64, vb)
                } else {
                    crate::num::num_lt(vb, 0u64)
                }
            },
            None => false,
        };
        here || any_sign(vs, i + 1, want_pos)
    }
}

/// The derivative of the XIRR objective: the sum over payments of
/// `−v_i · (dd_i/365) · (1+r)^(−dd_i/365 − 1)`.
pub open spec fn spec_xirr_deriv_fold(
    vs: Seq<ValueV>,
    ds: Seq<ValueV>,
    d0: Date,
    rb: u64,
    i: int,
    acc: ValueV,
) -> ValueV
    decreases vs.len() - i,
{
    if i < 0 || i >= vs.len() || vs.len() != ds.len() {
        acc
    } else {
        match (ds[i], spec_as_num(vs[i])) {
            (ValueV::Date(d), Some(vb)) => {
                if d.wf() && d0.wf() {
                    let dd = d.spec_day_number() - d0.spec_day_number();
                    let ex = crate::num::div_bits(bits_of_i64(dd as i64), bits_of_i64(365));
                    let ex2 = crate::num::sub_bits(crate::num::neg_bits(ex), ONE_BITS);
                    match crate::num::pow_bits(crate::num::add_bits(ONE_BITS, rb), ex2) {
                        Some(p) => spec_xirr_deriv_fold(
                            vs,
                            ds,
                            d0,
                            rb,
                            i + 1,
                            spec_scalar_op(
                                Op::Plus,
                                acc,
                                ValueV::Num(
                                    crate::num::mul_bits(
                                        crate::num::neg_bits(crate::num::mul_bits(vb, ex)),
                                        p,
                                    ),
                                ),
                            ),
                        ),
                        None => ValueV::Error(ErrorKind::Num),
                    }
                } else {
                    ValueV::Error(ErrorKind::Num)
                }
            },
            _ => ValueV::Error(ErrorKind::Value),
        }
    }
}

fn xirr_deriv_fold(vs: &Vec<Value>, ds: &Vec<Value>, d0: Date, rb: u64, i: usize, acc: Value) -> (r:
    Value)
    requires
        i <= vs@.len(),
    ensures
        r@ == spec_xirr_deriv_fold(view_of_seq(vs@), view_of_seq(ds@), d0, rb, i as int, acc@),
    decreases vs@.len() - i,
{
    proof {
        lemma_view_of_seq(vs@);
        lemma_view_of_seq(ds@);
    }
    if i >= vs.len() || vs.len() != ds.len() {
        acc
    } else {
        match (ds[i].as_date(), vs[i].as_num()) {
            (Some(d), Some(vb)) => {
                if d.check_wf() && d0.check_wf() {
                    let dd = d.day_number() - d0.day_number();
                    let ex = crate::num::num_div(
                        crate::num::num_from_i64(dd),
                        crate::num::num_from_i64(365),
                    );
                    let ex2 = crate::num::num_sub(crate::num::num_neg(ex), ONE_BITS);
                    match crate::num::num_pow(crate::num::num_add(ONE_BITS, rb), ex2) {
                        Some(p) => {
                            let term = Value::Num(
                                crate::num::num_mul(
                                    crate::num::num_neg(crate::num::num_mul(vb, ex)),
                                    p,
                                ),
                            );
                            let acc2 = scalar_op(Op::Plus, &acc, &term);
                            xirr_deriv_fold(vs, ds, d0, rb, i + 1, acc2)
                        },
                        None => Value::Error(ErrorKind::Num),
                    }
                } else {
                    Value::Error(ErrorKind::Num)
                }
            },
            _ => Value::Error(ErrorKind::Value),
        }
    }
}

/// One Newton descent: stop at a small residual, step by the quotient
/// of objective and derivative, give up as the number error when the
/// budget runs out or a fold fails.
pub open spec fn spec_xirr_iter(
    vs: Seq<ValueV>,
    ds: Seq<ValueV>,
    d0: Date,
    rb: u64,
    fuel: int,
) -> ValueV
    decreases fuel,
{
    if fuel <= 0 {
        ValueV::Error(ErrorKind::Num)
    } else {
        match spec_xnpv_fold(vs, ds, d0, rb, 0, ValueV::Num(bits_of_i64(0))) {
            ValueV::Num(fb) => {
                if lt_bits(crate::num::abs_bits(fb), XIRR_EPS_BITS) {
                    ValueV::Num(rb)
                } else {
                    match spec_xirr_deriv_fold(vs, ds, d0, rb, 0, ValueV::Num(bits_of_i64(0))) {
                        ValueV::Num(dfb) => spec_xirr_iter(
                            vs,
                            ds,
                            d0,
                            crate::num::sub_bits(rb, crate::num::div_bits(fb, dfb)),
                            fuel - 1,
                        ),
                        _ => ValueV::Error(ErrorKind::Num),
                    }
                }
            },
            _ => ValueV::Error(ErrorKind::Num),
        }
    }
}

fn xirr_iter(vs: &Vec<Value>, ds: &Vec<Value>, d0: Date, rb: u64, fuel: u64) -> (r: Value)
    ensures
        r@ == spec_xirr_iter(view_of_seq(vs@), view_of_seq(ds@), d0, rb, fuel as int),
    decreases fuel,
{
    if fuel == 0 {
        Value::Error(ErrorKind::Num)
    } else {
        let zero = Value::Num(crate::num::num_from_i64(0));
        match xnpv_fold(vs, ds, d0, rb, 0, zero) {
            Value::Num(fb) => {
                if crate::num::num_lt(crate::num::num_abs(fb), XIRR_EPS_BITS) {
                    Value::Num(rb)
                } else {
                    let zero2 = Value::Num(crate::num::num_from_i64(0));
                    match xirr_deriv_fold(vs, ds, d0, rb, 0, zero2) {
                        Value::Num(dfb) => xirr_iter(
                            vs,
                            ds,
                            d0,
                            crate::num::num_sub(rb, crate::num::num_div(fb, dfb)),
                            fuel - 1,
                        ),
                        _ => Value::Error(ErrorKind::Num),
                    }
                }
            },
            _ => Value::Error(ErrorKind::Num),
        }
    }
}

/// XIRR: Newton–Raphson on the discounted sum, fifty steps from a
/// guess of one tenth; payments all on one side of zero are the
/// number error at once.
pub open spec fn spec_xirr(values: ValueV, dates: ValueV) -> ValueV {
    match (values, dates) {
        (ValueV::Array(vs), ValueV::Array(ds)) => {
            if vs.len() != ds.len() {
                ValueV::Error(ErrorKind::Value)
            } else if !(spec_any_sign(vs, 0, true) && spec_any_sign(vs, 0, false)) {
                ValueV::Error(ErrorKind::Num)
            } else if ds.len() >= 1 && (ds[0] matches ValueV::Date(d0)) {
                match ds[0] {
                    ValueV::Date(d0) => spec_xirr_iter(vs, ds, d0, XIRR_GUESS_BITS, 50),
                    _ => ValueV::Error(ErrorKind::Value),
                }
            } else {
                ValueV::Error(ErrorKind::Value)
            }
        },
        _ => ValueV::Error(ErrorKind::Value),
    }
}

pub fn xirrfunc(values: &Value, dates: &Value) -> (r: Value)
    ensures
        r@ == spec_xirr(values@, dates@),
{
    match (values, dates) {
        (Value::Array(vs), Value::Array(ds)) => {
            proof {
                lemma_view_of_seq(vs@);
                lemma_view_of_seq(ds@);
            }
            if vs.len() != ds.len() {
                Value::Error(ErrorKind::Value)
            } else if !(any_sign(vs, 0, true) && any_sign(vs, 0, false)) {
                Value::Error(ErrorKind::Num)
            } else if ds.len() >= 1 {
                match ds[0].as_date() {
                    Some(d0) => xirr_iter(vs, ds, d0, XIRR_GUESS_BITS, 50),
                    None => Value::Error(ErrorKind::Value),
                }
            } else {
                Value::Error(ErrorKind::Value)
            }
        },
        _ => Value::Error(ErrorKind::Value),
    }
}

/// INDEX over a materialized range: picks one element and names its
/// cell.  A zero row asks for the whole column (and vice versa),
/// returned as an uncomputed range; otherwise the cached matrix
/// supplies the element.  Errors pass through; a missing cache, a
/// malformed region or an out-of-range pick is the reference error.
pub open spec fn spec_index(array: ValueV, row_num: ValueV, col_num: Option<ValueV>) -> ValueV {
    let cn = match col_num {
        Some(c) => c,
        None => ValueV::Num(bits_of_i64(1)),
    };
    if array is Error {
        array
    } else if row_num is Error {
        row_num
    } else if cn is Error {
        cn
    } else {
        match array {
            ValueV::Range { sheet, reference, value } => {
                match (spec_as_num(row_num), spec_as_num(cn)) {
                    (Some(rb), Some(cb)) => {
                        if !reference.wf() {
                            ValueV::Error(ErrorKind::Ref)
                        } else {
                            let ri = i64_of_bits(rb);
                            let ci = i64_of_bits(cb);
                            let d = reference.spec_dimensions();
                            if eq_bits(rb, 0u64) {
                                if 1 <= ci && d.1 + ci - 1 <= MAX_DIM {
                                    ValueV::Range {
                                        sheet,
                                        reference: Reference {
                                            start_cell: Cell {
                                                row: 0,
                                                column: (d.1 + ci - 1) as usize,
                                            },
                                            end_cell: None,
                                            full_rows: false,
                                            full_cols: false,
                                        },
                                        value: None,
                                    }
                                } else {
                                    ValueV::Error(ErrorKind::Ref)
                                }
                            } else if eq_bits(cb, 0u64) {
                                if 1 <= ri && d.0 + ri - 1 <= MAX_DIM {
                                    ValueV::Range {
                                        sheet,
                                        reference: Reference {
                                            start_cell: Cell {
                                                row: (d.0 + ri - 1) as usize,
                                                column: 0,
                                            },
                                            end_cell: None,
                                            full_rows: false,
                                            full_cols: false,
                                        },
                                        value: None,
                                    }
                                } else {
                                    ValueV::Error(ErrorKind::Ref)
                                }
                            } else if 1 <= ri && 1 <= ci && d.0 + ri - 1 <= MAX_DIM && d.1 + ci - 1
                                <= MAX_DIM {
                                match value {
                                    Some(bx) => match *bx {
                                        ValueV::Array2 { rows, cols, data } => {
                                            if ri <= rows && ci <= cols && data.len() == rows
                                                * cols {
                                                ValueV::Range {
                                                    sheet,
                                                    reference: Reference {
                                                        start_cell: Cell {
                                                            row: (d.0 + ri - 1) as usize,
                                                            column: (d.1 + ci - 1) as usize,
                                                        },
                                                        end_cell: None,
                                                        full_rows: false,
                                                        full_cols: false,
                                                    },
                                                    value: Some(
                                                        Box::new(data[(ri - 1) * cols + (ci - 1)]),
                                                    ),
                                                }
                                            } else {
                                                ValueV::Error(ErrorKind::Ref)
                                            }
                                        },
                                        _ => ValueV::Error(ErrorKind::Ref),
                                    },
                                    None => ValueV::Error(ErrorKind::Ref),
                                }
                            } else {
                                ValueV::Error(ErrorKind::Ref)
                            }
                        }
                    },
                    _ => ValueV::Error(ErrorKind::Value),
                }
            },
            _ => ValueV::Error(ErrorKind::Value),
        }
    }
}

#[verifier::rlimit(100)]
#[verifier::spinoff_prover]
pub fn index(array: &Value, row_num: &Value, col_num: Option<&Value>) -> (r: Value)
    ensures
        r@ == spec_index(array@, row_num@, match col_num {
            Some(c) => Some(c@),
            None => None,
        }),
{
    let one = Value::Num(crate::num::num_from_i64(1));
    let cnv: &Value = match col_num {
        Some(c) => c,
        None => &one,
    };
    if array.is_err() {
        return array.clone();
    }
    if row_num.is_err() {
        return row_num.clone();
    }
    if cnv.is_err() {
        return cnv.clone();
    }
    match array {
        Value::Range { sheet, reference, value } => {
            match (row_num.as_num(), cnv.as_num()) {
                (Some(rb), Some(cb)) => {
                    if !reference.check_wf() {
                        return Value::Error(ErrorKind::Ref);
                    }
                    let ri = crate::num::num_to_i64(rb);
                    let ci = crate::num::num_to_i64(cb);
                    let d = reference.get_dimensions();
                    if crate::num::num_eq(rb, 0u64) {
                        if 1 <= ci && ci <= MAX_DIM as i64 + 1 && d.1 as i64 + ci - 1 <= MAX_DIM
                            as i64 {
                            Value::Range {
                                sheet: crate::value::clone_sheet_name(sheet),
                                reference: Reference {
                                    start_cell: Cell {
                                        row: 0,
                                        column: (d.1 as i64 + ci - 1) as usize,
                                    },
                                    end_cell: None,
                                    full_rows: false,
                                    full_cols: false,
                                },
                                value: None,
                            }
                        } else {
                            Value::Error(ErrorKind::Ref)
                        }
                    } else if crate::num::num_eq(cb, 0u64) {
                        if 1 <= ri && ri <= MAX_DIM as i64 + 1 && d.0 as i64 + ri - 1 <= MAX_DIM
                            as i64 {
                            Value::Range {
                                sheet: crate::value::clone_sheet_name(sheet),
                                reference: Reference {
                                    start_cell: Cell {
                                        row: (d.0 as i64 + ri - 1) as usize,
                                        column: 0,
                                    },
                                    end_cell: None,
                                    full_rows: false,
                                    full_cols: false,
                                },
                                value: None,
                            }
                        } else {
                            Value::Error(ErrorKind::Ref)
                        }
                    } else if 1 <= ri && 1 <= ci && ri <= MAX_DIM as i64 + 1 && ci <= MAX_DIM
                        as i64 + 1 && d.0 as i64 + ri - 1 <= MAX_DIM as i64 && d.1 as i64 + ci - 1
                        <= MAX_DIM as i64 {
                        match value {
                            Some(bx) => {
                                proof {
                                    assert(array@->Range_value is Some);
                                    let bxg = (array@->Range_value)->Some_0;
                                    assert(*bxg == (**bx)@);
                                }
                                match &**bx {
                                Value::Array2(m) => {
                                    proof {
                                        lemma_view_of_seq(m.data@);
                                    }
                                    let dlen = m.data.len();
                                    let shape_ok = match m.rows.checked_mul(m.cols) {
                                        Some(p) => dlen == p,
                                        None => false,
                                    };
                                    if (ri as usize) <= m.rows && (ci as usize) <= m.cols
                                        && shape_ok {
                                        let rid = (ri - 1) as usize;
                                        let cid = (ci - 1) as usize;
                                        proof {
                                            assert(rid * m.cols + cid < m.rows * m.cols)
                                                by (nonlinear_arith)
                                                requires
                                                    rid < m.rows,
                                                    cid < m.cols,
                                                    m.cols >= 1,
                                            ;
                                        }
                                        let picked = m.data[rid * m.cols + cid].clone();
                                        Value::Range {
                                            sheet: crate::value::clone_sheet_name(sheet),
                                            reference: Reference {
                                                start_cell: Cell {
                                                    row: (d.0 as i64 + ri - 1) as usize,
                                                    column: (d.1 as i64 + ci - 1) as usize,
                                                },
                                                end_cell: None,
                                                full_rows: false,
                                                full_cols: false,
                                            },
                                            value: Some(Box::new(picked)),
                                        }
                                    } else {
                                        Value::Error(ErrorKind::Ref)
                                    }
                                },
                                _ => {
                                    proof {
                                        crate::value::lemma_view_not_array2(**bx);
                                    }
                                    Value::Error(ErrorKind::Ref)
                                },
                            }
                            },
                            None => Value::Error(ErrorKind::Ref),
                        }
                    } else {
                        Value::Error(ErrorKind::Ref)
                    }
                },
                _ => Value::Error(ErrorKind::Value),
            }
        },
        _ => {
            proof {
                crate::value::lemma_view_not_range(*array);
            }
            Value::Error(ErrorKind::Value)
        },
    }
}

/// What an OFFSET call comes to: a resolved value, or a request to
/// rewire the graph toward a freshly named region.
pub enum OffsetPlan {
    Resolved(ValueV),
    Rewire(ExprV),
}

/// The numeric coercion of an optional count argument: absent means
/// absent, an error or uncoercible value refuses.
pub open spec fn spec_opt_count(o: Option<ValueV>) -> Option<Option<u64>> {
    match o {
        None => Some(None),
        Some(v) => match spec_as_num(v) {
            Some(b) => Some(Some(b)),
            None => None,
        },
    }
}

/// Whether a count is small enough to use as an offset component.
pub open spec fn spec_count_i32(b: Option<u64>) -> Option<Option<i32>> {
    match b {
        None => Some(None),
        Some(x) => {
            let v = i64_of_bits(x);
            if -1000000 <= v <= 1000000 {
                Some(Some(v as i32))
            } else {
                None
            }
        },
    }
}

/// OFFSET over an already materialized base range: shift and resize
/// the region as `spec_offset_region` says; when the target region is
/// already calculated the supplied cached value comes back inside a
/// range, and otherwise the call asks the orchestrator to rewire
/// toward the region's name.  An error base passes through; a non-range
/// base or an uncoercible count is the coercion error; a region out of
/// bounds is the reference error.
pub open spec fn spec_offset_fn(
    base: ValueV,
    rows: ValueV,
    cols: ValueV,
    height: Option<ValueV>,
    width: Option<ValueV>,
    target_calculated: bool,
    target_value: Option<ValueV>,
) -> OffsetPlan {
    if base is Error {
        OffsetPlan::Resolved(base)
    } else {
        match base {
            ValueV::Range { sheet, reference, value } => {
                match (
                    spec_as_num(rows),
                    spec_as_num(cols),
                    spec_opt_count(height),
                    spec_opt_count(width),
                ) {
                    (Some(rb), Some(cb), Some(hb), Some(wb)) => {
                        match (spec_count_i32(Some(rb)), spec_count_i32(Some(cb)), spec_count_i32(
                            hb,
                        ), spec_count_i32(wb)) {
                            (Some(Some(rn)), Some(Some(cn)), Some(hn), Some(wn)) => {
                                let ok = reference.wf() && 0 <= reference.start_cell.row + rn
                                    <= MAX_DIM && 0 <= reference.start_cell.column + cn <= MAX_DIM
                                    && (reference.end_cell matches Some(e) ==> 0 <= e.row + rn
                                    <= MAX_DIM && 0 <= e.column + cn <= MAX_DIM) && (
                                spec_offset_grows(hn, wn) ==> 0 <= reference.start_cell.row + rn
                                    + spec_off_delta(spec_opt_i32(hn)) <= MAX_DIM && 0
                                    <= reference.start_cell.column + cn + spec_off_delta(
                                    spec_opt_i32(wn),
                                ) <= MAX_DIM);
                                if ok {
                                    let nr = spec_offset_region(
                                        reference.start_cell,
                                        rn as int,
                                        cn as int,
                                        hn,
                                        wn,
                                    );
                                    if target_calculated {
                                        OffsetPlan::Resolved(
                                            ValueV::Range {
                                                sheet,
                                                reference: nr,
                                                value: match target_value {
                                                    Some(tv) => Some(Box::new(tv)),
                                                    None => None,
                                                },
                                            },
                                        )
                                    } else {
                                        OffsetPlan::Rewire(
                                            ExprV::Reference {
                                                sheet,
                                                reference: crate::reference::spec_ref_text(nr),
                                            },
                                        )
                                    }
                                } else {
                                    OffsetPlan::Resolved(ValueV::Error(ErrorKind::Ref))
                                }
                            },
                            _ => OffsetPlan::Resolved(ValueV::Error(ErrorKind::Ref)),
                        }
                    },
                    _ => OffsetPlan::Resolved(ValueV::Error(ErrorKind::Value)),
                }
            },
            _ => OffsetPlan::Resolved(ValueV::Error(ErrorKind::Value)),
        }
    }
}

fn opt_count(o: Option<&Value>) -> (r: Option<Option<u64>>)
    ensures
        r == spec_opt_count(match o {
            Some(v) => Some(v@),
            None => None,
        }),
{
    match o {
        None => Some(None),
        Some(v) => match v.as_num() {
            Some(b) => Some(Some(b)),
            None => None,
        },
    }
}

fn count_i32(b: Option<u64>) -> (r: Option<Option<i32>>)
    ensures
        r == spec_count_i32(b),
{
    match b {
        None => Some(None),
        Some(x) => {
            let v = crate::num::num_to_i64(x);
            if -1000000 <= v && v <= 1000000 {
                Some(Some(v as i32))
            } else {
                None
            }
        },
    }
}

#[verifier::rlimit(100)]
#[verifier::spinoff_prover]
pub fn offset(
    base: &Value,
    rows: &Value,
    cols: &Value,
    height: Option<&Value>,
    width: Option<&Value>,
    target_calculated: bool,
    target_value: Option<Value>,
) -> (r: Result<Value, crate::errors::Error>)
    ensures
        ({
            let plan = spec_offset_fn(base@, rows@, cols@, match height {
                Some(v) => Some(v@),
                None => None,
            }, match width {
                Some(v) => Some(v@),
                None => None,
            }, target_calculated, match target_value {
                Some(ref tv) => Some(tv@),
                None => None,
            });
            match plan {
                OffsetPlan::Resolved(v) => r matches Ok(out) && out@ == v,
                OffsetPlan::Rewire(ne) => r matches Err(e) && (e matches
                    crate::errors::Error::Volatile(bx) && (*bx)@ == ne),
            }
        }),
{
    if base.is_err() {
        return Ok(base.clone());
    }
    match base {
        Value::Range { sheet, reference, value: _ } => {
            let rbo = rows.as_num();
            let cbo = cols.as_num();
            let hbo = opt_count(height);
            let wbo = opt_count(width);
            match (rbo, cbo, hbo, wbo) {
                (Some(rb), Some(cb), Some(hb), Some(wb)) => {
                    let rno = count_i32(Some(rb));
                    let cno = count_i32(Some(cb));
                    let hno = count_i32(hb);
                    let wno = count_i32(wb);
                    match (rno, cno, hno, wno) {
                        (Some(Some(rn)), Some(Some(cn)), Some(hn), Some(wn)) => {
                            if !reference.check_wf() {
                                return Ok(Value::Error(ErrorKind::Ref));
                            }
                            let anchor_ok = 0 <= reference.start_cell.row as i64 + rn as i64
                                && reference.start_cell.row as i64 + rn as i64 <= MAX_DIM as i64
                                && 0 <= reference.start_cell.column as i64 + cn as i64
                                && reference.start_cell.column as i64 + cn as i64 <= MAX_DIM
                                as i64;
                            let end_ok = match reference.end_cell {
                                None => true,
                                Some(e) => 0 <= e.row as i64 + rn as i64 && e.row as i64 + rn
                                    as i64 <= MAX_DIM as i64 && 0 <= e.column as i64 + cn as i64
                                    && e.column as i64 + cn as i64 <= MAX_DIM as i64,
                            };
                            let grow_ok = if offset_grows(hn, wn) {
                                let hd = off_delta_of(hn);
                                let wd = off_delta_of(wn);
                                0 <= reference.start_cell.row as i64 + rn as i64 + hd as i64
                                    && reference.start_cell.row as i64 + rn as i64 + hd as i64
                                    <= MAX_DIM as i64 && 0 <= reference.start_cell.column as i64
                                    + cn as i64 + wd as i64 && reference.start_cell.column as i64
                                    + cn as i64 + wd as i64 <= MAX_DIM as i64
                            } else {
                                true
                            };
                            if anchor_ok && end_ok && grow_ok {
                                let mut rf = *reference;
                                let nr = offset_reference(&mut rf, rn, cn, hn, wn);
                                if target_calculated {
                                    Ok(
                                        Value::Range {
                                            sheet: crate::value::clone_sheet_name(sheet),
                                            reference: nr,
                                            value: match target_value {
                                                Some(tv) => Some(Box::new(tv)),
                                                None => None,
                                            },
                                        },
                                    )
                                } else {
                                    Err(
                                        crate::errors::Error::Volatile(
                                            Box::new(
                                                crate::ast::Expr::Reference {
                                                    sheet: crate::value::clone_sheet_name(sheet),
                                                    reference: nr.to_text(),
                                                },
                                            ),
                                        ),
                                    )
                                }
                            } else {
                                Ok(Value::Error(ErrorKind::Ref))
                            }
                        },
                        _ => Ok(Value::Error(ErrorKind::Ref)),
                    }
                },
                _ => Ok(Value::Error(ErrorKind::Value)),
            }
        },
        _ => {
            proof {
                crate::value::lemma_view_not_range(*base);
            }
            Ok(Value::Error(ErrorKind::Value))
        },
    }
}

/// Whether a height/width pair asks for a larger region, executably.
fn offset_grows(height: Option<i32>, width: Option<i32>) -> (r: bool)
    ensures
        r == spec_offset_grows(height, width),
{
    if height.is_some() || width.is_some() {
        let h: i32 = match height {
            Some(v) => v,
            None => 0,
        };
        let w: i32 = match width {
            Some(v) => v,
            None => 0,
        };
        h > 1 || h < -1 || w > 1 || w < -1
    } else {
        false
    }
}

fn off_delta_of(o: Option<i32>) -> (r: i32)
    requires
        -1000000 <= (match o {
            Some(v) => v as int,
            None => 0int,
        }) <= 1000000,
    ensures
        r == spec_off_delta(spec_opt_i32(o)),
{
    let h: i32 = match o {
        Some(v) => v,
        None => 0,
    };
    if h > 0 {
        h - 1
    } else {
        h + 1
    }
}

} // verus!