//! Operators of the value domain: arithmetic with coercion and error
//! propagation, text concatenation, heterogeneous ordering, equality,
//! and the broadcast of every infix operator over arrays and matrices.

use vstd::prelude::*;
use core::cmp::Ordering;
use crate::num::{
    add_bits, bits_of_i64, div_bits, eq_bits, lt_bits, mul_bits, neg_bits, pow_bits, sub_bits,
    ONE_BITS,
};
use crate::value::{
    lemma_view_of_seq, spec_as_num, spec_as_text, view_of_seq, Array2, ErrorKind, Value, ValueV,
};

verus! {

/// The infix operators of the expression grammar.
#[derive(Clone, Copy, PartialEq, Eq, Structural, Debug)]
pub enum Op {
    Plus,
    Minus,
    Multiply,
    Divide,
    Exponent,
    Ampersand,
    Equal,
    NotEqual,
    Less,
    LessEq,
    Greater,
    GreaterEq,
}

/// Rank of a value in the heterogeneous ordering: booleans before text
/// before numbers before dates; everything else shares a last rank in
/// which no two values are ordered.
pub open spec fn spec_rank(v: ValueV) -> int {
    match v {
        ValueV::Bool(_) => 0,
        ValueV::Text(_) => 1,
        ValueV::Num(_) => 2,
        ValueV::Date(_) => 3,
        _ => 4,
    }
}

/// Lexicographic order on character sequences by code point.
pub open spec fn spec_seq_cmp(a: Seq<char>, b: Seq<char>) -> Ordering
    decreases a.len(),
{
    if a.len() == 0 && b.len() == 0 {
        Ordering::Equal
    } else if a.len() == 0 {
        Ordering::Less
    } else if b.len() == 0 {
        Ordering::Greater
    } else if (a[0] as u32) < (b[0] as u32) {
        Ordering::Less
    } else if (a[0] as u32) > (b[0] as u32) {
        Ordering::Greater
    } else {
        spec_seq_cmp(a.skip(1), b.skip(1))
    }
}

/// The heterogeneous ordering: by rank, then within a rank by the
/// type's own order; numbers compare IEEE-wise, so a NaN is ordered
/// with nothing, and two values of the last rank are ordered with
/// nothing either.
pub open spec fn spec_value_cmp(a: ValueV, b: ValueV) -> Option<Ordering> {
    let ra = spec_rank(a);
    let rb = spec_rank(b);
    if ra < rb {
        Some(Ordering::Less)
    } else if ra > rb {
        Some(Ordering::Greater)
    } else {
        match (a, b) {
            (ValueV::Bool(x), ValueV::Bool(y)) => {
                if x == y {
                    Some(Ordering::Equal)
                } else if !x {
                    Some(Ordering::Less)
                } else {
                    Some(Ordering::Greater)
                }
            },
            (ValueV::Text(x), ValueV::Text(y)) => Some(spec_seq_cmp(x, y)),
            (ValueV::Num(x), ValueV::Num(y)) => {
                if eq_bits(x, y) {
                    Some(Ordering::Equal)
                } else if lt_bits(x, y) {
                    Some(Ordering::Less)
                } else if lt_bits(y, x) {
                    Some(Ordering::Greater)
                } else {
                    None
                }
            },
            (ValueV::Date(x), ValueV::Date(y)) => {
                if x.year < y.year || (x.year == y.year && (x.month < y.month || (x.month
                    == y.month && x.day < y.day))) {
                    Some(Ordering::Less)
                } else if x == y {
                    Some(Ordering::Equal)
                } else {
                    Some(Ordering::Greater)
                }
            },
            _ => None,
        }
    }
}

/// Equality of two scalar values as lookup functions compare them:
/// numbers IEEE-wise, text by characters, the rest by structure;
/// values of unlike kinds are unequal, and composites compare unequal
/// here (lookup arrays hold scalars).
pub open spec fn spec_value_eq(a: ValueV, b: ValueV) -> bool {
    match (a, b) {
        (ValueV::Num(x), ValueV::Num(y)) => eq_bits(x, y),
        (ValueV::Bool(x), ValueV::Bool(y)) => x == y,
        (ValueV::Text(x), ValueV::Text(y)) => x == y,
        (ValueV::Date(x), ValueV::Date(y)) => x == y,
        (ValueV::Error(x), ValueV::Error(y)) => x == y,
        (ValueV::Empty, ValueV::Empty) => true,
        _ => false,
    }
}

/// One scalar operator applied to two scalar operands: an error operand
/// propagates (the left one first); otherwise the operands are coerced
/// as the operator demands, a failed coercion gives the coercion error,
/// division by zero gives the division error, and a power with no real
/// value gives the number error.  Addition and multiplication of
/// numbers are commutative; concatenation is not.
pub open spec fn spec_scalar_op(op: Op, a: ValueV, b: ValueV) -> ValueV {
    if a is Error {
        a
    } else if b is Error {
        b
    } else {
        match op {
            Op::Plus => match a {
                ValueV::Text(t) => match spec_as_text(b) {
                    Some(u) => ValueV::Text(t + u),
                    None => ValueV::Error(ErrorKind::Value),
                },
                _ => match (spec_as_num(a), spec_as_num(b)) {
                    (Some(x), Some(y)) => ValueV::Num(add_bits(x, y)),
                    _ => ValueV::Error(ErrorKind::Value),
                },
            },
            Op::Minus => match (spec_as_num(a), spec_as_num(b)) {
                (Some(x), Some(y)) => ValueV::Num(sub_bits(x, y)),
                _ => ValueV::Error(ErrorKind::Value),
            },
            Op::Multiply => match (spec_as_num(a), spec_as_num(b)) {
                (Some(x), Some(y)) => ValueV::Num(mul_bits(x, y)),
                _ => ValueV::Error(ErrorKind::Value),
            },
            Op::Divide => match (spec_as_num(a), spec_as_num(b)) {
                (Some(x), Some(y)) => {
                    if eq_bits(y, 0u64) {
                        ValueV::Error(ErrorKind::Div)
                    } else {
                        ValueV::Num(div_bits(x, y))
                    }
                },
                _ => ValueV::Error(ErrorKind::Value),
            },
            Op::Exponent => match (spec_as_num(a), spec_as_num(b)) {
                (Some(x), Some(y)) => match pow_bits(x, y) {
                    Some(r) => ValueV::Num(r),
                    None => ValueV::Error(ErrorKind::Num),
                },
                _ => ValueV::Error(ErrorKind::Value),
            },
            Op::Ampersand => match (spec_as_text(a), spec_as_text(b)) {
                (Some(x), Some(y)) => ValueV::Text(x + y),
                _ => ValueV::Error(ErrorKind::Value),
            },
            _ => match spec_value_cmp(a, b) {
                None => ValueV::Error(ErrorKind::Value),
                Some(o) => ValueV::Bool(
                    match op {
                        Op::Equal => o == Ordering::Equal,
                        Op::NotEqual => o != Ordering::Equal,
                        Op::Less => o == Ordering::Less,
                        Op::LessEq => o != Ordering::Greater,
                        Op::Greater => o == Ordering::Greater,
                        _ => o != Ordering::Less,
                    },
                ),
            },
        }
    }
}

pub fn seq_cmp(a: &Vec<char>, b: &Vec<char>) -> (r: Ordering)
    ensures
        r == spec_seq_cmp(a@, b@),
{
    let mut i: usize = 0;
    proof {
        assert(a@.skip(0) =~= a@);
        assert(b@.skip(0) =~= b@);
    }
    while i < a.len() && i < b.len()
        invariant
            i <= a.len() && i <= b.len(),
            spec_seq_cmp(a@, b@) == spec_seq_cmp(a@.skip(i as int), b@.skip(i as int)),
        decreases a.len() - i,
    {
        let x = a[i] as u32;
        let y = b[i] as u32;
        proof {
            assert(a@.skip(i as int).len() == a@.len() - i);
            assert(b@.skip(i as int).len() == b@.len() - i);
            assert(a@.skip(i as int)[0] == a@[i as int]);
            assert(b@.skip(i as int)[0] == b@[i as int]);
        }
        if x < y {
            return Ordering::Less;
        } else if x > y {
            return Ordering::Greater;
        }
        proof {
            let sa = a@.skip(i as int);
            let sb = b@.skip(i as int);
            assert(sa.len() > 0 && sb.len() > 0);
            assert(sa[0] == a@[i as int] && sb[0] == b@[i as int]);
            assert(sa[0] as u32 == sb[0] as u32);
            assert(spec_seq_cmp(sa, sb) == spec_seq_cmp(sa.skip(1), sb.skip(1)));
            assert(sa.skip(1) =~= a@.skip(i as int + 1));
            assert(sb.skip(1) =~= b@.skip(i as int + 1));
        }
        i = i + 1;
    }
    proof {
        assert(a@.skip(i as int).len() == a@.len() - i);
        assert(b@.skip(i as int).len() == b@.len() - i);
        if i < a.len() {
            assert(a@.skip(i as int)[0] == a@[i as int]);
        }
        if i < b.len() {
            assert(b@.skip(i as int)[0] == b@[i as int]);
        }
    }
    if a.len() < b.len() {
        Ordering::Less
    } else if a.len() > b.len() {
        Ordering::Greater
    } else {
        Ordering::Equal
    }
}

fn text_cmp(a: &str, b: &str) -> (r: Ordering)
    ensures
        r == spec_seq_cmp(a@, b@),
{
    let va = crate::text::chars_of(a);
    let vb = crate::text::chars_of(b);
    seq_cmp(&va, &vb)
}

/// The heterogeneous comparison the ordered functions and the
/// comparison operators use.
pub fn value_cmp(a: &Value, b: &Value) -> (r: Option<Ordering>)
    ensures
        r == spec_value_cmp(a@, b@),
{
    let ra: u8 = match a {
        Value::Bool(_) => 0,
        Value::Text(_) => 1,
        Value::Num(_) => 2,
        Value::Date(_) => 3,
        _ => 4,
    };
    let rb: u8 = match b {
        Value::Bool(_) => 0,
        Value::Text(_) => 1,
        Value::Num(_) => 2,
        Value::Date(_) => 3,
        _ => 4,
    };
    if ra < rb {
        Some(Ordering::Less)
    } else if ra > rb {
        Some(Ordering::Greater)
    } else {
        match (a, b) {
            (Value::Bool(x), Value::Bool(y)) => {
                if *x == *y {
                    Some(Ordering::Equal)
                } else if !*x {
                    Some(Ordering::Less)
                } else {
                    Some(Ordering::Greater)
                }
            },
            (Value::Text(x), Value::Text(y)) => Some(text_cmp(x.as_str(), y.as_str())),
            (Value::Num(x), Value::Num(y)) => {
                if crate::num::num_eq(*x, *y) {
                    Some(Ordering::Equal)
                } else if crate::num::num_lt(*x, *y) {
                    Some(Ordering::Less)
                } else if crate::num::num_lt(*y, *x) {
                    Some(Ordering::Greater)
                } else {
                    None
                }
            },
            (Value::Date(x), Value::Date(y)) => {
                if x.year < y.year || (x.year == y.year && (x.month < y.month || (x.month
                    == y.month && x.day < y.day))) {
                    Some(Ordering::Less)
                } else if x.year == y.year && x.month == y.month && x.day == y.day {
                    Some(Ordering::Equal)
                } else {
                    Some(Ordering::Greater)
                }
            },
            _ => None,
        }
    }
}

/// Scalar equality as lookup functions test it.
pub fn value_eq(a: &Value, b: &Value) -> (r: bool)
    ensures
        r == spec_value_eq(a@, b@),
{
    match (a, b) {
        (Value::Num(x), Value::Num(y)) => crate::num::num_eq(*x, *y),
        (Value::Bool(x), Value::Bool(y)) => *x == *y,
        (Value::Text(x), Value::Text(y)) => {
            let r = x.eq(y);
            r
        },
        (Value::Date(x), Value::Date(y)) => x.year == y.year && x.month == y.month && x.day
            == y.day,
        (Value::Error(x), Value::Error(y)) => *x == *y,
        (Value::Empty, Value::Empty) => true,
        _ => false,
    }
}

/// One scalar operator, executably.  For `+` and `*` on two numbers
/// that are not both NaN the result is also stated with the operands
/// the other way around: IEEE-754 addition and multiplication are
/// commutative (two NaN operands are excluded: the implementation
/// propagates the left one).
pub fn scalar_op(op: Op, a: &Value, b: &Value) -> (r: Value)
    ensures
        r@ == spec_scalar_op(op, a@, b@),
        (op == Op::Plus || op == Op::Multiply) && (a@ matches ValueV::Num(x)) && (
        b@ matches ValueV::Num(y)) && !(crate::num::is_nan_bits(a@->Num_0)
            && crate::num::is_nan_bits(b@->Num_0)) ==> r@ == spec_scalar_op(op, b@, a@),
{
    if a.is_err() {
        return a.clone();
    }
    if b.is_err() {
        return b.clone();
    }
    match op {
        Op::Plus => {
            if let Value::Text(t) = a {
                match b.as_text() {
                    Some(u) => {
                        let mut s = t.clone();
                        s.append(u.as_str());
                        Value::Text(s)
                    },
                    None => Value::Error(ErrorKind::Value),
                }
            } else {
                match (a.as_num(), b.as_num()) {
                    (Some(x), Some(y)) => Value::Num(crate::num::num_add(x, y)),
                    _ => Value::Error(ErrorKind::Value),
                }
            }
        },
        Op::Minus => match (a.as_num(), b.as_num()) {
            (Some(x), Some(y)) => Value::Num(crate::num::num_sub(x, y)),
            _ => Value::Error(ErrorKind::Value),
        },
        Op::Multiply => match (a.as_num(), b.as_num()) {
            (Some(x), Some(y)) => Value::Num(crate::num::num_mul(x, y)),
            _ => Value::Error(ErrorKind::Value),
        },
        Op::Divide => match (a.as_num(), b.as_num()) {
            (Some(x), Some(y)) => {
                if crate::num::num_eq(y, 0u64) {
                    Value::Error(ErrorKind::Div)
                } else {
                    Value::Num(crate::num::num_div(x, y))
                }
            },
            _ => Value::Error(ErrorKind::Value),
        },
        Op::Exponent => match (a.as_num(), b.as_num()) {
            (Some(x), Some(y)) => match crate::num::num_pow(x, y) {
                Some(r) => Value::Num(r),
                None => Value::Error(ErrorKind::Num),
            },
            _ => Value::Error(ErrorKind::Value),
        },
        Op::Ampersand => match (a.as_text(), b.as_text()) {
            (Some(x), Some(y)) => {
                let mut s = x;
                s.append(y.as_str());
                Value::Text(s)
            },
            _ => Value::Error(ErrorKind::Value),
        },
        _ => match value_cmp(a, b) {
            None => Value::Error(ErrorKind::Value),
            Some(o) => Value::Bool(
                match op {
                    Op::Equal => matches!(o, Ordering::Equal),
                    Op::NotEqual => !matches!(o, Ordering::Equal),
                    Op::Less => matches!(o, Ordering::Less),
                    Op::LessEq => !matches!(o, Ordering::Greater),
                    Op::Greater => matches!(o, Ordering::Greater),
                    _ => !matches!(o, Ordering::Less),
                },
            ),
        },
    }
}

/// Law: numeric addition and multiplication commute.  For two number
/// values that are not both NaN, the operator applied either way
/// around gives one and the same value (concatenation, by contrast,
/// is ordered: see `spec_scalar_op`, which appends left to right; and
/// with two NaN operands the implementation propagates the left one,
/// so that pair stands outside the law).
pub fn check_commutative(op: Op, a: &Value, b: &Value) -> (r: (Value, Value))
    requires
        op == Op::Plus || op == Op::Multiply,
        a@ is Num,
        b@ is Num,
        !(crate::num::is_nan_bits(a@->Num_0) && crate::num::is_nan_bits(b@->Num_0)),
    ensures
        r.0@ == r.1@,
        r.0@ == spec_scalar_op(op, a@, b@),
        r.1@ == spec_scalar_op(op, b@, a@),
{
    let x = scalar_op(op, a, b);
    let y = scalar_op(op, b, a);
    (x, y)
}

/// One infix operator over possibly array-shaped operands: an error
/// operand propagates; arrays and matrices of one shape combine
/// elementwise; a scalar against an array or matrix is applied to each
/// element; mismatched shapes are the coercion error; two scalars go
/// through the scalar operator.
pub open spec fn spec_binop(op: Op, a: ValueV, b: ValueV) -> ValueV {
    if a is Error {
        a
    } else if b is Error {
        b
    } else {
        match (a, b) {
            (ValueV::Array(s1), ValueV::Array(s2)) => {
                if s1.len() == s2.len() {
                    ValueV::Array(Seq::new(s1.len(), |i: int| spec_scalar_op(op, s1[i], s2[i])))
                } else {
                    ValueV::Error(ErrorKind::Value)
                }
            },
            (ValueV::Array(s1), ValueV::Array2 { rows, cols, data }) => ValueV::Error(
                ErrorKind::Value,
            ),
            (ValueV::Array2 { rows, cols, data }, ValueV::Array(s2)) => ValueV::Error(
                ErrorKind::Value,
            ),
            (
                ValueV::Array2 { rows: r1, cols: c1, data: d1 },
                ValueV::Array2 { rows: r2, cols: c2, data: d2 },
            ) => {
                if r1 == r2 && c1 == c2 && d1.len() == d2.len() {
                    ValueV::Array2 {
                        rows: r1,
                        cols: c1,
                        data: Seq::new(d1.len(), |i: int| spec_scalar_op(op, d1[i], d2[i])),
                    }
                } else {
                    ValueV::Error(ErrorKind::Value)
                }
            },
            (ValueV::Array(s1), _) => ValueV::Array(
                Seq::new(s1.len(), |i: int| spec_scalar_op(op, s1[i], b)),
            ),
            (_, ValueV::Array(s2)) => ValueV::Array(
                Seq::new(s2.len(), |i: int| spec_scalar_op(op, a, s2[i])),
            ),
            (ValueV::Array2 { rows, cols, data }, _) => ValueV::Array2 {
                rows,
                cols,
                data: Seq::new(data.len(), |i: int| spec_scalar_op(op, data[i], b)),
            },
            (_, ValueV::Array2 { rows, cols, data }) => ValueV::Array2 {
                rows,
                cols,
                data: Seq::new(data.len(), |i: int| spec_scalar_op(op, a, data[i])),
            },
            _ => spec_scalar_op(op, a, b),
        }
    }
}

fn zip_scalar(op: Op, s1: &Vec<Value>, s2: &Vec<Value>) -> (out: Vec<Value>)
    requires
        s1@.len() == s2@.len(),
    ensures
        view_of_seq(out@) == Seq::new(
            view_of_seq(s1@).len(),
            |i: int| spec_scalar_op(op, view_of_seq(s1@)[i], view_of_seq(s2@)[i]),
        ),
{
    proof {
        lemma_view_of_seq(s1@);
        lemma_view_of_seq(s2@);
    }
    let ghost goal = Seq::new(
        view_of_seq(s1@).len(),
        |i: int| spec_scalar_op(op, view_of_seq(s1@)[i], view_of_seq(s2@)[i]),
    );
    let mut out: Vec<Value> = Vec::new();
    let mut i: usize = 0;
    while i < s1.len()
        invariant
            i <= s1@.len(),
            s1@.len() == s2@.len(),
            out@.len() == i,
            goal == Seq::new(
                view_of_seq(s1@).len(),
                |k: int| spec_scalar_op(op, view_of_seq(s1@)[k], view_of_seq(s2@)[k]),
            ),
            view_of_seq(s1@).len() == s1@.len(),
            view_of_seq(s2@).len() == s2@.len(),
            forall|k: int| 0 <= k < s1@.len() ==> view_of_seq(s1@)[k] == (#[trigger] s1@[k])@,
            forall|k: int| 0 <= k < s2@.len() ==> view_of_seq(s2@)[k] == (#[trigger] s2@[k])@,
            forall|k: int| 0 <= k < i ==> (#[trigger] out@[k])@ == goal[k],
        decreases s1@.len() - i,
    {
        let ghost old_out = out@;
        let v = scalar_op(op, &s1[i], &s2[i]);
        out.push(v);
        proof {
            assert(out@.drop_last() =~= old_out);
            assert forall|k: int| 0 <= k < out@.len() implies (#[trigger] out@[k])@ == goal[k] by {
                if k < out@.len() - 1 {
                    assert(out@[k] == old_out[k]);
                }
            };
        }
        i = i + 1;
    }
    proof {
        lemma_view_of_seq(out@);
        assert forall|k: int| 0 <= k < out@.len() implies view_of_seq(out@)[k] == goal[k] by {
            assert(view_of_seq(out@)[k] == out@[k]@);
        };
        assert(view_of_seq(out@) =~= goal);
    }
    out
}

fn map_scalar(op: Op, s1: &Vec<Value>, other: &Value, other_right: bool) -> (out: Vec<Value>)
    ensures
        other_right ==> view_of_seq(out@) == Seq::new(
            view_of_seq(s1@).len(),
            |i: int| spec_scalar_op(op, view_of_seq(s1@)[i], other@),
        ),
        !other_right ==> view_of_seq(out@) == Seq::new(
            view_of_seq(s1@).len(),
            |i: int| spec_scalar_op(op, other@, view_of_seq(s1@)[i]),
        ),
{
    proof {
        lemma_view_of_seq(s1@);
    }
    let ghost goal: Seq<ValueV> = if other_right {
        Seq::new(
            view_of_seq(s1@).len(),
            |i: int| spec_scalar_op(op, view_of_seq(s1@)[i], other@),
        )
    } else {
        Seq::new(
            view_of_seq(s1@).len(),
            |i: int| spec_scalar_op(op, other@, view_of_seq(s1@)[i]),
        )
    };
    let mut out: Vec<Value> = Vec::new();
    let mut i: usize = 0;
    while i < s1.len()
        invariant
            i <= s1@.len(),
            out@.len() == i,
            goal.len() == s1@.len(),
            forall|k: int|
                0 <= k < s1@.len() ==> #[trigger] goal[k] == (if other_right {
                    spec_scalar_op(op, view_of_seq(s1@)[k], other@)
                } else {
                    spec_scalar_op(op, other@, view_of_seq(s1@)[k])
                }),
            view_of_seq(s1@).len() == s1@.len(),
            forall|k: int| 0 <= k < s1@.len() ==> view_of_seq(s1@)[k] == (#[trigger] s1@[k])@,
            forall|k: int| 0 <= k < i ==> (#[trigger] out@[k])@ == goal[k],
        decreases s1@.len() - i,
    {
        let ghost old_out = out@;
        let v = if other_right {
            scalar_op(op, &s1[i], other)
        } else {
            scalar_op(op, other, &s1[i])
        };
        out.push(v);
        proof {
            assert(out@.drop_last() =~= old_out);
            assert forall|k: int| 0 <= k < out@.len() implies (#[trigger] out@[k])@ == goal[k] by {
                if k < out@.len() - 1 {
                    assert(out@[k] == old_out[k]);
                }
            };
        }
        i = i + 1;
    }
    proof {
        lemma_view_of_seq(out@);
        assert forall|k: int| 0 <= k < out@.len() implies view_of_seq(out@)[k] == goal[k] by {
            assert(view_of_seq(out@)[k] == out@[k]@);
        };
        assert(view_of_seq(out@) =~= goal);
    }
    out
}

/// One infix operator with the broadcast rule, executably.
pub fn apply_binop(op: Op, a: &Value, b: &Value) -> (r: Value)
    ensures
        r@ == spec_binop(op, a@, b@),
{
    if a.is_err() {
        return a.clone();
    }
    if b.is_err() {
        return b.clone();
    }
    match (a, b) {
        (Value::Array(s1), Value::Array(s2)) => {
            proof {
                lemma_view_of_seq(s1@);
                lemma_view_of_seq(s2@);
            }
            if s1.len() == s2.len() {
                Value::Array(zip_scalar(op, s1, s2))
            } else {
                Value::Error(ErrorKind::Value)
            }
        },
        (Value::Array(_), Value::Array2(_)) => Value::Error(ErrorKind::Value),
        (Value::Array2(_), Value::Array(_)) => Value::Error(ErrorKind::Value),
        (Value::Array2(m1), Value::Array2(m2)) => {
            proof {
                lemma_view_of_seq(m1.data@);
                lemma_view_of_seq(m2.data@);
            }
            if m1.rows == m2.rows && m1.cols == m2.cols && m1.data.len() == m2.data.len() {
                Value::Array2(
                    Array2 { rows: m1.rows, cols: m1.cols, data: zip_scalar(op, &m1.data, &m2.data) },
                )
            } else {
                Value::Error(ErrorKind::Value)
            }
        },
        (Value::Array(s1), _) => {
            proof {
                crate::value::lemma_view_not_composite(*b);
            }
            Value::Array(map_scalar(op, s1, b, true))
        },
        (_, Value::Array(s2)) => {
            proof {
                crate::value::lemma_view_not_composite(*a);
            }
            Value::Array(map_scalar(op, s2, a, false))
        },
        (Value::Array2(m), _) => {
            proof {
                crate::value::lemma_view_not_composite(*b);
                lemma_view_of_seq(m.data@);
            }
            Value::Array2(
                Array2 { rows: m.rows, cols: m.cols, data: map_scalar(op, &m.data, b, true) },
            )
        },
        (_, Value::Array2(m)) => {
            proof {
                crate::value::lemma_view_not_composite(*a);
                lemma_view_of_seq(m.data@);
            }
            Value::Array2(
                Array2 { rows: m.rows, cols: m.cols, data: map_scalar(op, &m.data, a, false) },
            )
        },
        _ => {
            proof {
                crate::value::lemma_view_not_composite(*a);
                crate::value::lemma_view_not_composite(*b);
            }
            scalar_op(op, a, b)
        },
    }
}

/// Unary minus: negate the numeric coercion of the operand.
pub open spec fn spec_value_neg(a: ValueV) -> ValueV {
    if a is Error {
        a
    } else {
        match spec_as_num(a) {
            Some(x) => ValueV::Num(neg_bits(x)),
            None => ValueV::Error(ErrorKind::Value),
        }
    }
}

pub fn value_neg(a: &Value) -> (r: Value)
    ensures
        r@ == spec_value_neg(a@),
{
    if a.is_err() {
        return a.clone();
    }
    match a.as_num() {
        Some(x) => Value::Num(crate::num::num_neg(x)),
        None => Value::Error(ErrorKind::Value),
    }
}

/// The percent postfix: the numeric coercion divided by one hundred.
pub open spec fn spec_value_percent(a: ValueV) -> ValueV {
    if a is Error {
        a
    } else {
        match spec_as_num(a) {
            Some(x) => ValueV::Num(div_bits(x, bits_of_i64(100))),
            None => ValueV::Error(ErrorKind::Value),
        }
    }
}

pub fn value_percent(a: &Value) -> (r: Value)
    ensures
        r@ == spec_value_percent(a@),
{
    if a.is_err() {
        return a.clone();
    }
    match a.as_num() {
        Some(x) => Value::Num(crate::num::num_div(x, crate::num::num_from_i64(100))),
        None => Value::Error(ErrorKind::Value),
    }
}

} // verus!