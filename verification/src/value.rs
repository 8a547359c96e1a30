//! The polymorphic value domain: numbers, booleans, text, dates, arrays,
//! matrices, references, ranges, formulas, spreadsheet errors and the
//! empty cell.
//!
//! Every contract over values speaks of the mathematical view [`ValueV`],
//! in which text is a character sequence and collections are sequences,
//! so that cloning and rebuilding a value keeps its meaning.

use vstd::prelude::*;
use vstd::string::StrSliceExecFns;
use crate::date::Date;
use crate::num::{eq_bits, fmt_bits, parse_bits, ONE_BITS};
use crate::reference::Reference;

verus! {

/// The spreadsheet error kinds.
#[derive(Clone, Copy, PartialEq, Eq, Structural, Debug)]
pub enum ErrorKind {
    Null,
    Div,
    Value,
    Ref,
    Name,
    Num,
    NA,
    GettingData,
}

pub open spec fn spec_error_text(k: ErrorKind) -> Seq<char> {
    match k {
        ErrorKind::Null => "#NULL!"@,
        ErrorKind::Div => "#DIV/0!"@,
        ErrorKind::Value => "#VALUE!"@,
        ErrorKind::Ref => "#REF!"@,
        ErrorKind::Name => "#NAME?"@,
        ErrorKind::Num => "#NUM!"@,
        ErrorKind::NA => "#N/A"@,
        ErrorKind::GettingData => "#GETTING_DATA"@,
    }
}

pub fn error_text(k: ErrorKind) -> (r: String)
    ensures
        r@ == spec_error_text(k),
{
    match k {
        ErrorKind::Null => "#NULL!".to_owned(),
        ErrorKind::Div => "#DIV/0!".to_owned(),
        ErrorKind::Value => "#VALUE!".to_owned(),
        ErrorKind::Ref => "#REF!".to_owned(),
        ErrorKind::Name => "#NAME?".to_owned(),
        ErrorKind::Num => "#NUM!".to_owned(),
        ErrorKind::NA => "#N/A".to_owned(),
        ErrorKind::GettingData => "#GETTING_DATA".to_owned(),
    }
}

/// A rectangular 2-D matrix of values, stored row-major.
#[derive(Clone, Debug, PartialEq)]
pub struct Array2 {
    pub rows: usize,
    pub cols: usize,
    pub data: Vec<Value>,
}

/// A cell's value.  `Num` carries the bit pattern of an IEEE-754
/// binary64 number.
#[derive(Debug, PartialEq)]
pub enum Value {
    Num(u64),
    Bool(bool),
    Text(String),
    Date(Date),
    Array(Vec<Value>),
    Array2(Array2),
    Formula(String),
    Ref { sheet: Option<String>, reference: Reference },
    Range { sheet: Option<String>, reference: Reference, value: Option<Box<Value>> },
    Error(ErrorKind),
    Empty,
}

/// The mathematical model of a value.
pub enum ValueV {
    Num(u64),
    Bool(bool),
    Text(Seq<char>),
    Date(Date),
    Array(Seq<ValueV>),
    Array2 { rows: nat, cols: nat, data: Seq<ValueV> },
    Formula(Seq<char>),
    Ref { sheet: Option<Seq<char>>, reference: Reference },
    Range { sheet: Option<Seq<char>>, reference: Reference, value: Option<Box<ValueV>> },
    Error(ErrorKind),
    Empty,
}

pub open spec fn view_of_seq(s: Seq<Value>) -> Seq<ValueV>
    decreases s,
{
    if s.len() == 0 {
        Seq::empty()
    } else {
        view_of_seq(s.drop_last()).push(s.last()@)
    }
}

pub open spec fn view_of_sheet_name(s: Option<String>) -> Option<Seq<char>> {
    match s {
        None => None,
        Some(n) => Some(n@),
    }
}

impl View for Value {
    type V = ValueV;

    open spec fn view(&self) -> ValueV
        decreases self,
    {
        match self {
            Value::Num(b) => ValueV::Num(*b),
            Value::Bool(b) => ValueV::Bool(*b),
            Value::Text(t) => ValueV::Text(t@),
            Value::Date(d) => ValueV::Date(*d),
            Value::Array(a) => ValueV::Array(view_of_seq(a@)),
            Value::Array2(m) => ValueV::Array2 {
                rows: m.rows as nat,
                cols: m.cols as nat,
                data: view_of_seq(m.data@),
            },
            Value::Formula(t) => ValueV::Formula(t@),
            Value::Ref { sheet, reference } => ValueV::Ref {
                sheet: view_of_sheet_name(*sheet),
                reference: *reference,
            },
            Value::Range { sheet, reference, value } => ValueV::Range {
                sheet: view_of_sheet_name(*sheet),
                reference: *reference,
                value: match value {
                    None => None,
                    Some(b) => Some(Box::new((**b)@)),
                },
            },
            Value::Error(k) => ValueV::Error(*k),
            Value::Empty => ValueV::Empty,
        }
    }
}

/// A value that is not a matrix has no matrix view.
pub proof fn lemma_view_not_array2(v: Value)
    requires
        !(v is Array2),
    ensures
        !(v@ is Array2),
{
    match v {
        Value::Num(_) => {},
        Value::Bool(_) => {},
        Value::Text(_) => {},
        Value::Date(_) => {},
        Value::Array(_) => {},
        Value::Array2(_) => {},
        Value::Formula(_) => {},
        Value::Ref { sheet: _, reference: _ } => {},
        Value::Range { sheet: _, reference: _, value: _ } => {},
        Value::Error(_) => {},
        Value::Empty => {},
    }
}

/// A value that is not a range has no range view.
pub proof fn lemma_view_not_range(v: Value)
    requires
        !(v is Range),
    ensures
        !(v@ is Range),
{
    match v {
        Value::Num(_) => {},
        Value::Bool(_) => {},
        Value::Text(_) => {},
        Value::Date(_) => {},
        Value::Array(_) => {},
        Value::Array2(_) => {},
        Value::Formula(_) => {},
        Value::Ref { sheet: _, reference: _ } => {},
        Value::Range { sheet: _, reference: _, value: _ } => {},
        Value::Error(_) => {},
        Value::Empty => {},
    }
}

/// A value that is neither an array nor a matrix has a view of the
/// same plain kind.
pub proof fn lemma_view_not_composite(v: Value)
    requires
        !(v is Array),
        !(v is Array2),
    ensures
        !(v@ is Array),
        !(v@ is Array2),
{
    match v {
        Value::Num(_) => {},
        Value::Bool(_) => {},
        Value::Text(_) => {},
        Value::Date(_) => {},
        Value::Array(_) => {},
        Value::Array2(_) => {},
        Value::Formula(_) => {},
        Value::Ref { sheet: _, reference: _ } => {},
        Value::Range { sheet: _, reference: _, value: _ } => {},
        Value::Error(_) => {},
        Value::Empty => {},
    }
}

/// The views of a sequence of values, elementwise.
pub proof fn lemma_view_of_seq(s: Seq<Value>)
    ensures
        view_of_seq(s).len() == s.len(),
        forall|i: int| 0 <= i < s.len() ==> view_of_seq(s)[i] == (#[trigger] s[i])@,
    decreases s,
{
    if s.len() > 0 {
        lemma_view_of_seq(s.drop_last());
        assert forall|i: int| 0 <= i < s.len() implies view_of_seq(s)[i] == (#[trigger] s[i])@ by {
            let x = view_of_seq(s.drop_last());
            let y = s.last()@;
            assert(view_of_seq(s) == x.push(y));
            assert(x.len() == s.len() - 1);
            if i < s.len() - 1 {
                assert(x.push(y)[i] == x[i]);
                assert(s.drop_last()[i] == s[i]);
            } else {
                assert(x.push(y)[i] == y);
            }
        };
    }
}

/// Two value sequences with the same views elementwise have the same
/// view as sequences.
pub proof fn lemma_view_of_seq_congruence(a: Seq<Value>, b: Seq<Value>)
    requires
        a.len() == b.len(),
        forall|i: int| 0 <= i < a.len() ==> (#[trigger] a[i])@ == b[i]@,
    ensures
        view_of_seq(a) =~= view_of_seq(b),
{
    lemma_view_of_seq(a);
    lemma_view_of_seq(b);
    assert forall|i: int| 0 <= i < view_of_seq(a).len() implies view_of_seq(a)[i]
        == view_of_seq(b)[i] by {
        assert(a[i]@ == b[i]@);
    };
}

impl Clone for Value {
    /// A clone means the same value.
    fn clone(&self) -> (r: Self)
        ensures
            r@ == self@,
        decreases self,
    {
        match self {
            Value::Num(b) => Value::Num(*b),
            Value::Bool(b) => Value::Bool(*b),
            Value::Text(t) => Value::Text(t.clone()),
            Value::Date(d) => Value::Date(*d),
            Value::Array(a) => Value::Array(clone_values(a)),
            Value::Array2(m) => {
                let r = Value::Array2(
                    Array2 { rows: m.rows, cols: m.cols, data: clone_values(&m.data) },
                );
                r
            },
            Value::Formula(t) => Value::Formula(t.clone()),
            Value::Ref { sheet, reference } => Value::Ref {
                sheet: clone_sheet_name(sheet),
                reference: *reference,
            },
            Value::Range { sheet, reference, value } => {
                let v2: Option<Box<Value>> = match value {
                    None => None,
                    Some(b) => Some(Box::new((**b).clone())),
                };
                Value::Range { sheet: clone_sheet_name(sheet), reference: *reference, value: v2 }
            },
            Value::Error(k) => Value::Error(*k),
            Value::Empty => Value::Empty,
        }
    }
}

/// Clone an optional sheet name, keeping the view.
pub fn clone_sheet_name(s: &Option<String>) -> (r: Option<String>)
    ensures
        view_of_sheet_name(r) == view_of_sheet_name(*s),
{
    match s {
        None => None,
        Some(n) => Some(n.clone()),
    }
}

/// Clone every element of a value vector, keeping the view.
pub fn clone_values(v: &Vec<Value>) -> (r: Vec<Value>)
    ensures
        view_of_seq(r@) == view_of_seq(v@),
        r@.len() == v@.len(),
    decreases v,
{
    let mut out: Vec<Value> = Vec::new();
    let mut i: usize = 0;
    proof {
        lemma_view_of_seq(v@);
    }
    while i < v.len()
        invariant
            i <= v.len(),
            out@.len() == i,
            forall|j: int| 0 <= j < i ==> (#[trigger] out@[j])@ == v@[j]@,
        decreases v.len() - i,
    {
        out.push(v[i].clone());
        i = i + 1;
    }
    proof {
        lemma_view_of_seq_congruence(out@, v@);
    }
    out
}

impl Value {
    pub fn is_num(&self) -> (r: bool)
        ensures
            r == (self@ is Num),
    {
        matches!(self, Value::Num(_))
    }

    pub fn is_bool(&self) -> (r: bool)
        ensures
            r == (self@ is Bool),
    {
        matches!(self, Value::Bool(_))
    }

    pub fn is_text(&self) -> (r: bool)
        ensures
            r == (self@ is Text),
    {
        matches!(self, Value::Text(_))
    }

    pub fn is_date(&self) -> (r: bool)
        ensures
            r == (self@ is Date),
    {
        matches!(self, Value::Date(_))
    }

    pub fn is_array(&self) -> (r: bool)
        ensures
            r == (self@ is Array),
    {
        matches!(self, Value::Array(_))
    }

    pub fn is_array2(&self) -> (r: bool)
        ensures
            r == (self@ is Array2),
    {
        matches!(self, Value::Array2(_))
    }

    pub fn is_empty(&self) -> (r: bool)
        ensures
            r == (self@ is Empty),
    {
        matches!(self, Value::Empty)
    }

    pub fn is_formula(&self) -> (r: bool)
        ensures
            r == (self@ is Formula),
    {
        matches!(self, Value::Formula(_))
    }

    pub fn is_ref(&self) -> (r: bool)
        ensures
            r == (self@ is Ref),
    {
        matches!(self, Value::Ref { sheet: _, reference: _ })
    }

    pub fn is_err(&self) -> (r: bool)
        ensures
            r == (self@ is Error),
    {
        matches!(self, Value::Error(_))
    }
}

/// Numeric coercion: a number itself, text by decimal parse, a boolean
/// as 1 or 0, and a 1×1 matrix through its single element; anything
/// else refuses.
pub open spec fn spec_as_num(v: ValueV) -> Option<u64>
    decreases v,
{
    match v {
        ValueV::Num(b) => Some(b),
        ValueV::Bool(b) => Some(
            if b {
                ONE_BITS
            } else {
                0u64
            },
        ),
        ValueV::Text(t) => if t.len() <= 1000000 {
            parse_bits(t)
        } else {
            None
        },
        ValueV::Array2 { rows, cols, data } => {
            if rows == 1 && cols == 1 && data.len() == 1 {
                spec_as_num(data[0])
            } else {
                None
            }
        },
        _ => None,
    }
}

/// Boolean coercion: a boolean itself, or a number equal to 1 or 0.
pub open spec fn spec_as_bool(v: ValueV) -> Option<bool> {
    match v {
        ValueV::Bool(b) => Some(b),
        ValueV::Num(b) => {
            if eq_bits(b, ONE_BITS) {
                Some(true)
            } else if eq_bits(b, 0u64) {
                Some(false)
            } else {
                None
            }
        },
        _ => None,
    }
}

/// Text coercion: text and formulas by their characters, numbers by
/// their decimal rendering, booleans as TRUE / FALSE, the empty cell as
/// the empty string, and an error as its display form.
pub open spec fn spec_as_text(v: ValueV) -> Option<Seq<char>> {
    match v {
        ValueV::Text(t) => Some(t),
        ValueV::Formula(t) => Some(t),
        ValueV::Num(b) => Some(fmt_bits(b)),
        ValueV::Bool(b) => Some(
            if b {
                "TRUE"@
            } else {
                "FALSE"@
            },
        ),
        ValueV::Empty => Some(Seq::empty()),
        ValueV::Error(k) => Some(spec_error_text(k)),
        _ => None,
    }
}

/// Strip range and 1×1-matrix wrappers down to the underlying scalar.
pub open spec fn spec_ensure_single(v: ValueV) -> ValueV
    decreases v,
{
    match v {
        ValueV::Range { sheet, reference, value } => {
            match value {
                Some(b) => spec_ensure_single(*b),
                None => ValueV::Error(ErrorKind::Ref),
            }
        },
        ValueV::Array2 { rows, cols, data } => {
            if rows == 1 && cols == 1 && data.len() == 1 {
                spec_ensure_single(data[0])
            } else {
                v
            }
        },
        _ => v,
    }
}

impl Value {
    pub fn as_num(&self) -> (r: Option<u64>)
        ensures
            r == spec_as_num(self@),
        decreases self,
    {
        match self {
            Value::Num(b) => Some(*b),
            Value::Bool(b) => Some(
                if *b {
                    ONE_BITS
                } else {
                    0u64
                },
            ),
            Value::Text(t) => {
                let ts = t.as_str();
                if ts.unicode_len() <= 1000000 {
                    crate::num::num_parse(ts)
                } else {
                    None
                }
            },
            Value::Array2(m) => {
                proof {
                    lemma_view_of_seq(m.data@);
                }
                if m.rows == 1 && m.cols == 1 && m.data.len() == 1 {
                    m.data[0].as_num()
                } else {
                    None
                }
            },
            _ => None,
        }
    }

    pub fn as_bool(&self) -> (r: Option<bool>)
        ensures
            r == spec_as_bool(self@),
    {
        match self {
            Value::Bool(b) => Some(*b),
            Value::Num(b) => {
                if crate::num::num_eq(*b, ONE_BITS) {
                    Some(true)
                } else if crate::num::num_eq(*b, 0u64) {
                    Some(false)
                } else {
                    None
                }
            },
            _ => None,
        }
    }

    pub fn as_text(&self) -> (r: Option<String>)
        ensures
            match r {
                Some(s) => spec_as_text(self@) == Some(s@),
                None => spec_as_text(self@) is None,
            },
    {
        match self {
            Value::Text(t) => Some(t.clone()),
            Value::Formula(t) => Some(t.clone()),
            Value::Num(b) => Some(crate::num::num_fmt(*b)),
            Value::Bool(b) => Some(
                if *b {
                    "TRUE".to_owned()
                } else {
                    "FALSE".to_owned()
                },
            ),
            Value::Empty => {
                let s = String::new();
                assert(s@ =~= Seq::<char>::empty());
                Some(s)
            },
            Value::Error(k) => Some(error_text(*k)),
            _ => None,
        }
    }

    pub fn as_date(&self) -> (r: Option<Date>)
        ensures
            match self@ {
                ValueV::Date(d) => r == Some(d),
                _ => r is None,
            },
    {
        match self {
            Value::Date(d) => Some(*d),
            _ => None,
        }
    }

    pub fn as_array(&self) -> (r: Option<Vec<Value>>)
        ensures
            match r {
                Some(a) => self@ matches ValueV::Array(s) && view_of_seq(a@) == s,
                None => !(self@ is Array),
            },
    {
        match self {
            Value::Array(a) => Some(clone_values(a)),
            _ => None,
        }
    }

    pub fn ensure_single(&self) -> (r: Value)
        ensures
            r@ == spec_ensure_single(self@),
        decreases self,
    {
        match self {
            Value::Range { sheet: _, reference: _, value } => {
                match value {
                    Some(b) => (**b).ensure_single(),
                    None => Value::Error(ErrorKind::Ref),
                }
            },
            Value::Array2(m) => {
                proof {
                    lemma_view_of_seq(m.data@);
                }
                if m.rows == 1 && m.cols == 1 && m.data.len() == 1 {
                    m.data[0].ensure_single()
                } else {
                    self.clone()
                }
            },
            _ => self.clone(),
        }
    }
}

} // verus!