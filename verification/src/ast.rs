//! The expression tree a formula parses into, immutable after parse.

use vstd::prelude::*;
use crate::ops::Op;
use crate::value::{view_of_sheet_name, Value, ValueV};

verus! {

/// A parsed formula expression.
#[derive(Debug)]
pub enum Expr {
    Literal(Value),
    Reference { sheet: Option<String>, reference: String },
    Infix(Op, Box<Expr>, Box<Expr>),
    Prefix(Op, Box<Expr>),
    Postfix(Op, Box<Expr>),
    Func { name: String, args: Vec<Expr> },
    Array(Vec<Expr>),
    Error(crate::value::ErrorKind),
}

/// The mathematical model of an expression.
pub enum ExprV {
    Literal(ValueV),
    Reference { sheet: Option<Seq<char>>, reference: Seq<char> },
    Infix(Op, Box<ExprV>, Box<ExprV>),
    Prefix(Op, Box<ExprV>),
    Postfix(Op, Box<ExprV>),
    Func { name: Seq<char>, args: Seq<ExprV> },
    Array(Seq<ExprV>),
    Error(crate::value::ErrorKind),
}

pub open spec fn view_of_exprs(s: Seq<Expr>) -> Seq<ExprV>
    decreases s,
{
    if s.len() == 0 {
        Seq::empty()
    } else {
        view_of_exprs(s.drop_last()).push(s.last()@)
    }
}

impl View for Expr {
    type V = ExprV;

    open spec fn view(&self) -> ExprV
        decreases self,
    {
        match self {
            Expr::Literal(v) => ExprV::Literal(v@),
            Expr::Reference { sheet, reference } => ExprV::Reference {
                sheet: view_of_sheet_name(*sheet),
                reference: reference@,
            },
            Expr::Infix(op, a, b) => ExprV::Infix(*op, Box::new((**a)@), Box::new((**b)@)),
            Expr::Prefix(op, a) => ExprV::Prefix(*op, Box::new((**a)@)),
            Expr::Postfix(op, a) => ExprV::Postfix(*op, Box::new((**a)@)),
            Expr::Func { name, args } => ExprV::Func { name: name@, args: view_of_exprs(args@) },
            Expr::Array(a) => ExprV::Array(view_of_exprs(a@)),
            Expr::Error(k) => ExprV::Error(*k),
        }
    }
}

/// The views of a sequence of expressions, elementwise.
pub proof fn lemma_view_of_exprs(s: Seq<Expr>)
    ensures
        view_of_exprs(s).len() == s.len(),
        forall|i: int| 0 <= i < s.len() ==> view_of_exprs(s)[i] == (#[trigger] s[i])@,
    decreases s,
{
    if s.len() > 0 {
        lemma_view_of_exprs(s.drop_last());
        assert forall|i: int| 0 <= i < s.len() implies view_of_exprs(s)[i] == (#[trigger] s[i])@ by {
            let x = view_of_exprs(s.drop_last());
            let y = s.last()@;
            assert(view_of_exprs(s) == x.push(y));
            assert(x.len() == s.len() - 1);
            if i < s.len() - 1 {
                assert(x.push(y)[i] == x[i]);
                assert(s.drop_last()[i] == s[i]);
            } else {
                assert(x.push(y)[i] == y);
            }
        };
    }
}

} // verus!