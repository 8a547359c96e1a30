//! The expression evaluator: literals are themselves, operators apply
//! over the value domain, function calls dispatch through the registry.

use vstd::prelude::*;
use crate::ast::{Expr, ExprV};
use crate::errors::Error;
use crate::functions;
use crate::num::bits_of_i64;
use crate::ops::{apply_binop, scalar_op, spec_binop, spec_scalar_op, spec_value_neg,
    spec_value_percent, value_neg, value_percent, Op};
use crate::value::{view_of_seq, ErrorKind, Value, ValueV};

verus! {

/// Arguments of modest size and count, as the counting functions ask.
pub open spec fn spec_args_ok(vals: Seq<ValueV>) -> bool {
    vals.len() <= 16384 && functions::spec_args_small(vals)
}

/// What the registry returns for a function name over already
/// evaluated arguments; `None` names an unsupported function.
pub open spec fn spec_apply_function(name: Seq<char>, vals: Seq<ValueV>) -> Option<ValueV> {
    if name == "SUM"@ {
        Some(functions::spec_sum(vals, 0, ValueV::Num(bits_of_i64(0))))
    } else if name == "AVERAGE"@ {
        Some(
            if spec_args_ok(vals) {
                functions::spec_average(vals)
            } else {
                ValueV::Error(ErrorKind::Value)
            },
        )
    } else if name == "COUNT"@ {
        Some(
            if spec_args_ok(vals) {
                ValueV::Num(bits_of_i64(functions::spec_count_nums(vals, 0) as i64))
            } else {
                ValueV::Error(ErrorKind::Value)
            },
        )
    } else if name == "COUNTA"@ {
        Some(
            if spec_args_ok(vals) {
                ValueV::Num(bits_of_i64(functions::spec_counta(vals, 0) as i64))
            } else {
                ValueV::Error(ErrorKind::Value)
            },
        )
    } else if name == "MAX"@ {
        Some(
            if vals.len() == 0 {
                ValueV::Error(ErrorKind::Value)
            } else {
                functions::spec_extreme(vals, 0, vals[0], true)
            },
        )
    } else if name == "MIN"@ {
        Some(
            if vals.len() == 0 {
                ValueV::Error(ErrorKind::Value)
            } else {
                functions::spec_extreme(vals, 0, vals[0], false)
            },
        )
    } else if name == "EXPONENT"@ {
        Some(
            if vals.len() >= 2 {
                spec_scalar_op(Op::Exponent, functions::spec_nv(vals[0]), functions::spec_nv(
                    vals[1],
                ))
            } else {
                ValueV::Error(ErrorKind::Value)
            },
        )
    } else if name == "CONCAT"@ {
        Some(
            if vals.len() >= 2 {
                match (crate::value::spec_as_text(vals[0]), crate::value::spec_as_text(vals[1])) {
                    (Some(x), Some(y)) => ValueV::Text(x + y),
                    _ => ValueV::Error(ErrorKind::Value),
                }
            } else {
                ValueV::Error(ErrorKind::Value)
            },
        )
    } else if name == "AND"@ {
        Some(
            if vals.len() >= 2 {
                match (crate::value::spec_as_bool(vals[0]), crate::value::spec_as_bool(vals[1])) {
                    (Some(x), Some(y)) => ValueV::Bool(x && y),
                    _ => ValueV::Error(ErrorKind::Value),
                }
            } else {
                ValueV::Error(ErrorKind::Value)
            },
        )
    } else if name == "OR"@ {
        Some(
            if vals.len() >= 2 {
                match (crate::value::spec_as_bool(vals[0]), crate::value::spec_as_bool(vals[1])) {
                    (Some(x), Some(y)) => ValueV::Bool(x || y),
                    _ => ValueV::Error(ErrorKind::Value),
                }
            } else {
                ValueV::Error(ErrorKind::Value)
            },
        )
    } else if name == "IF"@ {
        Some(
            if vals.len() >= 3 {
                match crate::value::spec_as_bool(vals[0]) {
                    Some(true) => vals[1],
                    Some(false) => vals[2],
                    None => ValueV::Error(ErrorKind::Value),
                }
            } else {
                ValueV::Error(ErrorKind::Value)
            },
        )
    } else if name == "IFERROR"@ {
        Some(
            if vals.len() >= 2 {
                if vals[0] is Error {
                    vals[1]
                } else {
                    vals[0]
                }
            } else {
                ValueV::Error(ErrorKind::Value)
            },
        )
    } else if name == "MATCH"@ {
        Some(
            if vals.len() >= 3 && (vals[1] matches ValueV::Array(a) ==> a.len() <= 0x10000000) {
                functions::spec_matchfn(vals[0], vals[1], vals[2])
            } else {
                ValueV::Error(ErrorKind::Value)
            },
        )
    } else if name == "DATE"@ {
        Some(
            if vals.len() >= 3 {
                functions::spec_date_fn(vals[0], vals[1], vals[2])
            } else {
                ValueV::Error(ErrorKind::Value)
            },
        )
    } else if name == "YEAR"@ {
        Some(
            if vals.len() >= 1 {
                match vals[0] {
                    ValueV::Date(d) => ValueV::Num(bits_of_i64(d.year as i64)),
                    _ => ValueV::Error(ErrorKind::Value),
                }
            } else {
                ValueV::Error(ErrorKind::Value)
            },
        )
    } else if name == "MONTH"@ {
        Some(
            if vals.len() >= 1 {
                match vals[0] {
                    ValueV::Date(d) => ValueV::Num(bits_of_i64(d.month as i64)),
                    _ => ValueV::Error(ErrorKind::Value),
                }
            } else {
                ValueV::Error(ErrorKind::Value)
            },
        )
    } else if name == "EOMONTH"@ {
        Some(
            if vals.len() >= 2 {
                functions::spec_eomonth_fn(vals[0], vals[1])
            } else {
                ValueV::Error(ErrorKind::Value)
            },
        )
    } else if name == "DATEDIF"@ {
        Some(
            if vals.len() >= 3 {
                functions::spec_datedif(vals[0], vals[1], vals[2])
            } else {
                ValueV::Error(ErrorKind::Value)
            },
        )
    } else if name == "YEARFRAC"@ {
        Some(
            if vals.len() >= 2 {
                functions::spec_yearfrac(vals[0], vals[1])
            } else {
                ValueV::Error(ErrorKind::Value)
            },
        )
    } else if name == "FLOOR"@ {
        Some(
            if vals.len() >= 1 {
                match crate::value::spec_as_num(vals[0]) {
                    Some(b) => ValueV::Num(crate::num::floor_bits(b)),
                    None => ValueV::Error(ErrorKind::Value),
                }
            } else {
                ValueV::Error(ErrorKind::Value)
            },
        )
    } else if name == "ROUNDDOWN"@ {
        Some(
            if vals.len() >= 2 {
                functions::spec_rounddown(vals[0], vals[1])
            } else {
                ValueV::Error(ErrorKind::Value)
            },
        )
    } else if name == "ROUNDUP"@ {
        Some(
            if vals.len() >= 2 {
                functions::spec_roundup(vals[0], vals[1])
            } else {
                ValueV::Error(ErrorKind::Value)
            },
        )
    } else if name == "SUMIF"@ {
        Some(
            if vals.len() >= 2 {
                functions::spec_sumif(vals[0], vals[1], if vals.len() >= 3 {
                    Some(vals[2])
                } else {
                    None
                })
            } else {
                ValueV::Error(ErrorKind::Value)
            },
        )
    } else if name == "COUNTIF"@ {
        Some(
            if vals.len() >= 2 && (vals[0] matches ValueV::Array(a) ==> a.len() <= 0x10000000) {
                functions::spec_countif(vals[0], vals[1])
            } else {
                ValueV::Error(ErrorKind::Value)
            },
        )
    } else if name == "AVERAGEIF"@ {
        Some(
            if vals.len() >= 2 && (vals[0] matches ValueV::Array(a) ==> a.len() <= 0x10000000) {
                functions::spec_averageif(vals[0], vals[1], if vals.len() >= 3 {
                    Some(vals[2])
                } else {
                    None
                })
            } else {
                ValueV::Error(ErrorKind::Value)
            },
        )
    } else if name == "SUMIFS"@ {
        Some(
            if vals.len() >= 1 {
                functions::spec_sumifs(vals[0], vals.skip(1))
            } else {
                ValueV::Error(ErrorKind::Value)
            },
        )
    } else if name == "COUNTIFS"@ {
        Some(
            if vals.len() >= 1 && (vals[0] matches ValueV::Array(a) ==> a.len() <= 0x10000000) {
                functions::spec_countifs(vals)
            } else {
                ValueV::Error(ErrorKind::Value)
            },
        )
    } else if name == "AVERAGEIFS"@ {
        Some(
            if vals.len() >= 1 && (vals[0] matches ValueV::Array(a) ==> a.len() <= 0x10000000) {
                functions::spec_averageifs(vals[0], vals.skip(1))
            } else {
                ValueV::Error(ErrorKind::Value)
            },
        )
    } else if name == "XIRR"@ {
        Some(
            if vals.len() >= 2 {
                functions::spec_xirr(vals[0], vals[1])
            } else {
                ValueV::Error(ErrorKind::Value)
            },
        )
    } else if name == "XNPV"@ {
        Some(
            if vals.len() >= 3 {
                functions::spec_xnpv(vals[0], vals[1], vals[2])
            } else {
                ValueV::Error(ErrorKind::Value)
            },
        )
    } else if name == "SEARCH"@ {
        Some(
            if vals.len() >= 3 {
                functions::spec_search(vals[0], vals[1], Some(vals[2]))
            } else if vals.len() >= 2 {
                functions::spec_search(vals[0], vals[1], None)
            } else {
                ValueV::Error(ErrorKind::Value)
            },
        )
    } else if name == "SUMPRODUCT"@ {
        Some(functions::spec_sumproduct(vals))
    } else if name == "PMT"@ {
        Some(
            if vals.len() >= 3 {
                functions::spec_pmt(vals[0], vals[1], vals[2], if vals.len() >= 4 {
                    Some(vals[3])
                } else {
                    None
                }, if vals.len() >= 5 {
                    Some(vals[4])
                } else {
                    None
                })
            } else {
                ValueV::Error(ErrorKind::Value)
            },
        )
    } else {
        None
    }
}

/// The arguments after the first, cloned; the view is the tail of the
/// argument views.
fn tail_values(v: &Vec<Value>, from: usize) -> (out: Vec<Value>)
    requires
        from <= v@.len(),
    ensures
        view_of_seq(out@) == view_of_seq(v@).skip(from as int),
{
    proof {
        crate::value::lemma_view_of_seq(v@);
    }
    let mut out: Vec<Value> = Vec::new();
    let mut i: usize = from;
    while i < v.len()
        invariant
            from <= i <= v@.len(),
            out@.len() == i - from,
            forall|k: int| 0 <= k < out@.len() ==> (#[trigger] out@[k])@ == v@[from + k]@,
            forall|k: int| 0 <= k < v@.len() ==> view_of_seq(v@)[k] == (#[trigger] v@[k])@,
            view_of_seq(v@).len() == v@.len(),
        decreases v@.len() - i,
    {
        let ghost old_out = out@;
        out.push(v[i].clone());
        proof {
            assert(out@.drop_last() =~= old_out);
            assert forall|k: int| 0 <= k < out@.len() implies (#[trigger] out@[k])@ == v@[from
                + k]@ by {
                if k < out@.len() - 1 {
                    assert(out@[k] == old_out[k]);
                } else {
                    assert(out@[k]@ == v@[i as int]@);
                }
            };
        }
        i = i + 1;
    }
    proof {
        crate::value::lemma_view_of_seq(out@);
        assert(view_of_seq(out@).len() == view_of_seq(v@).skip(from as int).len());
        assert forall|k: int| 0 <= k < out@.len() implies view_of_seq(out@)[k] == view_of_seq(
            v@,
        ).skip(from as int)[k] by {
            assert(view_of_seq(out@)[k] == out@[k]@);
            assert(out@[k]@ == v@[from + k]@);
            assert(view_of_seq(v@).skip(from as int)[k] == view_of_seq(v@)[from + k]);
        };
        assert(view_of_seq(out@) =~= view_of_seq(v@).skip(from as int));
    }
    out
}

/// Apply the named function to evaluated arguments; an unknown name is
/// the unsupported-function failure.
pub fn get_function_value(name: &str, args: Vec<Value>) -> (r: Result<Value, Error>)
    ensures
        match spec_apply_function(name@, view_of_seq(args@)) {
            Some(v) => r matches Ok(out) && out@ == v,
            None => r matches Err(e) && (e matches Error::UnsupportedFunction(n) && n@ == name@),
        },
{
    proof {
        crate::value::lemma_view_of_seq(args@);
    }
    let ghost vals = view_of_seq(args@);
    if crate::text::str_eq(name, "SUM") {
        Ok(functions::sum(&args))
    } else if crate::text::str_eq(name, "AVERAGE") {
        if args.len() <= 16384 && args_small(&args) {
            Ok(functions::average(&args))
        } else {
            Ok(Value::Error(ErrorKind::Value))
        }
    } else if crate::text::str_eq(name, "COUNT") {
        if args.len() <= 16384 && args_small(&args) {
            Ok(functions::count(&args))
        } else {
            Ok(Value::Error(ErrorKind::Value))
        }
    } else if crate::text::str_eq(name, "COUNTA") {
        if args.len() <= 16384 && args_small(&args) {
            Ok(functions::counta(&args))
        } else {
            Ok(Value::Error(ErrorKind::Value))
        }
    } else if crate::text::str_eq(name, "MAX") {
        Ok(functions::max(&args))
    } else if crate::text::str_eq(name, "MIN") {
        Ok(functions::min(&args))
    } else if crate::text::str_eq(name, "EXPONENT") {
        if args.len() >= 2 {
            Ok(functions::exponent(&args[0], &args[1]))
        } else {
            Ok(Value::Error(ErrorKind::Value))
        }
    } else if crate::text::str_eq(name, "CONCAT") {
        if args.len() >= 2 {
            Ok(functions::concat(&args[0], &args[1]))
        } else {
            Ok(Value::Error(ErrorKind::Value))
        }
    } else if crate::text::str_eq(name, "AND") {
        if args.len() >= 2 {
            Ok(functions::andfunc(&args[0], &args[1]))
        } else {
            Ok(Value::Error(ErrorKind::Value))
        }
    } else if crate::text::str_eq(name, "OR") {
        if args.len() >= 2 {
            Ok(functions::orfunc(&args[0], &args[1]))
        } else {
            Ok(Value::Error(ErrorKind::Value))
        }
    } else if crate::text::str_eq(name, "IF") {
        if args.len() >= 3 {
            let a = args[1].clone();
            let b = args[2].clone();
            Ok(functions::iffunc(&args[0], a, b))
        } else {
            Ok(Value::Error(ErrorKind::Value))
        }
    } else if crate::text::str_eq(name, "IFERROR") {
        if args.len() >= 2 {
            let a = args[0].clone();
            let b = args[1].clone();
            Ok(functions::iferror(a, b))
        } else {
            Ok(Value::Error(ErrorKind::Value))
        }
    } else if crate::text::str_eq(name, "MATCH") {
        let arr_ok = if args.len() >= 3 {
            match &args[1] {
                Value::Array(a) => {
                    proof {
                        crate::value::lemma_view_of_seq(a@);
                    }
                    a.len() <= 0x10000000
                },
                _ => true,
            }
        } else {
            false
        };
        if args.len() >= 3 && arr_ok {
            Ok(functions::matchfn(&args[0], &args[1], &args[2]))
        } else {
            Ok(Value::Error(ErrorKind::Value))
        }
    } else if crate::text::str_eq(name, "DATE") {
        if args.len() >= 3 {
            Ok(functions::date(&args[0], &args[1], &args[2]))
        } else {
            Ok(Value::Error(ErrorKind::Value))
        }
    } else if crate::text::str_eq(name, "YEAR") {
        if args.len() >= 1 {
            Ok(functions::year(&args[0]))
        } else {
            Ok(Value::Error(ErrorKind::Value))
        }
    } else if crate::text::str_eq(name, "MONTH") {
        if args.len() >= 1 {
            Ok(functions::month(&args[0]))
        } else {
            Ok(Value::Error(ErrorKind::Value))
        }
    } else if crate::text::str_eq(name, "EOMONTH") {
        if args.len() >= 2 {
            Ok(functions::eomonth(&args[0], &args[1]))
        } else {
            Ok(Value::Error(ErrorKind::Value))
        }
    } else if crate::text::str_eq(name, "DATEDIF") {
        if args.len() >= 3 {
            Ok(functions::datedif(&args[0], &args[1], &args[2]))
        } else {
            Ok(Value::Error(ErrorKind::Value))
        }
    } else if crate::text::str_eq(name, "YEARFRAC") {
        if args.len() >= 2 {
            Ok(functions::yearfrac(&args[0], &args[1]))
        } else {
            Ok(Value::Error(ErrorKind::Value))
        }
    } else if crate::text::str_eq(name, "FLOOR") {
        if args.len() >= 1 {
            let one = Value::Num(crate::num::num_from_i64(1));
            Ok(functions::floor(&args[0], &one))
        } else {
            Ok(Value::Error(ErrorKind::Value))
        }
    } else if crate::text::str_eq(name, "ROUNDDOWN") {
        if args.len() >= 2 {
            Ok(functions::rounddown(&args[0], &args[1]))
        } else {
            Ok(Value::Error(ErrorKind::Value))
        }
    } else if crate::text::str_eq(name, "ROUNDUP") {
        if args.len() >= 2 {
            Ok(functions::roundup(&args[0], &args[1]))
        } else {
            Ok(Value::Error(ErrorKind::Value))
        }
    } else if crate::text::str_eq(name, "SUMIF") {
        if args.len() >= 3 {
            Ok(functions::sumif(&args[0], &args[1], Some(&args[2])))
        } else if args.len() >= 2 {
            Ok(functions::sumif(&args[0], &args[1], None))
        } else {
            Ok(Value::Error(ErrorKind::Value))
        }
    } else if crate::text::str_eq(name, "COUNTIF") {
        if args.len() >= 2 && first_arg_modest(&args) {
            Ok(functions::countif(&args[0], &args[1]))
        } else {
            Ok(Value::Error(ErrorKind::Value))
        }
    } else if crate::text::str_eq(name, "AVERAGEIF") {
        if args.len() >= 2 && first_arg_modest(&args) {
            if args.len() >= 3 {
                Ok(functions::averageif(&args[0], &args[1], Some(&args[2])))
            } else {
                Ok(functions::averageif(&args[0], &args[1], None))
            }
        } else {
            Ok(Value::Error(ErrorKind::Value))
        }
    } else if crate::text::str_eq(name, "SUMIFS") {
        if args.len() >= 1 {
            let pairs = tail_values(&args, 1);
            Ok(functions::sumifs(&args[0], &pairs))
        } else {
            Ok(Value::Error(ErrorKind::Value))
        }
    } else if crate::text::str_eq(name, "COUNTIFS") {
        if args.len() >= 1 && first_arg_modest(&args) {
            Ok(functions::countifs(&args))
        } else {
            Ok(Value::Error(ErrorKind::Value))
        }
    } else if crate::text::str_eq(name, "AVERAGEIFS") {
        if args.len() >= 1 && first_arg_modest(&args) {
            let pairs = tail_values(&args, 1);
            Ok(functions::averageifs(&args[0], &pairs))
        } else {
            Ok(Value::Error(ErrorKind::Value))
        }
    } else if crate::text::str_eq(name, "XIRR") {
        if args.len() >= 2 {
            Ok(functions::xirrfunc(&args[0], &args[1]))
        } else {
            Ok(Value::Error(ErrorKind::Value))
        }
    } else if crate::text::str_eq(name, "XNPV") {
        if args.len() >= 3 {
            Ok(functions::xnpv(&args[0], &args[1], &args[2]))
        } else {
            Ok(Value::Error(ErrorKind::Value))
        }
    } else if crate::text::str_eq(name, "SEARCH") {
        if args.len() >= 3 {
            Ok(functions::search(&args[0], &args[1], Some(&args[2])))
        } else if args.len() >= 2 {
            Ok(functions::search(&args[0], &args[1], None))
        } else {
            Ok(Value::Error(ErrorKind::Value))
        }
    } else if crate::text::str_eq(name, "SUMPRODUCT") {
        Ok(functions::sumproduct(&args))
    } else if crate::text::str_eq(name, "PMT") {
        if args.len() >= 5 {
            Ok(functions::pmt(&args[0], &args[1], &args[2], Some(&args[3]), Some(&args[4])))
        } else if args.len() >= 4 {
            Ok(functions::pmt(&args[0], &args[1], &args[2], Some(&args[3]), None))
        } else if args.len() >= 3 {
            Ok(functions::pmt(&args[0], &args[1], &args[2], None, None))
        } else {
            Ok(Value::Error(ErrorKind::Value))
        }
    } else {
        Err(Error::UnsupportedFunction(name.to_owned()))
    }
}

/// Whether the first argument, if an array, is of modest length.
fn first_arg_modest(args: &Vec<Value>) -> (r: bool)
    requires
        args@.len() >= 1,
    ensures
        r == (view_of_seq(args@)[0] matches ValueV::Array(a) ==> a.len() <= 0x10000000),
{
    proof {
        crate::value::lemma_view_of_seq(args@);
    }
    match &args[0] {
        Value::Array(a) => {
            proof {
                crate::value::lemma_view_of_seq(a@);
            }
            a.len() <= 0x10000000
        },
        _ => true,
    }
}

fn args_small(args: &Vec<Value>) -> (r: bool)
    ensures
        r == functions::spec_args_small(view_of_seq(args@)),
{
    proof {
        crate::value::lemma_view_of_seq(args@);
    }
    let mut i: usize = 0;
    while i < args.len()
        invariant
            i <= args@.len(),
            forall|k: int|
                0 <= k < i ==> functions::spec_arg_small(#[trigger] view_of_seq(args@)[k]),
            view_of_seq(args@).len() == args@.len(),
            forall|k: int|
                0 <= k < args@.len() ==> view_of_seq(args@)[k] == (#[trigger] args@[k])@,
        decreases args@.len() - i,
    {
        let ok = match &args[i] {
            Value::Array(a) => {
                proof {
                    crate::value::lemma_view_of_seq(a@);
                }
                a.len() <= 65536
            },
            Value::Array2(m) => {
                proof {
                    crate::value::lemma_view_of_seq(m.data@);
                }
                m.data.len() <= 65536
            },
            _ => true,
        };
        if !ok {
            proof {
                assert(!functions::spec_arg_small(view_of_seq(args@)[i as int]));
            }
            return false;
        }
        proof {
            assert(functions::spec_arg_small(view_of_seq(args@)[i as int]));
        }
        i = i + 1;
    }
    true
}

/// What an expression evaluates to with no workbook behind it: a
/// literal is itself, a reference is the reference error, operators
/// apply scalar-wise, arrays evaluate elementwise, and function calls
/// go through the registry (an unknown name is the name error).
pub open spec fn spec_eval(e: ExprV) -> ValueV
    decreases e, 0int,
{
    match e {
        ExprV::Literal(v) => v,
        ExprV::Error(k) => ValueV::Error(k),
        ExprV::Reference { sheet, reference } => ValueV::Error(ErrorKind::Ref),
        ExprV::Infix(op, a, b) => spec_binop(op, spec_eval(*a), spec_eval(*b)),
        ExprV::Prefix(op, a) => (if op == Op::Minus {
            spec_value_neg(spec_eval(*a))
        } else {
            ValueV::Error(ErrorKind::Value)
        }),
        ExprV::Postfix(op, a) => spec_value_percent(spec_eval(*a)),
        ExprV::Func { name, args } => {
            match spec_apply_function(name, spec_eval_seq(args, 0)) {
                Some(v) => v,
                None => ValueV::Error(ErrorKind::Name),
            }
        },
        ExprV::Array(items) => ValueV::Array(spec_eval_seq(items, 0)),
    }
}

pub open spec fn spec_eval_seq(s: Seq<ExprV>, i: int) -> Seq<ValueV>
    decreases s, s.len() - i,
{
    if i < 0 || i >= s.len() {
        Seq::empty()
    } else {
        seq![spec_eval(s[i])] + spec_eval_seq(s, i + 1)
    }
}

/// Evaluate an expression with no workbook: in particular a literal
/// evaluates to exactly its value.
pub fn evaluate(e: &Expr) -> (r: Value)
    ensures
        r@ == spec_eval(e@),
        e@ matches ExprV::Literal(v) ==> r@ == v,
    decreases e,
{
    match e {
        Expr::Literal(v) => v.clone(),
        Expr::Error(k) => Value::Error(*k),
        Expr::Reference { sheet: _, reference: _ } => Value::Error(ErrorKind::Ref),
        Expr::Infix(op, a, b) => {
            let va = evaluate(a);
            let vb = evaluate(b);
            apply_binop(*op, &va, &vb)
        },
        Expr::Prefix(op, a) => {
            let va = evaluate(a);
            if matches!(op, Op::Minus) {
                value_neg(&va)
            } else {
                Value::Error(ErrorKind::Value)
            }
        },
        Expr::Postfix(_, a) => {
            let va = evaluate(a);
            value_percent(&va)
        },
        Expr::Func { name, args } => {
            let vals = eval_seq(args, 0);
            proof {
                crate::value::lemma_view_of_seq(vals@);
            }
            match get_function_value(name.as_str(), vals) {
                Ok(v) => v,
                Err(_) => Value::Error(ErrorKind::Name),
            }
        },
        Expr::Array(items) => {
            let vals = eval_seq(items, 0);
            Value::Array(vals)
        },
    }
}

fn eval_seq(items: &Vec<Expr>, i: usize) -> (r: Vec<Value>)
    requires
        i <= items@.len(),
    ensures
        view_of_seq(r@) == spec_eval_seq(crate::ast::view_of_exprs(items@), i as int),
    decreases items, items@.len() - i,
{
    proof {
        crate::ast::lemma_view_of_exprs(items@);
    }
    if i >= items.len() {
        let out: Vec<Value> = Vec::new();
        proof {
            assert(view_of_seq(out@) =~= Seq::<ValueV>::empty());
        }
        out
    } else {
        let head = evaluate(&items[i]);
        let rest = eval_seq(items, i + 1);
        let mut out: Vec<Value> = Vec::new();
        out.push(head);
        let mut j: usize = 0;
        proof {
            crate::value::lemma_view_of_seq(rest@);
        }
        while j < rest.len()
            invariant
                j <= rest@.len(),
                out@.len() == j + 1,
                forall|k: int| 0 <= k < rest@.len() ==> view_of_seq(rest@)[k] == (#[trigger] rest@[k])@,
                view_of_seq(rest@).len() == rest@.len(),
                out@[0]@ == spec_eval(crate::ast::view_of_exprs(items@)[i as int]),
                forall|k: int| 1 <= k < out@.len() ==> (#[trigger] out@[k])@ == view_of_seq(rest@)[k - 1],
            decreases rest@.len() - j,
        {
            let ghost old_out = out@;
            out.push(rest[j].clone());
            proof {
                assert(out@.drop_last() =~= old_out);
                assert forall|k: int| 1 <= k < out@.len() implies (#[trigger] out@[k])@
                    == view_of_seq(rest@)[k - 1] by {
                    if k < out@.len() - 1 {
                        assert(out@[k] == old_out[k]);
                    } else {
                        assert(out@[k]@ == rest@[j as int]@);
                    }
                };
            }
            j = j + 1;
        }
        proof {
            crate::value::lemma_view_of_seq(out@);
            let sv = crate::ast::view_of_exprs(items@);
            let goal = spec_eval_seq(sv, i as int);
            assert(goal == seq![spec_eval(sv[i as int])] + spec_eval_seq(sv, i as int + 1));
            assert(view_of_seq(out@).len() == goal.len());
            assert forall|k: int| 0 <= k < goal.len() implies view_of_seq(out@)[k] == goal[k] by {
                if k == 0 {
                    assert(view_of_seq(out@)[0] == out@[0]@);
                } else {
                    assert(view_of_seq(out@)[k] == out@[k]@);
                }
            };
            assert(view_of_seq(out@) =~= goal);
        }
        out
    }
}

} // verus!