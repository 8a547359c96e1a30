use formulae::ast::Expr;
use formulae::ops::{scalar_op, Op};
use formulae::reference::{Cell, Reference};
use formulae::date::Date;
use formulae::evaluate::evaluate;
use formulae::functions;
use formulae::value::{Array2, ErrorKind, Value};

fn n(x: f64) -> Value {
    Value::Num(x.to_bits())
}

fn lit(x: f64) -> Expr {
    Expr::Literal(n(x))
}

fn call(name: &str, args: Vec<Expr>) -> Expr {
    Expr::Func { name: name.to_owned(), args }
}

fn grid2x2(a: f64, b: f64, c: f64, d: f64) -> Value {
    Value::Array2(Array2 { rows: 2, cols: 2, data: vec![n(a), n(b), n(c), n(d)] })
}

// SUM(1,2,3,4,5) is 15.
#[test]
fn test_sum() {
    let e = call("SUM", vec![lit(1.0), lit(2.0), lit(3.0), lit(4.0), lit(5.0)]);
    assert_eq!(evaluate(&e), n(15.0));
    // SUM({1,2;3,4}) is 10 (the row-separated array literal evaluates
    // to a 2x2 matrix)
    let e2 = call("SUM", vec![Expr::Literal(grid2x2(1.0, 2.0, 3.0, 4.0))]);
    assert_eq!(evaluate(&e2), n(10.0));
    // SUM({1,2,3,4,5},6,"7") is 28: text coerces by decimal parse
    let arr = Value::Array(vec![n(1.0), n(2.0), n(3.0), n(4.0), n(5.0)]);
    let e3 = call(
        "SUM",
        vec![Expr::Literal(arr), lit(6.0), Expr::Literal(Value::Text("7".to_owned()))],
    );
    assert_eq!(evaluate(&e3), n(28.0));
    // SUM({1,"2",TRUE,4}) is 5: non-numbers inside an array are skipped
    let arr2 = Value::Array(vec![
        n(1.0),
        Value::Text("2".to_owned()),
        Value::Bool(true),
        n(4.0),
    ]);
    assert_eq!(evaluate(&call("SUM", vec![Expr::Literal(arr2)])), n(5.0));
}

#[test]
fn test_average() {
    let e = call("AVERAGE", vec![lit(1.0), lit(2.0), lit(3.0), lit(4.0), lit(5.0)]);
    assert_eq!(evaluate(&e), n(3.0));
    // AVERAGE({1,2;3,4}) is 2.5
    let e2 = call("AVERAGE", vec![Expr::Literal(grid2x2(1.0, 2.0, 3.0, 4.0))]);
    assert_eq!(evaluate(&e2), n(2.5));
    // AVERAGE({1,2,3,4,5},6,"7") is 4: seven counted values sum to 28
    let arr15 = Value::Array(vec![n(1.0), n(2.0), n(3.0), n(4.0), n(5.0)]);
    let e25 = call(
        "AVERAGE",
        vec![Expr::Literal(arr15), lit(6.0), Expr::Literal(Value::Text("7".to_owned()))],
    );
    assert_eq!(evaluate(&e25), n(4.0));
    // AVERAGE({1,"2",TRUE,4}) is 2.5: text and booleans are ignored in
    // array aggregates
    let arr = Value::Array(vec![
        n(1.0),
        Value::Text("2".to_owned()),
        Value::Bool(true),
        n(4.0),
    ]);
    assert_eq!(evaluate(&call("AVERAGE", vec![Expr::Literal(arr)])), n(2.5));
}

#[test]
fn test_count() {
    let e = call("COUNT", vec![lit(1.0), lit(2.0), lit(3.0), lit(4.0), lit(5.0)]);
    assert_eq!(evaluate(&e), n(5.0));
    let arr = Value::Array(vec![n(1.0), n(2.0), n(3.0), n(4.0), n(5.0)]);
    assert_eq!(evaluate(&call("COUNT", vec![Expr::Literal(arr.clone())])), n(5.0));
    let e3 = call(
        "COUNT",
        vec![Expr::Literal(arr), lit(6.0), Expr::Literal(Value::Text("7".to_owned()))],
    );
    assert_eq!(evaluate(&e3), n(7.0));
}

#[test]
fn test_counta() {
    let e = call("COUNTA", vec![lit(1.0), lit(2.0), lit(3.0), lit(4.0), lit(5.0)]);
    assert_eq!(evaluate(&e), n(5.0));
    let arr = Value::Array(vec![n(1.0), n(2.0), n(3.0), n(4.0), n(5.0)]);
    assert_eq!(evaluate(&call("COUNTA", vec![Expr::Literal(arr.clone())])), n(5.0));
    let e3 = call(
        "COUNTA",
        vec![Expr::Literal(arr), lit(6.0), Expr::Literal(Value::Text("7".to_owned()))],
    );
    assert_eq!(evaluate(&e3), n(7.0));
}

#[test]
fn test_concat() {
    let e = call(
        "CONCAT",
        vec![
            Expr::Literal(Value::Text("test".to_owned())),
            Expr::Literal(Value::Text("func".to_owned())),
        ],
    );
    assert_eq!(evaluate(&e), Value::Text("testfunc".to_owned()));
}

#[test]
fn test_and() {
    let e = call(
        "AND",
        vec![Expr::Literal(Value::Bool(true)), Expr::Literal(Value::Bool(true))],
    );
    assert_eq!(evaluate(&e), Value::Bool(true));
}

#[test]
fn test_or() {
    let e = call(
        "OR",
        vec![Expr::Literal(Value::Bool(true)), Expr::Literal(Value::Bool(false))],
    );
    assert_eq!(evaluate(&e), Value::Bool(true));
}

#[test]
fn test_max_min() {
    let e = call("MAX", vec![lit(1.0), lit(5.0), lit(10.0)]);
    assert_eq!(evaluate(&e), n(10.0));
    let e2 = call("MIN", vec![lit(1.0), lit(5.0), lit(10.0)]);
    assert_eq!(evaluate(&e2), n(1.0));
}

#[test]
fn test_match() {
    let arr = Value::Array(vec![n(1.0), n(2.0), n(3.0), n(4.0), n(5.0)]);
    let e = call("MATCH", vec![lit(3.0), Expr::Literal(arr), lit(0.0)]);
    assert_eq!(evaluate(&e), n(3.0));
    // type 1 reports the position in the ascending-sorted array of the
    // last element at most the lookup value
    let arr2 = Value::Array(vec![n(3.0), n(1.0)]);
    let e2 = call("MATCH", vec![lit(2.0), Expr::Literal(arr2), lit(1.0)]);
    assert_eq!(evaluate(&e2), n(1.0));
    // type -1 reports the last element at least the value, in the
    // array's own order
    let arr3 = Value::Array(vec![n(5.0), n(4.0), n(2.0)]);
    let e3 = call("MATCH", vec![lit(3.0), Expr::Literal(arr3), lit(-1.0)]);
    assert_eq!(evaluate(&e3), n(2.0));
    // no hit is the NA error
    let arr4 = Value::Array(vec![n(5.0)]);
    let e4 = call("MATCH", vec![lit(3.0), Expr::Literal(arr4), lit(1.0)]);
    assert_eq!(evaluate(&e4), Value::Error(ErrorKind::NA));
}

// IFERROR(#VALUE!, 1) is 1; IFERROR keeps a non-error subject.
#[test]
fn test_iferror() {
    let e = call(
        "IFERROR",
        vec![Expr::Literal(Value::Error(ErrorKind::Value)), lit(1.0)],
    );
    assert_eq!(evaluate(&e), n(1.0));
    let e2 = call("IFERROR", vec![lit(9.0), lit(1.0)]);
    assert_eq!(evaluate(&e2), n(9.0));
}

#[test]
fn test_if() {
    let e = call("IF", vec![Expr::Literal(Value::Bool(true)), lit(1.0), lit(2.0)]);
    assert_eq!(evaluate(&e), n(1.0));
    let e2 = call("IF", vec![Expr::Literal(Value::Bool(false)), lit(1.0), lit(2.0)]);
    assert_eq!(evaluate(&e2), n(2.0));
}

#[test]
fn test_date() {
    let e = call("DATE", vec![lit(2022.0), lit(1.0), lit(1.0)]);
    assert_eq!(evaluate(&e), Value::Date(Date { year: 2022, month: 1, day: 1 }));
}

// EOMONTH lands on the last day of the shifted month.
#[test]
fn test_eomonth() {
    let d = |y: i32, m: u8, dd: u8| Expr::Literal(Value::Date(Date { year: y, month: m, day: dd }));
    let ex = |y: i32, m: u8, dd: u8| Value::Date(Date { year: y, month: m, day: dd });
    assert_eq!(evaluate(&call("EOMONTH", vec![d(2004, 2, 29), lit(12.0)])), ex(2005, 2, 28));
    assert_eq!(evaluate(&call("EOMONTH", vec![d(2004, 2, 28), lit(12.0)])), ex(2005, 2, 28));
    assert_eq!(evaluate(&call("EOMONTH", vec![d(2004, 1, 15), lit(-23.0)])), ex(2002, 2, 28));
    assert_eq!(evaluate(&call("EOMONTH", vec![d(2004, 1, 15), lit(0.0)])), ex(2004, 1, 31));
}

#[test]
fn test_datedif() {
    let d1 = || Expr::Literal(Value::Date(Date { year: 2004, month: 2, day: 10 }));
    let d2 = || Expr::Literal(Value::Date(Date { year: 2020, month: 3, day: 10 }));
    let u = |s: &str| Expr::Literal(Value::Text(s.to_owned()));
    let go = |unit: &str| evaluate(&call("DATEDIF", vec![d1(), d2(), u(unit)]));
    assert_eq!(go("Y"), n(16.0));
    assert_eq!(go("M"), n(193.0));
    assert_eq!(go("D"), n(5873.0));
    assert_eq!(go("YM"), n(1.0));
    assert_eq!(go("MD"), n(0.0));
    assert_eq!(go("YD"), n(29.0));
}

#[test]
fn test_floor() {
    let e = call("FLOOR", vec![lit(3.7), lit(1.0)]);
    assert_eq!(evaluate(&e), n(3.0));
}

#[test]
fn test_rounddown() {
    let go = |x: f64, d: f64| evaluate(&call("ROUNDDOWN", vec![lit(x), lit(d)]));
    assert_eq!(go(3.2, 0.0), n(3.0));
    assert_eq!(go(76.9, 0.0), n(76.0));
    assert_eq!(go(3.14159, 3.0), n(3.141));
    assert_eq!(go(-3.14159, 1.0), n(-3.1));
    assert_eq!(go(31415.92654, -2.0), n(31400.0));
}

#[test]
fn test_roundup() {
    let go = |x: f64, d: f64| evaluate(&call("ROUNDUP", vec![lit(x), lit(d)]));
    assert_eq!(go(3.2, 0.0), n(4.0));
    assert_eq!(go(76.9, 0.0), n(77.0));
    assert_eq!(go(3.14159, 3.0), n(3.142));
    assert_eq!(go(-3.14159, 1.0), n(-3.2));
    assert_eq!(go(31415.92654, -2.0), n(31500.0));
}

#[test]
fn test_yearfrac() {
    let d1 = Expr::Literal(Value::Date(Date { year: 2012, month: 1, day: 1 }));
    let d2 = Expr::Literal(Value::Date(Date { year: 2012, month: 7, day: 30 }));
    let r = evaluate(&call("YEARFRAC", vec![d1, d2]));
    match r {
        Value::Num(b) => assert!((0.58055 - f64::from_bits(b)).abs() < 0.01),
        _ => panic!("expected a number"),
    }
}

#[test]
fn test_year_month() {
    let d = || Expr::Literal(Value::Date(Date { year: 2022, month: 3, day: 9 }));
    assert_eq!(evaluate(&call("YEAR", vec![d()])), n(2022.0));
    assert_eq!(evaluate(&call("MONTH", vec![d()])), n(3.0));
}

#[test]
fn test_unsupported_function_is_name_error() {
    let e = call("NOSUCHFN", vec![lit(1.0)]);
    assert_eq!(evaluate(&e), Value::Error(ErrorKind::Name));
    match formulae::evaluate::get_function_value("NOSUCHFN", vec![n(1.0)]) {
        Err(formulae::errors::Error::UnsupportedFunction(name)) => {
            assert_eq!(name, "NOSUCHFN".to_owned())
        },
        _ => panic!("expected the unsupported-function failure"),
    }
}

// Division by zero inside an expression becomes the division error and
// flows onward as a value; IFERROR then catches it.
#[test]
fn test_error_propagates_and_iferror_catches() {
    let div = Expr::Infix(formulae::ops::Op::Divide, Box::new(lit(1.0)), Box::new(lit(0.0)));
    assert_eq!(evaluate(&div), Value::Error(ErrorKind::Div));
    let sum = Expr::Infix(
        formulae::ops::Op::Plus,
        Box::new(Expr::Infix(
            formulae::ops::Op::Divide,
            Box::new(lit(1.0)),
            Box::new(lit(0.0)),
        )),
        Box::new(lit(5.0)),
    );
    assert_eq!(evaluate(&sum), Value::Error(ErrorKind::Div));
    let caught = call(
        "IFERROR",
        vec![
            Expr::Infix(formulae::ops::Op::Divide, Box::new(lit(1.0)), Box::new(lit(0.0))),
            lit(7.0),
        ],
    );
    assert_eq!(evaluate(&caught), n(7.0));
}

// A literal evaluates to exactly itself, for each value shape.
#[test]
fn test_literal_evaluates_to_itself() {
    let samples = vec![
        n(42.5),
        Value::Bool(true),
        Value::Text("hi".to_owned()),
        Value::Date(Date { year: 2000, month: 6, day: 15 }),
        Value::Array(vec![n(1.0), Value::Bool(false)]),
        Value::Error(ErrorKind::NA),
        Value::Empty,
    ];
    for v in samples {
        assert_eq!(evaluate(&Expr::Literal(v.clone())), v);
    }
}

// Numeric addition and multiplication commute; text concatenation does
// not.
#[test]
fn test_operator_commutativity() {
    let a = n(0.1);
    let b = n(0.2);
    assert_eq!(scalar_op(Op::Plus, &a, &b), scalar_op(Op::Plus, &b, &a));
    assert_eq!(scalar_op(Op::Multiply, &a, &b), scalar_op(Op::Multiply, &b, &a));
    let x = Value::Text("ab".to_owned());
    let y = Value::Text("cd".to_owned());
    assert_eq!(scalar_op(Op::Ampersand, &x, &y), Value::Text("abcd".to_owned()));
    assert_ne!(scalar_op(Op::Ampersand, &x, &y), scalar_op(Op::Ampersand, &y, &x));
}

#[test]
fn test_exponent() {
    let e = call("EXPONENT", vec![lit(2.0), lit(10.0)]);
    assert_eq!(evaluate(&e), n(1024.0));
}

fn single(row: usize, column: usize) -> Reference {
    Reference {
        start_cell: Cell { row, column },
        end_cell: None,
        full_rows: false,
        full_cols: false,
    }
}

#[test]
fn test_offset_reference() {
    // anchor B2 moved by (1,1), region 2 rows tall and 3 columns wide:
    // C3:E4
    let mut r = single(1, 1);
    let out = functions::offset_reference(&mut r, 1, 1, Some(2), Some(3));
    assert_eq!(out.start_cell, Cell { row: 2, column: 2 });
    assert_eq!(out.end_cell, Some(Cell { row: 3, column: 4 }));
    // |height| and |width| of at most one leave a single cell
    let mut r1 = single(0, 1);
    let out1 = functions::offset_reference(&mut r1, 0, 0, Some(1), Some(1));
    assert_eq!(out1.start_cell, Cell { row: 0, column: 1 });
    assert_eq!(out1.end_cell, None);
    // a negative height re-normalizes so the start precedes the end
    let mut r2 = single(5000, 5000);
    let out2 = functions::offset_reference(&mut r2, 0, 0, Some(-3), Some(1));
    assert_eq!(out2.start_cell.row, 4998);
    assert_eq!(out2.end_cell.map(|c| c.row), Some(5000));
    // normalization is componentwise: height extends down while width
    // extends left, and both coordinates end up ordered
    let mut r3 = single(5000, 5000);
    let out3 = functions::offset_reference(&mut r3, 0, 0, Some(2), Some(-2));
    assert_eq!(out3.start_cell, Cell { row: 5000, column: 4999 });
    assert_eq!(out3.end_cell, Some(Cell { row: 5001, column: 5000 }));
}

fn t(s: &str) -> Value {
    Value::Text(s.to_owned())
}

// A criterion with no comparator tests equality of the texts.
#[test]
fn test_parse_criteria() {
    assert!(functions::parse_criteria("a", &t("a")));
    assert!(!functions::parse_criteria("a", &t("b")));
    assert!(functions::parse_criteria("=a", &t("a")));
    assert!(functions::parse_criteria("<>a", &t("b")));
    assert!(!functions::parse_criteria("<>a", &t("a")));
    // quotes inside the criterion or the cell are discarded
    assert!(functions::parse_criteria("\"a\"", &t("a")));
}

#[test]
fn test_countif() {
    let range = Value::Array(vec![t("a"), t("b"), t("a")]);
    assert_eq!(functions::countif(&range, &t("a")), n(2.0));
    assert_eq!(functions::countif(&range, &t("b")), n(1.0));
    assert_eq!(functions::countif(&range, &t("z")), n(0.0));
}

#[test]
fn test_sumif() {
    let range = Value::Array(vec![t("a"), t("b"), t("a")]);
    let sums = Value::Array(vec![n(1.0), n(2.0), n(3.0)]);
    assert_eq!(functions::sumif(&range, &t("a"), Some(&sums)), n(4.0));
    // with no sum range the matching range cells themselves are
    // summed; text cells do not coerce, so the coercion error appears
    let nums = Value::Array(vec![n(1.0), n(2.0), n(1.0)]);
    assert_eq!(functions::sumif(&nums, &n(1.0), None), n(2.0));
}

#[test]
fn test_averageif() {
    let range = Value::Array(vec![t("a"), t("b"), t("a")]);
    let sums = Value::Array(vec![n(10.0), n(20.0), n(30.0)]);
    assert_eq!(functions::averageif(&range, &t("a"), Some(&sums)), n(20.0));
}

#[test]
fn test_sumifs() {
    let sums = Value::Array(vec![n(1.0), n(2.0), n(3.0)]);
    let r1 = Value::Array(vec![t("a"), t("b"), t("a")]);
    let r2 = Value::Array(vec![t("x"), t("x"), t("y")]);
    let pairs = vec![r1, t("a"), r2, t("x")];
    assert_eq!(functions::sumifs(&sums, &pairs), n(1.0));
}

#[test]
fn test_countifs() {
    let r1 = Value::Array(vec![t("a"), t("b"), t("a")]);
    let r2 = Value::Array(vec![t("x"), t("x"), t("y")]);
    let pairs = vec![r1, t("a"), r2, t("x")];
    assert_eq!(functions::countifs(&pairs), n(1.0));
}

#[test]
fn test_averageifs() {
    let avg = Value::Array(vec![n(10.0), n(20.0), n(30.0)]);
    let r1 = Value::Array(vec![t("a"), t("b"), t("a")]);
    let pairs = vec![r1, t("a")];
    assert_eq!(functions::averageifs(&avg, &pairs), n(20.0));
}

#[test]
fn test_sumproduct() {
    let a = Expr::Literal(Value::Array(vec![n(1.0), n(2.0), n(3.0)]));
    let b = Expr::Literal(Value::Array(vec![n(4.0), n(5.0), n(6.0)]));
    assert_eq!(evaluate(&call("SUMPRODUCT", vec![a, b])), n(32.0));
}

#[test]
fn test_pmt() {
    let go = |args: Vec<Expr>| match evaluate(&call("PMT", args)) {
        Value::Num(b) => f64::from_bits(b),
        other => panic!("expected a number, got {other:?}"),
    };
    let r = go(vec![lit(0.08 / 12.0), lit(10.0), lit(10000.0)]);
    assert!((-1037.03 - r).abs() < 0.01, "{r}");
    let r2 = go(vec![lit(0.08 / 12.0), lit(10.0), lit(10000.0), lit(0.0), lit(1.0)]);
    assert!((-1030.16 - r2).abs() < 0.01, "{r2}");
}

// The commutativity law function demonstrated on concrete numbers.
#[test]
fn test_check_commutative() {
    let (x, y) = formulae::ops::check_commutative(Op::Plus, &n(1.5), &n(2.25));
    assert_eq!(x, y);
    let (p, q) = formulae::ops::check_commutative(Op::Multiply, &n(3.0), &n(7.0));
    assert_eq!(p, q);
}

#[test]
fn test_search() {
    let e = call("SEARCH", vec![Expr::Literal(t("a")), Expr::Literal(t("Apple"))]);
    assert_eq!(evaluate(&e), n(1.0));
    let e2 = call(
        "SEARCH",
        vec![Expr::Literal(t("the")), Expr::Literal(t("The cat in the hat"))],
    );
    assert_eq!(evaluate(&e2), n(1.0));
    let e3 = call(
        "SEARCH",
        vec![Expr::Literal(t("the")), Expr::Literal(t("The cat in the hat")), lit(4.0)],
    );
    assert_eq!(evaluate(&e3), n(12.0));
    let e4 = call("SEARCH", vec![Expr::Literal(t("zz")), Expr::Literal(t("Apple"))]);
    assert_eq!(
        evaluate(&e4),
        Value::Error(formulae::value::ErrorKind::Value)
    );
}

#[test]
fn test_xnpv() {
    let dt = |y: i32, m: u8, dd: u8| Value::Date(Date { year: y, month: m, day: dd });
    let values = Expr::Literal(Value::Array(vec![n(-100.0), n(60.0), n(60.0)]));
    let dates = Expr::Literal(Value::Array(vec![
        dt(2020, 1, 1),
        dt(2021, 1, 1),
        dt(2022, 1, 1),
    ]));
    let r = evaluate(&call("XNPV", vec![lit(0.1), values, dates]));
    match r {
        Value::Num(b) => assert!((4.105 - f64::from_bits(b)).abs() < 0.01),
        other => panic!("expected a number, got {other:?}"),
    }
}

#[test]
fn test_xirr() {
    let dt = |y: i32, m: u8, dd: u8| Value::Date(Date { year: y, month: m, day: dd });
    let values = Expr::Literal(Value::Array(vec![n(-1000.0), n(1200.0)]));
    let dates = Expr::Literal(Value::Array(vec![dt(2020, 1, 1), dt(2020, 12, 31)]));
    let r = evaluate(&call("XIRR", vec![values, dates]));
    match r {
        Value::Num(b) => {
            let rate = f64::from_bits(b);
            // -1000 + 1200/(1+r)^(365/365) = 0 at r = 0.2
            assert!((0.2 - rate).abs() < 0.001, "{rate}");
        },
        other => panic!("expected a number, got {other:?}"),
    }
    // all payments on one side of zero refuse at once
    let values2 = Expr::Literal(Value::Array(vec![n(100.0), n(200.0)]));
    let dates2 = Expr::Literal(Value::Array(vec![dt(2020, 1, 1), dt(2021, 1, 1)]));
    assert_eq!(
        evaluate(&call("XIRR", vec![values2, dates2])),
        Value::Error(formulae::value::ErrorKind::Num)
    );
}

// INDEX picks an element of a materialized range and names its cell.
#[test]
fn test_index() {
    let cached = Value::Array2(Array2 {
        rows: 2,
        cols: 2,
        data: vec![n(10.0), n(11.0), n(12.0), n(13.0)],
    });
    let base = Value::Range {
        sheet: Some("Sheet1".to_owned()),
        reference: Reference {
            start_cell: Cell { row: 2, column: 1 },
            end_cell: Some(Cell { row: 3, column: 2 }),
            full_rows: false,
            full_cols: false,
        },
        value: Some(Box::new(cached)),
    };
    match functions::index(&base, &n(1.0), Some(&n(2.0))) {
        Value::Range { sheet, reference, value } => {
            assert_eq!(sheet, Some("Sheet1".to_owned()));
            assert_eq!(reference.start_cell, Cell { row: 2, column: 2 });
            assert_eq!(value.map(|b| *b), Some(n(11.0)));
        },
        other => panic!("expected a range, got {other:?}"),
    }
    // a zero row asks for the whole column, uncomputed
    match functions::index(&base, &n(0.0), Some(&n(2.0))) {
        Value::Range { sheet: _, reference, value } => {
            assert_eq!(reference.start_cell, Cell { row: 0, column: 2 });
            assert!(value.is_none());
        },
        other => panic!("expected a range, got {other:?}"),
    }
    // an out-of-range pick is the reference error
    assert_eq!(
        functions::index(&base, &n(5.0), Some(&n(1.0))),
        Value::Error(ErrorKind::Ref)
    );
    // errors pass through
    assert_eq!(
        functions::index(&Value::Error(ErrorKind::Div), &n(1.0), None),
        Value::Error(ErrorKind::Div)
    );
}

// OFFSET re-points a range; an uncalculated target asks the
// orchestrator to rewire toward the region's name, and once the target
// is calculated the supplied value comes back inside the range.
#[test]
fn test_offset() {
    let base = || Value::Range {
        sheet: None,
        reference: single(0, 1),
        value: None,
    };
    // B1 moved by nothing: target B1; not yet calculated, so the call
    // raises the volatile replan naming B1
    match functions::offset(&base(), &n(0.0), &n(0.0), None, None, false, None) {
        Err(formulae::errors::Error::Volatile(ne)) => match *ne {
            Expr::Reference { sheet, reference } => {
                assert_eq!(sheet, None);
                assert_eq!(reference, "B1".to_owned());
            },
            other => panic!("expected a reference expression, got {other:?}"),
        },
        other => panic!("expected a volatile replan, got {other:?}"),
    }
    // once calculated, the target's value rides inside the range
    match functions::offset(&base(), &n(1.0), &n(0.0), None, None, true, Some(n(7.0))) {
        Ok(Value::Range { sheet: _, reference, value }) => {
            assert_eq!(reference.start_cell, Cell { row: 1, column: 1 });
            assert_eq!(value.map(|b| *b), Some(n(7.0)));
        },
        other => panic!("expected a resolved range, got {other:?}"),
    }
    // a shift off the sheet is the reference error
    assert_eq!(
        functions::offset(&base(), &n(-5.0), &n(0.0), None, None, true, None).unwrap(),
        Value::Error(ErrorKind::Ref)
    );
}

// The broadcast rule: a scalar against an array applies elementwise,
// arrays of one shape combine pairwise, and mismatched shapes refuse.
#[test]
fn test_broadcast() {
    let arr = |xs: &[f64]| Value::Array(xs.iter().map(|x| n(*x)).collect());
    let plus = |a: Value, b: Value| {
        evaluate(&Expr::Infix(
            Op::Plus,
            Box::new(Expr::Literal(a)),
            Box::new(Expr::Literal(b)),
        ))
    };
    assert_eq!(plus(arr(&[1.0, 2.0, 3.0]), n(10.0)), arr(&[11.0, 12.0, 13.0]));
    assert_eq!(plus(n(10.0), arr(&[1.0, 2.0])), arr(&[11.0, 12.0]));
    assert_eq!(plus(arr(&[1.0, 2.0]), arr(&[10.0, 20.0])), arr(&[11.0, 22.0]));
    assert_eq!(
        plus(arr(&[1.0, 2.0]), arr(&[1.0])),
        Value::Error(ErrorKind::Value)
    );
    assert_eq!(
        plus(grid2x2(1.0, 2.0, 3.0, 4.0), n(1.0)),
        grid2x2(2.0, 3.0, 4.0, 5.0)
    );
}
