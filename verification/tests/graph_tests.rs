use formulae::ast::Expr;
use formulae::dependency::{CellId, DependencyTree};
use formulae::errors::Error;
use formulae::workbook::Sheet;

#[test]
fn test_precedent() {
    let mut tree = DependencyTree::new();
    let a = CellId::from((0, 0, 0, 1, 1, Some(false)));
    let b = CellId::from((1, 0, 0, 1, 1, Some(false)));
    let c = CellId::from((2, 0, 0, 1, 1, Some(false)));
    tree.add_precedent(&a, &b); // A must calculate before B
    tree.add_precedent(&c, &b); // C must calculate before B
    assert!(tree.is_dependent_of(&b, &a));
    assert_eq!(tree.is_dependent_of(&a, &b), false);
}

#[test]
fn test_order() {
    let mut tree = DependencyTree::new();
    let a = CellId::from((0, 0, 0, 1, 1, Some(false)));
    let b = CellId::from((1, 0, 0, 1, 1, Some(false)));
    let c = CellId::from((2, 0, 0, 1, 1, Some(false)));
    tree.add_precedent(&a, &b); // A must calculate before B
    tree.add_precedent(&b, &c); // B must calculate before C
    let mut order: Vec<CellId> = tree.get_order().unwrap();
    assert_eq!(order.pop().unwrap(), c);
    assert_eq!(order.pop().unwrap(), b);
    assert_eq!(order.pop().unwrap(), a);
}

fn cell(row: usize, col: usize) -> CellId {
    CellId::from((0, row, col, 1, 1, Some(false)))
}

fn refer(text: &str) -> Expr {
    Expr::Reference { sheet: None, reference: text.to_owned() }
}

// Dependency order: A1=1, A2=A1+1, A3=A2+A1 yields A1, A2, A3.
#[test]
fn test_dependency_order() {
    let sheets = vec![Sheet::new("Sheet1".to_owned(), 100, 100)];
    let mut tree = DependencyTree::new();
    // A2 depends on A1
    tree.add_expression(cell(1, 0), &refer("A1"), &sheets).unwrap();
    // A3 depends on A2 and A1
    tree.add_expression(
        cell(2, 0),
        &Expr::Infix(
            formulae::ops::Op::Plus,
            Box::new(refer("A2")),
            Box::new(refer("A1")),
        ),
        &sheets,
    )
    .unwrap();
    let order = tree.get_order().unwrap();
    let pos =
        |c: CellId| order.iter().position(|x| *x == c).expect("cell missing from the order");
    assert!(pos(cell(0, 0)) < pos(cell(1, 0)));
    assert!(pos(cell(1, 0)) < pos(cell(2, 0)));
    assert!(pos(cell(0, 0)) < pos(cell(2, 0)));
}

// Cycle: A1=A2, A2=A1 is a cyclic-dependency failure.
#[test]
fn test_cycle_detected() {
    let sheets = vec![Sheet::new("Sheet1".to_owned(), 100, 100)];
    let mut tree = DependencyTree::new();
    tree.add_expression(cell(0, 0), &refer("A2"), &sheets).unwrap();
    tree.add_expression(cell(1, 0), &refer("A1"), &sheets).unwrap();
    match tree.get_order() {
        Err(Error::CyclicDependency(ns)) => assert!(ns.len() >= 1),
        _ => panic!("expected a cyclic dependency"),
    }
}

// A formula holding the volatile OFFSET lands its cell on the worklist.
#[test]
fn test_offset_worklist() {
    let sheets = vec![Sheet::new("Sheet1".to_owned(), 100, 100)];
    let mut tree = DependencyTree::new();
    let host = cell(0, 0);
    tree.add_expression(
        host,
        &Expr::Func {
            name: "OFFSET".to_owned(),
            args: vec![
                refer("B1"),
                Expr::Literal(formulae::value::Value::Num(0f64.to_bits())),
                Expr::Literal(formulae::value::Value::Num(0f64.to_bits())),
            ],
        },
        &sheets,
    )
    .unwrap();
    assert!(tree.offsets.iter().any(|c| *c == host));
    // the referenced cell is wired as a precedent of the host
    assert!(tree.is_precedent_of(&cell(0, 1), &host));
}

// A multi-cell region is one precedent node with its cells wired
// beneath it.
#[test]
fn test_range_precedent() {
    let sheets = vec![Sheet::new("Sheet1".to_owned(), 100, 100)];
    let mut tree = DependencyTree::new();
    let host = cell(5, 5);
    tree.add_expression(host, &refer("A1:B2"), &sheets).unwrap();
    let region = CellId::from((0, 0, 0, 2, 2, Some(false)));
    assert!(tree.is_precedent_of(&region, &host));
    assert!(tree.is_precedent_of(&cell(1, 1), &region));
}

#[test]
fn test_unknown_sheet_is_malformed() {
    let sheets = vec![Sheet::new("Sheet1".to_owned(), 100, 100)];
    let mut tree = DependencyTree::new();
    let r = tree.add_expression(
        cell(0, 0),
        &Expr::Reference { sheet: Some("Nowhere".to_owned()), reference: "A1".to_owned() },
        &sheets,
    );
    assert!(matches!(r, Err(Error::MalformedReference)));
}
