use formulae::date::Date;
use formulae::reference::{Cell, Reference};

fn parse(s: &str) -> Reference {
    Reference::parse(s).expect("reference should parse")
}

// Parsing then re-serializing a reference yields the original text.
#[test]
fn test_reference_round_trip() {
    for text in ["A1", "B7", "Z99", "AA1", "AB12", "A1:C3", "B2:B9", "C:C", "A:D", "3:3", "2:7"] {
        let r = parse(text);
        assert_eq!(r.to_text(), text.to_owned());
        // and the other direction: the parsed structure survives a
        // serialize-parse cycle
        assert_eq!(Reference::parse(&r.to_text()), Some(r));
    }
}

#[test]
fn test_parse_cell() {
    let r = parse("B7");
    assert_eq!(r.start_cell, Cell { row: 6, column: 1 });
    assert_eq!(r.end_cell, None);
    assert!(!r.is_multi_cell());
    let r2 = parse("AA1");
    assert_eq!(r2.start_cell, Cell { row: 0, column: 26 });
}

#[test]
fn test_parse_range() {
    let r = parse("A1:C3");
    assert_eq!(r.start_cell, Cell { row: 0, column: 0 });
    assert_eq!(r.end_cell, Some(Cell { row: 2, column: 2 }));
    assert!(r.is_multi_cell());
    assert_eq!(r.get_dimensions(), (0, 0, 3, 3));
}

#[test]
fn test_parse_full_column_and_row() {
    let c = parse("C:C");
    assert!(c.full_rows);
    assert_eq!(c.get_dimensions().3, 1);
    assert_eq!(c.get_dimensions().2, usize::MAX);
    let r = parse("3:3");
    assert!(r.full_cols);
    assert_eq!(r.get_dimensions().2, 1);
}

// Absolute markers are accepted and discarded.
#[test]
fn test_dollars_discarded() {
    assert_eq!(Reference::parse("$A$1"), Reference::parse("A1"));
    assert_eq!(Reference::parse("$B$2:$C$4"), Reference::parse("B2:C4"));
}

// Malformed text: no column letters, no digits, or ends out of order.
#[test]
fn test_malformed_references() {
    for bad in ["", "7", "A", "A0", "1A", "C3:A1", "A1:", ":A1", "A1:B", "Q:3"] {
        assert_eq!(Reference::parse(bad), None, "{bad} should not parse");
    }
}

#[test]
fn test_cells_of_region() {
    let cells = Reference::get_cells_from_dim(1, 2, 2, 3);
    assert_eq!(
        cells,
        vec![(1, 2), (1, 3), (1, 4), (2, 2), (2, 3), (2, 4)]
    );
}

#[test]
fn test_offset_shifts_region() {
    let mut r = parse("B2:C4");
    r.offset((2, 1));
    assert_eq!(r.start_cell, Cell { row: 3, column: 2 });
    assert_eq!(r.end_cell, Some(Cell { row: 5, column: 3 }));
}

// Calendar arithmetic: day numbers against the epoch, leap rules.
#[test]
fn test_day_numbers() {
    assert_eq!(Date { year: 1970, month: 1, day: 1 }.day_number(), 0);
    assert_eq!(Date { year: 1970, month: 1, day: 2 }.day_number(), 1);
    assert_eq!(Date { year: 2000, month: 3, day: 1 }.day_number(), 11017);
    assert!(Date::is_leap_year(2000));
    assert!(!Date::is_leap_year(1900));
    assert!(Date::is_leap_year(2004));
    assert_eq!(Date::days_in_month(2004, 2), 29);
    assert_eq!(Date::days_in_month(2005, 2), 28);
    assert_eq!(Date::from_ymd(2004, 2, 30), None);
    assert_eq!(
        Date::from_ymd(2004, 2, 29),
        Some(Date { year: 2004, month: 2, day: 29 })
    );
}
