use formula_fmt::parser::{parse, parse_cell_ref, CellRef, Expr};
use formula_fmt::printer::render;

fn differs_without_parens(with: &str, without: &str) {
    let tree = parse(with).unwrap();
    assert_eq!(render(&tree), with);
    let other = parse(without).unwrap();
    assert_ne!(other, tree);
    assert_eq!(render(&other), without);
}

#[test]
fn parentheses_around_a_left_operand_are_needed() {
    differs_without_parens("(1+2)*3", "1+2*3");
    differs_without_parens("(1=2)&3", "1=2&3");
    differs_without_parens("(1+2*3)^2", "1+2*3^2");
}

#[test]
fn parentheses_around_a_right_operand_are_needed() {
    differs_without_parens("1-(2-3)", "1-2-3");
    differs_without_parens("2^(3^4)", "2^3^4");
    differs_without_parens("1*(2+3)", "1*2+3");
    differs_without_parens("1&(2*3=4)", "1&2*3=4");
}

#[test]
fn parentheses_after_a_sign_are_needed() {
    differs_without_parens("-(1+2)", "-1+2");
    differs_without_parens("-(1%)", "-1%");
    differs_without_parens("+(2^2)", "+2^2");
}

#[test]
fn parentheses_before_a_percent_are_needed() {
    differs_without_parens("(1+2)%", "1+2%");
    differs_without_parens("(2*3^4)%", "2*3^4%");
}

#[test]
fn identifiers_that_are_not_references_are_names() {
    assert_eq!(parse("Total").unwrap(), Expr::Name("Total".to_string()));
    assert_eq!(parse("AB").unwrap(), Expr::Name("AB".to_string()));
    assert_eq!(parse("ABCD1").unwrap(), Expr::Name("ABCD1".to_string()));
    assert_eq!(parse("A0").unwrap(), Expr::Name("A0".to_string()));
}

#[test]
fn canonical_references_parse_as_themselves() {
    let cell = CellRef {
        sheet: Some("My Sheet".to_string()),
        col_absolute: true,
        column: "XFD".to_string(),
        row_absolute: false,
        row: 1048576,
    };
    let text = render(&Expr::Reference(cell.clone()));
    assert_eq!(text, "'My Sheet'!$XFD1048576");
    assert_eq!(parse(&text).unwrap(), Expr::Reference(cell));
}

/// `with` is canonical text; the same text without the parentheses named by
/// the test reads as another tree, written canonically as `other`, or does
/// not parse (`other` is `None`).
fn reads_otherwise(with: &str, without: &str, other: Option<&str>) {
    let tree = parse(with).unwrap();
    assert_eq!(render(&tree), with);
    match (parse(without), other) {
        (Ok(e), Some(text)) => {
            assert_ne!(e, tree);
            assert_eq!(render(&e), text);
        }
        (Err(_), None) => {}
        (r, _) => panic!("unexpected result for {}: {:?}", without, r),
    }
}

#[test]
fn parentheses_around_a_range_operand_are_needed() {
    reads_otherwise("(A1+B1):C1", "A1+B1:C1", Some("A1+B1:C1"));
    reads_otherwise("(-A1):B1", "-A1:B1", Some("-A1:B1"));
    reads_otherwise("(A1:B1):C1", "A1:B1:C1", None);
    reads_otherwise("A1:(B1+C1)", "A1:B1+C1", Some("A1:B1+C1"));
    reads_otherwise("A1:(-B1)", "A1:-B1", None);
    reads_otherwise("A1:(B1 C1)", "A1:B1 C1", Some("A1:B1 C1"));
}

#[test]
fn parentheses_around_an_intersection_operand_are_needed() {
    reads_otherwise("F(A1) (B1+C1)", "F(A1) B1+C1", Some("F(A1) B1+C1"));
    reads_otherwise("(A1) (-B1)", "(A1) -B1", Some("A1-B1"));
    reads_otherwise("F(A1) (B1 C1)", "F(A1) B1 C1", Some("F(A1) B1 C1"));
    reads_otherwise("F(A1) (5)", "F(A1) 5", None);
    reads_otherwise("(x) (B1, C1)", "x (B1, C1)", Some("X(B1, C1)"));
    reads_otherwise("(A1:B1) (C1+D1)", "A1:B1 (C1+D1)", Some("A1:B1(C1+D1)"));
}

#[test]
fn cell_references_are_exactly_their_pattern() {
    let c = parse_cell_ref("$ab$12").unwrap();
    assert_eq!(c.sheet, None);
    assert!(c.col_absolute);
    assert_eq!(c.column, "AB");
    assert!(c.row_absolute);
    assert_eq!(c.row, 12);
    let c = parse_cell_ref("xfd4294967295").unwrap();
    assert!(!c.col_absolute && !c.row_absolute);
    assert_eq!(c.column, "XFD");
    assert_eq!(c.row, 4294967295);
    assert_eq!(parse_cell_ref("A4294967296"), None);
    assert_eq!(parse_cell_ref("$$A1"), None);
    assert_eq!(parse_cell_ref("A$$1"), None);
    assert_eq!(parse_cell_ref("A1$"), None);
    assert_eq!(parse_cell_ref("A"), None);
}
