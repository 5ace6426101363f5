use formula_fmt::eval::{compare_non_numeric, first_error, resolve, to_json, Unsupported, Value};
use formula_fmt::parser::parse;
use formula_fmt::workbook::Workbook;

fn num(x: f64) -> Value {
    Value::Number(x.to_bits())
}

#[test]
fn text_compares_without_regard_to_case() {
    let a = Value::Text("abc".to_string());
    let b = Value::Text("ABC".to_string());
    assert_eq!(compare_non_numeric(&a, &b), Some(0));
    let c = Value::Text("abd".to_string());
    assert_eq!(compare_non_numeric(&a, &c), Some(-1));
    assert_eq!(compare_non_numeric(&c, &b), Some(1));
    let short = Value::Text("ab".to_string());
    assert_eq!(compare_non_numeric(&short, &a), Some(-1));
}

#[test]
fn numbers_sort_below_texts_below_booleans() {
    let n = num(1.0);
    let t = Value::Text("a".to_string());
    let f = Value::Boolean(false);
    let tr = Value::Boolean(true);
    assert_eq!(compare_non_numeric(&n, &t), Some(-1));
    assert_eq!(compare_non_numeric(&t, &tr), Some(-1));
    assert_eq!(compare_non_numeric(&tr, &t), Some(1));
    assert_eq!(compare_non_numeric(&f, &tr), Some(-1));
    assert_eq!(compare_non_numeric(&tr, &tr), Some(0));
    assert_eq!(compare_non_numeric(&t, &n), Some(1));
    assert_eq!(compare_non_numeric(&n, &num(2.0)), None);
}

#[test]
fn an_error_operand_is_handed_on() {
    let e1 = Value::Error("#DIV/0!".to_string());
    let e2 = Value::Error("#VALUE!".to_string());
    assert_eq!(first_error(&e1, &e2), Some(e1.clone()));
    assert_eq!(first_error(&num(1.0), &e2), Some(e2.clone()));
    assert_eq!(first_error(&num(1.0), &Value::Text("x".to_string())), None);
}

#[test]
fn refusals_name_what_is_not_supported() {
    assert_eq!(
        Unsupported("function calls").message(),
        "evaluation of function calls is not supported yet"
    );
    let wb = Workbook::new();
    let refused = |input: &str| resolve(&parse(input).unwrap(), &wb).unwrap_err();
    assert_eq!(refused("SUM(A1)"), Unsupported("function calls"));
    assert_eq!(refused("A1:A2"), Unsupported("ranges"));
    assert_eq!(refused("A1 B1"), Unsupported("the intersect operator"));
    assert_eq!(refused("(A1,B1)"), Unsupported("the union operator"));
    assert_eq!(refused("{1,2}"), Unsupported("array literals"));
    assert_eq!(refused("Total"), Unsupported("defined names"));
}

#[test]
fn references_and_names_read_the_workbook() {
    let mut wb = Workbook::new();
    wb.set_cell(Some("data"), "b", 3, num(7.0));
    wb.set_name("total", Value::Text("t".to_string()));
    let value = |input: &str| resolve(&parse(input).unwrap(), &wb).unwrap();
    assert_eq!(value("Data!B3"), num(7.0));
    assert_eq!(value("'DATA'!$b$3"), num(7.0));
    assert_eq!(value("B3"), num(0.0));
    assert_eq!(value("TOTAL"), Value::Text("t".to_string()));
    assert_eq!(value("\"x\""), Value::Text("x".to_string()));
    assert_eq!(value("FALSE"), Value::Boolean(false));
    assert_eq!(value("#ref!"), Value::Error("#REF!".to_string()));
}

#[test]
fn writes_are_read_back_and_leave_other_entries_alone() {
    let mut wb = Workbook::new();
    wb.set_cell(None, "a", 1, num(1.0));
    wb.set_cell(None, "A", 2, num(2.0));
    wb.set_cell(None, "A", 1, num(3.0));
    assert_eq!(wb.get_cell(None, "a", 1), num(3.0));
    assert_eq!(wb.get_cell(None, "a", 2), num(2.0));
    wb.set_name("Rate", num(0.5));
    wb.set_name("other", num(1.5));
    wb.set_name("RATE", num(0.25));
    assert_eq!(wb.get_name("rate"), Some(num(0.25)));
    assert_eq!(wb.get_name("OTHER"), Some(num(1.5)));
    assert_eq!(wb.get_name("missing"), None);
    assert_eq!(wb.get_cell(None, "A", 1), num(3.0));
}

#[test]
fn only_references_and_names_can_be_assigned() {
    let mut wb = Workbook::new();
    assert!(wb.assign(&parse("sheet1!b2").unwrap(), num(4.0)));
    assert_eq!(wb.get_cell(Some("SHEET1"), "B", 2), num(4.0));
    assert!(wb.assign(&parse("Total").unwrap(), num(9.0)));
    assert_eq!(wb.get_name("total"), Some(num(9.0)));
    assert!(!wb.assign(&parse("A1+1").unwrap(), num(1.0)));
    assert!(!wb.assign(&parse("A1:B2").unwrap(), num(1.0)));
    assert_eq!(wb.get_cell(None, "A", 1), num(0.0));
}

#[test]
fn sheet_qualified_reference_resolves_from_workbook() {
    let mut wb = Workbook::new();
    wb.set_cell(Some("Sheet1"), "A", 1, num(7.0));
    assert_eq!(resolve(&parse("Sheet1!A1").unwrap(), &wb).unwrap(), num(7.0));
}

#[test]
fn unset_defined_name_is_reported_as_unsupported() {
    let err = resolve(&parse("Total").unwrap(), &Workbook::new()).unwrap_err();
    assert_eq!(err, Unsupported("defined names"));
}

#[test]
fn function_calls_are_reported_as_unsupported() {
    let err = resolve(&parse("SUM(1,2)").unwrap(), &Workbook::new()).unwrap_err();
    assert_eq!(err, Unsupported("function calls"));
}

#[test]
fn values_in_json() {
    assert_eq!(
        to_json(&Value::Text("a\"b".to_string()), ""),
        "{\"type\":\"text\",\"value\":\"a\\\"b\"}"
    );
    assert_eq!(to_json(&Value::Boolean(false), ""), "{\"type\":\"boolean\",\"value\":false}");
    assert_eq!(
        to_json(&Value::Error("#N/A".to_string()), ""),
        "{\"type\":\"error\",\"value\":\"#N/A\"}"
    );
    assert_eq!(to_json(&num(7.0), "7"), "{\"type\":\"number\",\"value\":7}");
}
