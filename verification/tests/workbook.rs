use formula_fmt::eval::Value;
use formula_fmt::workbook::Workbook;

#[test]
fn unset_cell_reads_as_zero() {
    let wb = Workbook::new();
    assert_eq!(wb.get_cell(None, "A", 1), Value::Number(0.0f64.to_bits()));
}

#[test]
fn set_cell_round_trips() {
    let mut wb = Workbook::new();
    wb.set_cell(None, "a", 1, Value::Number(5.0f64.to_bits()));
    assert_eq!(wb.get_cell(None, "A", 1), Value::Number(5.0f64.to_bits()));
}

#[test]
fn sheet_qualified_cells_do_not_collide_with_unqualified() {
    let mut wb = Workbook::new();
    wb.set_cell(Some("Sheet1"), "A", 1, Value::Number(1.0f64.to_bits()));
    wb.set_cell(None, "A", 1, Value::Number(2.0f64.to_bits()));
    assert_eq!(wb.get_cell(Some("Sheet1"), "A", 1), Value::Number(1.0f64.to_bits()));
    assert_eq!(wb.get_cell(None, "A", 1), Value::Number(2.0f64.to_bits()));
}

#[test]
fn sheet_names_match_case_insensitively() {
    let mut wb = Workbook::new();
    wb.set_cell(Some("Sheet1"), "A", 1, Value::Number(3.0f64.to_bits()));
    assert_eq!(wb.get_cell(Some("SHEET1"), "A", 1), Value::Number(3.0f64.to_bits()));
}

#[test]
fn names_are_case_insensitive() {
    let mut wb = Workbook::new();
    wb.set_name("Total", Value::Number(9.0f64.to_bits()));
    assert_eq!(wb.get_name("TOTAL"), Some(Value::Number(9.0f64.to_bits())));
}

#[test]
fn unset_name_is_none() {
    let wb = Workbook::new();
    assert_eq!(wb.get_name("Missing"), None);
}
