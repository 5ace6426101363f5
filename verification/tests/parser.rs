use formula_fmt::number::Decimal;
use formula_fmt::parser::{parse, parse_cell_ref, BinaryOp, Expr, UnaryOp};
use formula_fmt::printer::render;

#[test]
fn unary_minus_binds_tighter_than_pow() {
    // "-2^2" is 4 in Excel, not -4: the minus only grabs its immediate
    // operand, so the tree is (-2)^2, not -(2^2).
    let expr = parse("-2^2").unwrap();
    assert_eq!(
        expr,
        Expr::Binary(
            BinaryOp::Pow,
            Box::new(Expr::Unary(
                UnaryOp::Neg,
                Box::new(Expr::Number(Decimal::from_literal("2").unwrap()))
            )),
            Box::new(Expr::Number(Decimal::from_literal("2").unwrap())),
        )
    );
    assert_eq!(format!("={}", render(&parse("-2^2").unwrap())), "=-2^2");
}

#[test]
fn pow_right_operand_can_be_unary() {
    let expr = parse("2^-2").unwrap();
    assert_eq!(
        expr,
        Expr::Binary(
            BinaryOp::Pow,
            Box::new(Expr::Number(Decimal::from_literal("2").unwrap())),
            Box::new(Expr::Unary(
                UnaryOp::Neg,
                Box::new(Expr::Number(Decimal::from_literal("2").unwrap()))
            )),
        )
    );
    assert_eq!(format!("={}", render(&parse("2^-2").unwrap())), "=2^-2");
}

#[test]
fn unary_minus_binds_tighter_than_percent() {
    let expr = parse("-2%").unwrap();
    assert_eq!(
        expr,
        Expr::Unary(
            UnaryOp::Percent,
            Box::new(Expr::Unary(
                UnaryOp::Neg,
                Box::new(Expr::Number(Decimal::from_literal("2").unwrap()))
            )),
        )
    );
}

#[test]
fn percent_binds_tighter_than_pow() {
    let expr = parse("2%^3").unwrap();
    assert_eq!(
        expr,
        Expr::Binary(
            BinaryOp::Pow,
            Box::new(Expr::Unary(
                UnaryOp::Percent,
                Box::new(Expr::Number(Decimal::from_literal("2").unwrap()))
            )),
            Box::new(Expr::Number(Decimal::from_literal("3").unwrap())),
        )
    );
    assert_eq!(format!("={}", render(&parse("2%^3").unwrap())), "=2%^3");
}

#[test]
fn multiplication_binds_tighter_than_addition() {
    let expr = parse("2+3*4").unwrap();
    assert_eq!(
        expr,
        Expr::Binary(
            BinaryOp::Add,
            Box::new(Expr::Number(Decimal::from_literal("2").unwrap())),
            Box::new(Expr::Binary(
                BinaryOp::Mul,
                Box::new(Expr::Number(Decimal::from_literal("3").unwrap())),
                Box::new(Expr::Number(Decimal::from_literal("4").unwrap())),
            )),
        )
    );
    assert_eq!(format!("={}", render(&parse("2+3*4").unwrap())), "=2+3*4");
}

#[test]
fn parens_reinstated_when_grouping_overrides_precedence() {
    assert_eq!(format!("={}", render(&parse("(2+3)*4").unwrap())), "=(2+3)*4");
}

#[test]
fn range_binds_tighter_than_unary_minus() {
    let expr = parse("-A1:B2").unwrap();
    match expr {
        Expr::Unary(UnaryOp::Neg, inner) => {
            assert!(matches!(*inner, Expr::Range(..)));
        }
        other => panic!("expected a negated range, got {:?}", other),
    }
    assert_eq!(format!("={}", render(&parse("-A1:B2").unwrap())), "=-A1:B2");
}

#[test]
fn chained_comparisons_are_left_associative() {
    let expr = parse("1<2=3").unwrap();
    assert_eq!(
        expr,
        Expr::Binary(
            BinaryOp::Eq,
            Box::new(Expr::Binary(
                BinaryOp::Lt,
                Box::new(Expr::Number(Decimal::from_literal("1").unwrap())),
                Box::new(Expr::Number(Decimal::from_literal("2").unwrap())),
            )),
            Box::new(Expr::Number(Decimal::from_literal("3").unwrap())),
        )
    );
    assert_eq!(format!("={}", render(&parse("1<2=3").unwrap())), "=1<2=3");
}

#[test]
fn concat_binds_looser_than_addition_but_tighter_than_comparison() {
    assert_eq!(format!("={}", render(&parse("1&2+3=4&5").unwrap())), "=1&2+3=4&5");
}

#[test]
fn function_and_cell_names_are_canonicalized() {
    assert_eq!(
        format!("={}", render(&parse("sum(a1:a10)+total").unwrap())),
        "=SUM(A1:A10)+total"
    );
}

#[test]
fn bare_sheet_name_round_trips_without_quotes() {
    assert_eq!(format!("={}", render(&parse("Sheet1!A1").unwrap())), "=Sheet1!A1");
}

#[test]
fn quoted_sheet_name_is_required_for_spaces() {
    let expr = parse("'My Sheet'!A1").unwrap();
    match expr {
        Expr::Reference(cell) => assert_eq!(cell.sheet.as_deref(), Some("My Sheet")),
        other => panic!("expected a reference, got {:?}", other),
    }
    assert_eq!(format!("={}", render(&parse("'My Sheet'!A1").unwrap())), "='My Sheet'!A1");
}

#[test]
fn quoted_sheet_name_unescapes_doubled_quotes() {
    let expr = parse("'O''Brien''s Sheet'!A1").unwrap();
    match expr {
        Expr::Reference(cell) => assert_eq!(cell.sheet.as_deref(), Some("O'Brien's Sheet")),
        other => panic!("expected a reference, got {:?}", other),
    }
    assert_eq!(
        format!("={}", render(&parse("'O''Brien''s Sheet'!A1").unwrap())),
        "='O''Brien''s Sheet'!A1"
    );
}

#[test]
fn plain_sheet_name_does_not_pick_up_quotes_it_did_not_have() {
    assert_eq!(format!("={}", render(&parse("'Sheet1'!A1").unwrap())), "=Sheet1!A1");
}

#[test]
fn unterminated_sheet_name_reports_opening_quote_position() {
    let err = parse("'My Sheet!A1").unwrap_err();
    assert_eq!(err.pos, 0);
}

#[test]
fn missing_operand_reports_position_at_end_of_input() {
    let err = parse("1+").unwrap_err();
    assert_eq!(err.pos, 2);
}

#[test]
fn missing_operand_before_operator_reports_operator_position() {
    let err = parse("1+*2").unwrap_err();
    assert_eq!(err.pos, 2);
}

#[test]
fn trailing_input_is_rejected_at_its_own_position() {
    let err = parse("1 2").unwrap_err();
    assert_eq!(err.pos, 2);
}

#[test]
fn parenthesized_comma_list_is_a_union() {
    let expr = parse("(A1:A2,B1:B2)").unwrap();
    assert_eq!(
        expr,
        Expr::Union(vec![
            Expr::Range(
                Box::new(Expr::Reference(parse_cell_ref("A1").unwrap())),
                Box::new(Expr::Reference(parse_cell_ref("A2").unwrap())),
            ),
            Expr::Range(
                Box::new(Expr::Reference(parse_cell_ref("B1").unwrap())),
                Box::new(Expr::Reference(parse_cell_ref("B2").unwrap())),
            ),
        ])
    );
    assert_eq!(format!("={}", render(&parse("(A1:A2,B1:B2)").unwrap())), "=(A1:A2, B1:B2)");
}

#[test]
fn union_can_appear_as_a_function_argument() {
    assert_eq!(
        format!("={}", render(&parse("sum((a1:a2,b1:b2))").unwrap())),
        "=SUM((A1:A2, B1:B2))"
    );
}

#[test]
fn union_of_more_than_two_members_round_trips() {
    assert_eq!(format!("={}", render(&parse("(A1,B1,C1)").unwrap())), "=(A1, B1, C1)");
}

#[test]
fn plain_parens_without_a_comma_stay_a_grouping_not_a_union() {
    let expr = parse("(A1)").unwrap();
    assert_eq!(expr, Expr::Reference(parse_cell_ref("A1").unwrap()));
}

#[test]
fn union_with_trailing_comma_reports_missing_operand() {
    let err = parse("(A1,)").unwrap_err();
    assert_eq!(err.pos, 4);
}
