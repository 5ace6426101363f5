use formula_fmt::lexer::{Lexer, TokenKind};
use formula_fmt::number::Decimal;
use formula_fmt::parser::{parse, parse_cell_ref, parse_ident, Expr, UnaryOp};
use formula_fmt::printer::{
    json_error_report, json_report_head, push_json_string, render, to_json, write_json,
};

fn canonical(input: &str) -> String {
    render(&parse(input).unwrap())
}

fn assert_reparses(input: &str) {
    let tree = parse(input).unwrap();
    let text = render(&tree);
    let again = parse(&text).unwrap();
    assert_eq!(again, tree, "{} -> {}", input, text);
    assert_eq!(render(&again), text);
}

#[test]
fn canonical_text_reparses_to_the_same_tree() {
    for input in [
        "1+2*3",
        "(1+2)*3",
        "2^3^4",
        "2^(3^4)",
        "-2^2",
        "-(2^2)",
        "--1",
        "1--1",
        "50%%",
        "-(1%)",
        "a1:b2",
        "(1+2):A1",
        "A1:(B1:C1)",
        "A1:A10 A5:A15",
        "A1 (B1)",
        "SUM(A1) (B1)",
        "A1 B1 C1",
        "A1 (B1 C1)",
        "(A1 B1) C1",
        "A1:B2 TRUE",
        "Sheet1!A1 (B1 C1)",
        "A1:5 (B1 C1)",
        "(A1 B1:C1) (2)",
        "(A1,B1)",
        "((A1,B1),C1)",
        "sum((a1:a2,b1:b2))",
        "f()",
        "f(1, g(2), (3))",
        "{1,2;3,4}",
        "{-1,\"a\";TRUE,#n/a}",
        "\"say \"\"hi\"\"\"",
        "'My Sheet'!A1",
        "'It''s'!$B$2",
        "Sheet1!a1",
        "''!A1",
        "total+tax_rate.2",
        "1<2",
        "1<-2",
        "1<>2",
        "1>=2",
        "1<=2&\"x\"",
        "#DIV/0!+1",
        "1e3+.5",
        "0.000123",
        "123e-2",
        "1&2=3",
        "straße+1",
    ] {
        assert_reparses(input);
    }
}

#[test]
fn spacing_and_casing_are_made_canonical() {
    assert_eq!(canonical(" sum( a1 , 2 ) "), "SUM(A1, 2)");
    assert_eq!(canonical("a1 + $b$2 ^ - 2"), "A1+$B$2^-2");
    assert_eq!(canonical("true = false"), "TRUE=FALSE");
    assert_eq!(canonical("((1))"), "1");
    assert_eq!(canonical("(a1) (b1)"), "A1 B1");
}

#[test]
fn intersect_operands_are_wrapped_where_needed() {
    assert_eq!(canonical("(A1) (1)"), "(A1) (1)");
    // A name right before an opening parenthesis is a call, spaced or not.
    assert_eq!(canonical("A1 (1)"), "A1(1)");
    assert_eq!(canonical("(A1) (B1:C1)"), "A1 B1:C1");
    assert_eq!(canonical("(A1) (B1 C1)"), "(A1) (B1 C1)");
    assert_eq!(canonical("F(A1) (B1)"), "F(A1) B1");
    assert_eq!(canonical("F(A1) (1)"), "F(A1) (1)");
    assert_eq!(canonical("A1 'My Sheet'!B2"), "A1 'My Sheet'!B2");
    // No call can follow a sheet's cell or a number, so no parentheses there.
    assert_eq!(canonical("(Sheet1!A1) (B1 C1)"), "Sheet1!A1 (B1 C1)");
    assert_eq!(canonical("A1:5 (B1 C1)"), "A1:5 (B1 C1)");
    assert_eq!(canonical("(A1:B1) (C1 D1)"), "(A1:B1) (C1 D1)");
    assert_eq!(canonical("(A1 TRUE) (1)"), "(A1 TRUE) (1)");
}

#[test]
fn error_literals_match_any_case_and_print_upper_case() {
    assert_eq!(parse("#n/a").unwrap(), Expr::Error("#N/A".to_string()));
    assert_eq!(parse("#Div/0!").unwrap(), Expr::Error("#DIV/0!".to_string()));
    assert_eq!(canonical("#getting_data!"), "#GETTING_DATA!");
    assert_eq!(canonical("#null!&#num!"), "#NULL!&#NUM!");
}

#[test]
fn numbers_print_in_plain_positional_notation() {
    assert_eq!(canonical("1e3"), "1000");
    assert_eq!(canonical("2.50"), "2.5");
    assert_eq!(canonical(".5"), "0.5");
    assert_eq!(canonical("1.5e-3"), "0.0015");
    assert_eq!(canonical("000"), "0");
    assert_eq!(canonical("0.0e5"), "0");
    assert_eq!(canonical("120E+1"), "1200");
    assert_eq!(canonical("12.5E-1"), "1.25");
}

#[test]
fn decimal_literals_are_kept_exact() {
    assert_eq!(
        Decimal::from_literal("0.1").unwrap().render(),
        "0.1".to_string()
    );
    assert_eq!(Decimal::from_literal("1.000").unwrap(), Decimal::from_literal("1").unwrap());
    assert_eq!(Decimal::from_literal("abc"), None);
    assert_eq!(Decimal::from_literal("1e"), None);
}

#[test]
fn unicode_letters_make_names() {
    assert_eq!(parse("straße").unwrap(), Expr::Name("straße".to_string()));
    assert_eq!(parse("aé").unwrap(), Expr::Name("aé".to_string()));
    assert_eq!(canonical("größe*2"), "größe*2");
    assert_eq!(parse("éclair").unwrap(), Expr::Name("éclair".to_string()));
    assert_eq!(canonical("Ärger!b2"), "Ärger!B2");
    let err = parse("1+€").unwrap_err();
    assert_eq!(err.message, "unexpected character '€'");
    assert_eq!(err.pos, 2);
}

#[test]
fn unterminated_string_is_reported_at_its_quote() {
    let err = parse("1&\"abc").unwrap_err();
    assert_eq!(err.message, "unterminated string literal");
    assert_eq!(err.pos, 2);
}

#[test]
fn unexpected_character_is_reported_at_its_position() {
    let err = parse("1+?").unwrap_err();
    assert_eq!(err.message, "unexpected character '?'");
    assert_eq!(err.pos, 2);
    let err = parse("#FOO").unwrap_err();
    assert_eq!(err.message, "unexpected character '#'");
    assert_eq!(err.pos, 0);
}

#[test]
fn invalid_name_is_reported_at_the_name() {
    let err = parse("1+$x").unwrap_err();
    assert_eq!(err.message, "'$x' is not a valid reference or name");
    assert_eq!(err.pos, 2);
}

#[test]
fn sheet_needs_a_cell_reference_after_the_bang() {
    let err = parse("Sheet1!foo").unwrap_err();
    assert_eq!(err.message, "'foo' is not a valid cell reference");
    assert_eq!(err.pos, 7);
    let err = parse("Sheet1!1").unwrap_err();
    assert_eq!(err.message, "expected a cell reference after '!'");
    assert_eq!(err.pos, 7);
    let err = parse("'Sheet 1'+1").unwrap_err();
    assert_eq!(err.message, "expected '!', found '+'");
    assert_eq!(err.pos, 9);
}

#[test]
fn array_literals_hold_only_constants() {
    let err = parse("{1,A1}").unwrap_err();
    assert_eq!(err.message, "expected a constant in an array literal, found 'A1'");
    assert_eq!(err.pos, 3);
    let err = parse("{-x}").unwrap_err();
    assert_eq!(err.message, "expected a constant in an array literal, found 'x'");
    assert_eq!(err.pos, 2);
    let err = parse("{1,2").unwrap_err();
    assert_eq!(err.message, "expected '}', found 'end of formula'");
    assert_eq!(err.pos, 4);
    assert_eq!(
        parse("{-1}").unwrap(),
        Expr::Array(vec![vec![Expr::Unary(
            UnaryOp::Neg,
            Box::new(Expr::Number(Decimal::from_literal("1").unwrap()))
        )]])
    );
}

#[test]
fn unclosed_parenthesis_is_reported() {
    let err = parse("(1+2").unwrap_err();
    assert_eq!(err.message, "expected ')', found 'end of formula'");
    assert_eq!(err.pos, 4);
    let err = parse("f(1 2)").unwrap_err();
    assert_eq!(err.message, "expected ')', found '2'");
    assert_eq!(err.pos, 4);
}

#[test]
fn missing_value_names_what_was_found() {
    let err = parse("1+*2").unwrap_err();
    assert_eq!(err.message, "expected a value, found '*'");
    assert_eq!(err.pos, 2);
    let err = parse("").unwrap_err();
    assert_eq!(err.message, "expected a value, found 'end of formula'");
    assert_eq!(err.pos, 0);
}

#[test]
fn trailing_input_names_what_was_found() {
    let err = parse("1 2").unwrap_err();
    assert_eq!(err.message, "unexpected trailing input near '2'");
    assert_eq!(err.pos, 2);
    let err = parse("A1:B1:C1").unwrap_err();
    assert_eq!(err.message, "unexpected trailing input near ':'");
    assert_eq!(err.pos, 5);
}

#[test]
fn cell_references_are_read_exactly() {
    let c = parse_cell_ref("$ab$12").unwrap();
    assert_eq!(c.sheet, None);
    assert!(c.col_absolute);
    assert_eq!(c.column, "AB");
    assert!(c.row_absolute);
    assert_eq!(c.row, 12);
    assert_eq!(parse_cell_ref("xfd4294967295").unwrap().row, 4294967295);
    assert_eq!(parse_cell_ref("A4294967296"), None);
    assert_eq!(parse_cell_ref("A0"), None);
    assert_eq!(parse_cell_ref("ABCD1"), None);
    assert_eq!(parse_cell_ref("A1B"), None);
    assert_eq!(parse_cell_ref("1"), None);
    assert_eq!(parse_cell_ref("A01").unwrap().row, 1);
}

#[test]
fn tokens_carry_their_position_and_spacing() {
    let tokens = Lexer::new("A1  +b").tokenize().unwrap();
    assert_eq!(tokens.len(), 4);
    assert_eq!(tokens[0].kind, TokenKind::Ident("A1".to_string()));
    assert_eq!(tokens[0].pos, 0);
    assert!(!tokens[0].after_space);
    assert_eq!(tokens[1].kind, TokenKind::Plus);
    assert_eq!(tokens[1].pos, 4);
    assert!(tokens[1].after_space);
    assert_eq!(tokens[2].kind, TokenKind::Ident("b".to_string()));
    assert_eq!(tokens[3].kind, TokenKind::Eof);
    assert_eq!(tokens[3].pos, 6);
    let tokens = Lexer::new("a<=b<>c>=d<e>f").tokenize().unwrap();
    let kinds: Vec<&TokenKind> = tokens.iter().map(|t| &t.kind).collect();
    assert_eq!(kinds[1], &TokenKind::Le);
    assert_eq!(kinds[3], &TokenKind::Ne);
    assert_eq!(kinds[5], &TokenKind::Ge);
    assert_eq!(kinds[7], &TokenKind::Lt);
    assert_eq!(kinds[9], &TokenKind::Gt);
}

#[test]
fn json_strings_escape_quotes_backslashes_and_controls() {
    let mut out = String::new();
    push_json_string(&mut out, "a\"b\\c\nd\te\u{1}");
    assert_eq!(out, "\"a\\\"b\\\\c\\nd\\te\\u0001\"");
}

#[test]
fn trees_are_written_as_json() {
    assert_eq!(
        to_json(&parse("a1+$B$2^-2").unwrap()),
        "{\"type\":\"binary\",\"op\":\"add\",\"left\":{\"type\":\"reference\",\"sheet\":null,\"column\":\"A\",\"row\":1,\"colAbsolute\":false,\"rowAbsolute\":false},\"right\":{\"type\":\"binary\",\"op\":\"pow\",\"left\":{\"type\":\"reference\",\"sheet\":null,\"column\":\"B\",\"row\":2,\"colAbsolute\":true,\"rowAbsolute\":true},\"right\":{\"type\":\"unary\",\"op\":\"neg\",\"operand\":{\"type\":\"number\",\"value\":2}}}}"
    );
}

#[test]
fn json_reports_describe_the_outcome() {
    let input = "=sum(a1)";
    let head = json_report_head(input, &parse("sum(a1)").unwrap());
    assert_eq!(
        head,
        "{\"valid\":true,\"input\":\"=sum(a1)\",\"canonical\":\"=SUM(A1)\",\"ast\":{\"type\":\"call\",\"name\":\"SUM\",\"args\":[{\"type\":\"reference\",\"sheet\":null,\"column\":\"A\",\"row\":1,\"colAbsolute\":false,\"rowAbsolute\":false}]}"
    );
    let err = parse("1+2*").unwrap_err();
    assert_eq!(
        json_error_report("=1+2*", &err),
        "{\"valid\":false,\"input\":\"=1+2*\",\"error\":\"expected a value, found 'end of formula'\",\"position\":4}"
    );
}

#[test]
fn next_token_starts_after_whitespace_and_ends_at_the_end() {
    let mut lexer = Lexer::new("  +12 ");
    let t = lexer.next_token().unwrap();
    assert_eq!(t.kind, TokenKind::Plus);
    assert_eq!(t.pos, 2);
    assert!(t.after_space);
    let t = lexer.next_token().unwrap();
    assert_eq!(t.pos, 3);
    assert!(!t.after_space);
    let t = lexer.next_token().unwrap();
    assert_eq!(t.kind, TokenKind::Eof);
    assert_eq!(t.pos, 6);
    let t = lexer.next_token().unwrap();
    assert_eq!(t.kind, TokenKind::Eof);
    assert_eq!(t.pos, 6);
    let mut lexer = Lexer::new(" 1 @");
    assert_eq!(lexer.next_token().unwrap().pos, 1);
    let err = lexer.next_token().unwrap_err();
    assert_eq!(err.pos, 3);
}

#[test]
fn write_json_appends_to_what_is_there() {
    let mut out = String::from("[");
    write_json(&parse("TRUE").unwrap(), &mut out);
    assert_eq!(out, "[{\"type\":\"boolean\",\"value\":true}");
}

#[test]
fn an_identifier_reads_as_boolean_reference_name_or_error() {
    let tokens = Lexer::new("x true").tokenize().unwrap();
    let name = "tRuE".to_string();
    let (e, next) = parse_ident(&tokens, &name, 2, 2).unwrap();
    assert_eq!(e, Expr::Boolean(true));
    assert_eq!(next, 2);
    let name = "a1".to_string();
    let (e, _) = parse_ident(&tokens, &name, 0, 2).unwrap();
    assert_eq!(render(&e), "A1");
    let name = "Total".to_string();
    let (e, _) = parse_ident(&tokens, &name, 0, 2).unwrap();
    assert_eq!(e, Expr::Name("Total".to_string()));
    let name = "$x".to_string();
    let err = parse_ident(&tokens, &name, 7, 2).unwrap_err();
    assert_eq!(err.pos, 7);
    assert_eq!(err.message, "'$x' is not a valid reference or name");
}
