//! Recursive-descent parser producing an AST from formula text.
//!
//! The levels below go from the loosest-binding operators to the tightest,
//! following the operator precedence that spreadsheets document:
//! comparisons, then concatenation, then `+ -`, then `* /`, then `^`, then
//! postfix `%`, then unary minus and plus, then the intersect operator (a
//! space between two references), then the range operator `:`. Unary minus
//! binds tighter than `^`, so `=-2^2` is `(-2)^2`, which is 4.
//! The five binary levels share one left-associative loop.

use vstd::prelude::*;
use crate::chars::{
    spec_is_alphabetic, spec_is_alphanumeric, upper, is_ascii_letter, is_ascii_digit,
    is_alphabetic, is_alphanumeric, upper_vec, upper_string, chars_of, chars_eq, push_chars,
};
use crate::number::{
    Decimal, render_decimal, decimal_wf, scan_digits, int_end, frac_start, frac_end,
    lemma_scan_digits, lemma_normalize_wf,
};
use crate::lexer::{
    Lexer, Token, TokenKind, Tok, Kind, Failure, view_tokens, lex, lex_from, lex_token, skip_ws,
    lemma_skip_ws,
};

verus! {

#[derive(Debug, Clone, PartialEq)]
pub struct CellRef {
    pub sheet: Option<String>,
    pub col_absolute: bool,
    pub column: String,
    pub row_absolute: bool,
    pub row: u32,
}

#[derive(Debug, Clone, Copy, PartialEq, Eq, Structural)]
pub enum UnaryOp {
    Neg,
    Pos,
    Percent,
}

#[derive(Debug, Clone, Copy, PartialEq, Eq, Structural)]
pub enum BinaryOp {
    Add,
    Sub,
    Mul,
    Div,
    Pow,
    Concat,
    Eq,
    Ne,
    Lt,
    Le,
    Gt,
    Ge,
}

#[derive(Debug, PartialEq)]
pub enum Expr {
    Number(Decimal),
    Text(String),
    Boolean(bool),
    Error(String),
    Name(String),
    Reference(CellRef),
    Range(Box<Expr>, Box<Expr>),
    Intersect(Box<Expr>, Box<Expr>),
    Union(Vec<Expr>),
    Array(Vec<Vec<Expr>>),
    Unary(UnaryOp, Box<Expr>),
    Binary(BinaryOp, Box<Expr>, Box<Expr>),
    Call(String, Vec<Expr>),
}

#[derive(Debug)]
pub struct ParseError {
    pub message: String,
    pub pos: usize,
}

impl View for ParseError {
    type V = Failure;

    open spec fn view(&self) -> Failure {
        (self.message@, self.pos as int)
    }
}

/// The content of a cell reference.
pub struct Cell {
    pub sheet: Option<Seq<char>>,
    pub col_absolute: bool,
    pub column: Seq<char>,
    pub row_absolute: bool,
    pub row: int,
}

/// The content of an expression tree.
pub enum Ex {
    Number((Seq<char>, int)),
    Text(Seq<char>),
    Boolean(bool),
    Error(Seq<char>),
    Name(Seq<char>),
    Reference(Cell),
    Range(Box<Ex>, Box<Ex>),
    Intersect(Box<Ex>, Box<Ex>),
    Union(Seq<Ex>),
    Array(Seq<Seq<Ex>>),
    Unary(UnaryOp, Box<Ex>),
    Binary(BinaryOp, Box<Ex>, Box<Ex>),
    Call(Seq<char>, Seq<Ex>),
}

impl View for CellRef {
    type V = Cell;

    open spec fn view(&self) -> Cell {
        Cell {
            sheet: match self.sheet {
                Some(s) => Some(s@),
                None => None,
            },
            col_absolute: self.col_absolute,
            column: self.column@,
            row_absolute: self.row_absolute,
            row: self.row as int,
        }
    }
}

pub open spec fn view_list(s: Seq<Expr>) -> Seq<Ex>
    decreases s,
{
    if s.len() == 0 {
        Seq::empty()
    } else {
        view_list(s.drop_last()).push(view_expr(s.last()))
    }
}

pub open spec fn view_rows(s: Seq<Vec<Expr>>) -> Seq<Seq<Ex>>
    decreases s,
{
    if s.len() == 0 {
        Seq::empty()
    } else {
        view_rows(s.drop_last()).push(view_list(s.last()@))
    }
}

pub open spec fn view_expr(e: Expr) -> Ex
    decreases e,
{
    match e {
        Expr::Number(d) => Ex::Number(d@),
        Expr::Text(s) => Ex::Text(s@),
        Expr::Boolean(b) => Ex::Boolean(b),
        Expr::Error(s) => Ex::Error(s@),
        Expr::Name(s) => Ex::Name(s@),
        Expr::Reference(c) => Ex::Reference(c@),
        Expr::Range(a, b) => Ex::Range(Box::new(view_expr(*a)), Box::new(view_expr(*b))),
        Expr::Intersect(a, b) => Ex::Intersect(Box::new(view_expr(*a)), Box::new(view_expr(*b))),
        Expr::Union(v) => Ex::Union(view_list(v@)),
        Expr::Array(rows) => Ex::Array(view_rows(rows@)),
        Expr::Unary(op, a) => Ex::Unary(op, Box::new(view_expr(*a))),
        Expr::Binary(op, a, b) => Ex::Binary(op, Box::new(view_expr(*a)), Box::new(view_expr(*b))),
        Expr::Call(name, args) => Ex::Call(name@, view_list(args@)),
    }
}

impl View for Expr {
    type V = Ex;

    open spec fn view(&self) -> Ex {
        view_expr(*self)
    }
}

pub proof fn lemma_view_list_push(s: Seq<Expr>, x: Expr)
    ensures
        view_list(s.push(x)) == view_list(s).push(x@),
{
    assert(s.push(x).drop_last() =~= s);
}

pub proof fn lemma_view_rows_push(s: Seq<Vec<Expr>>, x: Vec<Expr>)
    ensures
        view_rows(s.push(x)) == view_rows(s).push(view_list(x@)),
{
    assert(s.push(x).drop_last() =~= s);
}

pub proof fn lemma_view_list_len(s: Seq<Expr>)
    ensures
        view_list(s).len() == s.len(),
        forall|i: int| 0 <= i < s.len() ==> #[trigger] view_list(s)[i] == s[i]@,
    decreases s.len(),
{
    if s.len() > 0 {
        lemma_view_list_len(s.drop_last());
    }
}

// ---------------------------------------------------------------------------
// Specification of the parser, over token sequences.
// ---------------------------------------------------------------------------

pub type PResult = Result<(Ex, int), Failure>;

pub type LResult = Result<(Seq<Ex>, int), Failure>;

/// Token sequences as the lexer hands them over: they end with `Eof`, hold no
/// other `Eof`, and every number in them is in normal form.
pub open spec fn tokens_wf(t: Seq<Tok>) -> bool {
    &&& t.len() > 0
    &&& t.last().kind is Eof
    &&& forall|i: int| 0 <= i < t.len() - 1 ==> !(#[trigger] t[i].kind is Eof)
    &&& forall|i: int|
        0 <= i < t.len() ==> (#[trigger] t[i].kind matches Kind::Number(d) ==> decimal_wf(d))
}

/// How a token kind is written in error messages.
pub open spec fn describe(k: Kind) -> Seq<char> {
    match k {
        Kind::Number(d) => render_decimal(d),
        Kind::Text(s) => "\""@ + s + "\""@,
        Kind::Ident(s) => s,
        Kind::SheetName(s) => "'"@ + s + "'"@,
        Kind::Error(s) => s,
        Kind::Plus => "+"@,
        Kind::Minus => "-"@,
        Kind::Star => "*"@,
        Kind::Slash => "/"@,
        Kind::Caret => "^"@,
        Kind::Ampersand => "&"@,
        Kind::Percent => "%"@,
        Kind::Eq => "="@,
        Kind::Ne => "<>"@,
        Kind::Lt => "<"@,
        Kind::Le => "<="@,
        Kind::Gt => ">"@,
        Kind::Ge => ">="@,
        Kind::LParen => "("@,
        Kind::RParen => ")"@,
        Kind::LBrace => "{"@,
        Kind::RBrace => "}"@,
        Kind::Comma => ","@,
        Kind::Semicolon => ";"@,
        Kind::Colon => ":"@,
        Kind::Bang => "!"@,
        Kind::Eof => "end of formula"@,
    }
}

pub open spec fn msg_expected(want: Kind, found: Kind) -> Seq<char> {
    "expected '"@ + describe(want) + "', found '"@ + describe(found) + "'"@
}

pub open spec fn msg_trailing(found: Kind) -> Seq<char> {
    "unexpected trailing input near '"@ + describe(found) + "'"@
}

pub open spec fn msg_value(found: Kind) -> Seq<char> {
    "expected a value, found '"@ + describe(found) + "'"@
}

pub open spec fn msg_constant(found: Kind) -> Seq<char> {
    "expected a constant in an array literal, found '"@ + describe(found) + "'"@
}

pub open spec fn msg_bad_name(name: Seq<char>) -> Seq<char> {
    "'"@ + name + "' is not a valid reference or name"@
}

pub open spec fn msg_bad_cell(name: Seq<char>) -> Seq<char> {
    "'"@ + name + "' is not a valid cell reference"@
}

pub open spec fn msg_after_bang() -> Seq<char> {
    "expected a cell reference after '!'"@
}

/// The token at `i` must be of kind `k`; on success, the index after it.
pub open spec fn expect(t: Seq<Tok>, i: int, k: Kind) -> Result<int, Failure> {
    if t[i].kind == k {
        Ok(i + 1)
    } else {
        Err((msg_expected(k, t[i].kind), t[i].pos))
    }
}

/// The operator a token stands for at binary level `k`
/// (1 comparisons, 2 `&`, 3 `+ -`, 4 `* /`, 5 `^`).
pub open spec fn binary_op_at(k: int, kind: Kind) -> Option<BinaryOp> {
    if k == 1 {
        match kind {
            Kind::Eq => Some(BinaryOp::Eq),
            Kind::Ne => Some(BinaryOp::Ne),
            Kind::Lt => Some(BinaryOp::Lt),
            Kind::Le => Some(BinaryOp::Le),
            Kind::Gt => Some(BinaryOp::Gt),
            Kind::Ge => Some(BinaryOp::Ge),
            _ => None,
        }
    } else if k == 2 {
        match kind {
            Kind::Ampersand => Some(BinaryOp::Concat),
            _ => None,
        }
    } else if k == 3 {
        match kind {
            Kind::Plus => Some(BinaryOp::Add),
            Kind::Minus => Some(BinaryOp::Sub),
            _ => None,
        }
    } else if k == 4 {
        match kind {
            Kind::Star => Some(BinaryOp::Mul),
            Kind::Slash => Some(BinaryOp::Div),
            _ => None,
        }
    } else if k == 5 {
        match kind {
            Kind::Caret => Some(BinaryOp::Pow),
            _ => None,
        }
    } else {
        None
    }
}

/// The expressions that denote references (and so may take part in an
/// intersection).
pub open spec fn ref_like(e: Ex) -> bool {
    match e {
        Ex::Reference(_) | Ex::Range(..) | Ex::Intersect(..) | Ex::Union(_) | Ex::Name(_)
        | Ex::Call(..) => true,
        _ => false,
    }
}

/// Tokens that may start the right operand of an intersection.
pub open spec fn starts_reference(k: Kind) -> bool {
    k is Ident || k is SheetName || k is LParen
}

/// Whether a parse that started at `i` and stopped at `j` moved forward
/// without reaching the final `Eof`.
pub open spec fn advanced(t: Seq<Tok>, i: int, j: int) -> bool {
    i < j < t.len()
}

pub open spec fn stuck(j: int) -> Failure {
    (Seq::empty(), j)
}

/// A whole expression (the loosest level).
pub open spec fn p_expr(t: Seq<Tok>, i: int) -> PResult
    decreases t.len() - i, 30int,
{
    p_bin(t, i, 1)
}

/// Binary level `k`: operands of level `k + 1` joined left to right.
pub open spec fn p_bin(t: Seq<Tok>, i: int, k: int) -> PResult
    decreases t.len() - i, 25 - k,
{
    if k < 1 || k > 5 {
        Err(stuck(i))
    } else {
        let first = if k < 5 {
            p_bin(t, i, k + 1)
        } else {
            p_percent(t, i)
        };
        match first {
            Err(e) => Err(e),
            Ok((left, j)) => if advanced(t, i, j) {
                bin_tail(t, k, left, j)
            } else {
                Err(stuck(j))
            },
        }
    }
}

pub open spec fn bin_tail(t: Seq<Tok>, k: int, left: Ex, j: int) -> PResult
    decreases t.len() - j, 0int,
{
    if 1 <= k <= 5 && 0 <= j < t.len() {
        match binary_op_at(k, t[j].kind) {
            None => Ok((left, j)),
            Some(op) => {
                let right = if k < 5 {
                    p_bin(t, j + 1, k + 1)
                } else {
                    p_percent(t, j + 1)
                };
                match right {
                    Err(e) => Err(e),
                    Ok((r, j2)) => if advanced(t, j + 1, j2) {
                        bin_tail(t, k, Ex::Binary(op, Box::new(left), Box::new(r)), j2)
                    } else {
                        Err(stuck(j2))
                    },
                }
            },
        }
    } else {
        Err(stuck(j))
    }
}

/// Postfix percent: an operand of the unary level followed by any number of
/// `%`.
pub open spec fn p_percent(t: Seq<Tok>, i: int) -> PResult
    decreases t.len() - i, 19int,
{
    match p_unary(t, i) {
        Err(e) => Err(e),
        Ok((e, j)) => if advanced(t, i, j) {
            percent_tail(t, e, j)
        } else {
            Err(stuck(j))
        },
    }
}

pub open spec fn percent_tail(t: Seq<Tok>, e: Ex, j: int) -> PResult
    decreases t.len() - j, 0int,
{
    if 0 <= j < t.len() - 1 && t[j].kind is Percent {
        percent_tail(t, Ex::Unary(UnaryOp::Percent, Box::new(e)), j + 1)
    } else if 0 <= j < t.len() {
        Ok((e, j))
    } else {
        Err(stuck(j))
    }
}

/// Unary minus and plus.
pub open spec fn p_unary(t: Seq<Tok>, i: int) -> PResult
    decreases t.len() - i, 18int,
{
    if 0 <= i < t.len() - 1 && (t[i].kind is Minus || t[i].kind is Plus) {
        let op = if t[i].kind is Minus {
            UnaryOp::Neg
        } else {
            UnaryOp::Pos
        };
        match p_unary(t, i + 1) {
            Err(e) => Err(e),
            Ok((e, j)) => Ok((Ex::Unary(op, Box::new(e)), j)),
        }
    } else {
        p_intersect(t, i)
    }
}

/// The intersect operator: references separated by whitespace.
pub open spec fn p_intersect(t: Seq<Tok>, i: int) -> PResult
    decreases t.len() - i, 17int,
{
    match p_range(t, i) {
        Err(e) => Err(e),
        Ok((e, j)) => if advanced(t, i, j) {
            isect_tail(t, e, j)
        } else {
            Err(stuck(j))
        },
    }
}

pub open spec fn isect_tail(t: Seq<Tok>, left: Ex, j: int) -> PResult
    decreases t.len() - j, 17int,
{
    if 0 <= j < t.len() && t[j].after_space && starts_reference(t[j].kind) && ref_like(left) {
        match p_range(t, j) {
            Err(e) => Err(e),
            Ok((r, j2)) => if advanced(t, j, j2) {
                isect_tail(t, Ex::Intersect(Box::new(left), Box::new(r)), j2)
            } else {
                Err(stuck(j2))
            },
        }
    } else if 0 <= j < t.len() {
        Ok((left, j))
    } else {
        Err(stuck(j))
    }
}

/// The range operator: at most one `:` between two primaries.
pub open spec fn p_range(t: Seq<Tok>, i: int) -> PResult
    decreases t.len() - i, 16int,
{
    match p_primary(t, i) {
        Err(e) => Err(e),
        Ok((left, j)) => if advanced(t, i, j) {
            if t[j].kind is Colon {
                match p_primary(t, j + 1) {
                    Err(e) => Err(e),
                    Ok((right, j2)) => Ok((Ex::Range(Box::new(left), Box::new(right)), j2)),
                }
            } else {
                Ok((left, j))
            }
        } else {
            Err(stuck(j))
        },
    }
}

/// Literals, parenthesized expressions and unions, array literals, names,
/// references and function calls.
pub open spec fn p_primary(t: Seq<Tok>, i: int) -> PResult
    decreases t.len() - i, 15int,
{
    if 0 <= i < t.len() - 1 {
        match t[i].kind {
            Kind::Number(d) => Ok((Ex::Number(d), i + 1)),
            Kind::Text(s) => Ok((Ex::Text(s), i + 1)),
            Kind::Error(s) => Ok((Ex::Error(s), i + 1)),
            Kind::LParen => match p_expr(t, i + 1) {
                Err(e) => Err(e),
                Ok((first, j)) => if advanced(t, i + 1, j) {
                    if t[j].kind is Comma {
                        match union_items(t, seq![first], j) {
                            Err(e) => Err(e),
                            Ok((items, j2)) => match expect(t, j2, Kind::RParen) {
                                Err(e) => Err(e),
                                Ok(j3) => Ok((Ex::Union(items), j3)),
                            },
                        }
                    } else {
                        match expect(t, j, Kind::RParen) {
                            Err(e) => Err(e),
                            Ok(j3) => Ok((first, j3)),
                        }
                    }
                } else {
                    Err(stuck(j))
                },
            },
            Kind::LBrace => p_array(t, i + 1),
            Kind::Ident(name) => p_ident(t, name, t[i].pos, i + 1),
            Kind::SheetName(name) => match expect(t, i + 1, Kind::Bang) {
                Err(e) => Err(e),
                Ok(j) => p_after_bang(t, name, j),
            },
            _ => Err((msg_value(t[i].kind), t[i].pos)),
        }
    } else if 0 <= i < t.len() {
        Err((msg_value(t[i].kind), t[i].pos))
    } else {
        Err(stuck(i))
    }
}

/// The members of a union after its first: each preceded by a comma.
pub open spec fn union_items(t: Seq<Tok>, items: Seq<Ex>, j: int) -> LResult
    decreases t.len() - j, 0int,
{
    if 0 <= j < t.len() - 1 && t[j].kind is Comma {
        match p_expr(t, j + 1) {
            Err(e) => Err(e),
            Ok((e, j2)) => if advanced(t, j + 1, j2) {
                union_items(t, items.push(e), j2)
            } else {
                Err(stuck(j2))
            },
        }
    } else if 0 <= j < t.len() {
        Ok((items, j))
    } else {
        Err(stuck(j))
    }
}

/// What follows an identifier (which ended just before `i`): a call, a
/// sheet-qualified reference, a boolean, a cell reference or a defined name.
pub open spec fn p_ident(t: Seq<Tok>, name: Seq<char>, pos: int, i: int) -> PResult
    decreases t.len() - i, 0int,
{
    if 0 <= i < t.len() - 1 && t[i].kind is LParen {
        if t[i + 1].kind is RParen {
            Ok((Ex::Call(upper(name), Seq::empty()), i + 2))
        } else {
            match call_args(t, Seq::empty(), i + 1) {
                Err(e) => Err(e),
                Ok((args, j)) => match expect(t, j, Kind::RParen) {
                    Err(e) => Err(e),
                    Ok(j2) => Ok((Ex::Call(upper(name), args), j2)),
                },
            }
        }
    } else if 0 <= i < t.len() - 1 && t[i].kind is Bang {
        p_after_bang(t, name, i + 1)
    } else if 0 <= i < t.len() {
        if upper(name) == seq!['T', 'R', 'U', 'E'] {
            Ok((Ex::Boolean(true), i))
        } else if upper(name) == seq!['F', 'A', 'L', 'S', 'E'] {
            Ok((Ex::Boolean(false), i))
        } else {
            match spec_cell_ref(name) {
                Some(c) => Ok((Ex::Reference(c), i)),
                None => if is_valid_name(name) {
                    Ok((Ex::Name(name), i))
                } else {
                    Err((msg_bad_name(name), pos))
                },
            }
        }
    } else {
        Err(stuck(i))
    }
}

/// Comma-separated function arguments starting at `j`.
pub open spec fn call_args(t: Seq<Tok>, items: Seq<Ex>, j: int) -> LResult
    decreases t.len() - j, 31int,
{
    match p_expr(t, j) {
        Err(e) => Err(e),
        Ok((e, j2)) => if advanced(t, j, j2) {
            if t[j2].kind is Comma {
                call_args(t, items.push(e), j2 + 1)
            } else {
                Ok((items.push(e), j2))
            }
        } else {
            Err(stuck(j2))
        },
    }
}

/// A cell reference after `sheet!`; `i` indexes the token after the `!`.
pub open spec fn p_after_bang(t: Seq<Tok>, sheet: Seq<char>, i: int) -> PResult {
    if 0 <= i < t.len() {
        match t[i].kind {
            Kind::Ident(n) => match spec_cell_ref(n) {
                Some(c) => Ok(
                    (
                        Ex::Reference(
                            Cell {
                                sheet: Some(sheet),
                                col_absolute: c.col_absolute,
                                column: c.column,
                                row_absolute: c.row_absolute,
                                row: c.row,
                            },
                        ),
                        i + 1,
                    ),
                ),
                None => Err((msg_bad_cell(n), t[i].pos)),
            },
            _ => Err((msg_after_bang(), t[i].pos)),
        }
    } else {
        Err(stuck(i))
    }
}

/// One constant of an array literal: a number (optionally negated), a
/// text, a boolean or an error value.
pub open spec fn p_array_item(t: Seq<Tok>, i: int) -> PResult {
    if 0 <= i < t.len() - 1 {
        match t[i].kind {
            Kind::Number(d) => Ok((Ex::Number(d), i + 1)),
            Kind::Text(s) => Ok((Ex::Text(s), i + 1)),
            Kind::Error(s) => Ok((Ex::Error(s), i + 1)),
            Kind::Minus => match t[i + 1].kind {
                Kind::Number(d) => Ok(
                    (Ex::Unary(UnaryOp::Neg, Box::new(Ex::Number(d))), i + 2),
                ),
                _ => Err((msg_constant(t[i + 1].kind), t[i + 1].pos)),
            },
            Kind::Ident(name) => if upper(name) == seq!['T', 'R', 'U', 'E'] {
                Ok((Ex::Boolean(true), i + 1))
            } else if upper(name) == seq!['F', 'A', 'L', 'S', 'E'] {
                Ok((Ex::Boolean(false), i + 1))
            } else {
                Err((msg_constant(t[i].kind), t[i].pos))
            },
            _ => Err((msg_constant(t[i].kind), t[i].pos)),
        }
    } else if 0 <= i < t.len() {
        Err((msg_constant(t[i].kind), t[i].pos))
    } else {
        Err(stuck(i))
    }
}

/// The comma-separated constants of one array row.
pub open spec fn array_row(t: Seq<Tok>, items: Seq<Ex>, j: int) -> LResult
    decreases t.len() - j,
{
    match p_array_item(t, j) {
        Err(e) => Err(e),
        Ok((e, j2)) => if advanced(t, j, j2) {
            if t[j2].kind is Comma {
                array_row(t, items.push(e), j2 + 1)
            } else {
                Ok((items.push(e), j2))
            }
        } else {
            Err(stuck(j2))
        },
    }
}

/// The rows of an array literal, separated by `;`, up to the closing brace.
pub open spec fn array_rows(t: Seq<Tok>, rows: Seq<Seq<Ex>>, j: int) -> PResult
    decreases t.len() - j,
{
    match array_row(t, Seq::empty(), j) {
        Err(e) => Err(e),
        Ok((row, j2)) => if advanced(t, j, j2) {
            if t[j2].kind is Semicolon {
                array_rows(t, rows.push(row), j2 + 1)
            } else {
                match expect(t, j2, Kind::RBrace) {
                    Err(e) => Err(e),
                    Ok(j3) => Ok((Ex::Array(rows.push(row)), j3)),
                }
            }
        } else {
            Err(stuck(j2))
        },
    }
}

/// An array literal; `i` indexes the token after the opening brace.
pub open spec fn p_array(t: Seq<Tok>, i: int) -> PResult {
    array_rows(t, Seq::empty(), i)
}

/// A whole token sequence: one expression, then `Eof`.
pub open spec fn parse_tokens(t: Seq<Tok>) -> Result<Ex, Failure> {
    match p_expr(t, 0) {
        Err(e) => Err(e),
        Ok((e, j)) => if 0 <= j < t.len() && t[j].kind is Eof {
            Ok(e)
        } else if 0 <= j < t.len() {
            Err((msg_trailing(t[j].kind), t[j].pos))
        } else {
            Err(stuck(j))
        },
    }
}

/// A whole formula text (without the leading '=').
pub open spec fn spec_parse(s: Seq<char>) -> Result<Ex, Failure> {
    match lex(s) {
        Err(e) => Err(e),
        Ok(t) => parse_tokens(t),
    }
}

// ---------------------------------------------------------------------------
// Cell references and defined names.
// ---------------------------------------------------------------------------

/// First index at or after `i` that is not an ASCII letter.
pub open spec fn scan_letters(s: Seq<char>, i: int) -> int
    decreases s.len() - i,
{
    if 0 <= i < s.len() && is_ascii_letter(s[i]) {
        scan_letters(s, i + 1)
    } else {
        i
    }
}

/// The value of the decimal digits `s[lo..hi]`.
pub open spec fn digits_value(s: Seq<char>, lo: int, hi: int) -> int
    decreases hi - lo,
{
    if hi <= lo {
        0
    } else {
        10 * digits_value(s, lo, hi - 1) + crate::number::digit_value(s[hi - 1])
    }
}

/// Text like `A1`, `$A$1` or `ab12`: an optional `$`, one to three ASCII
/// letters (upper-cased), an optional `$`, then a row number from 1 up to
/// `u32::MAX`, and nothing else.
pub open spec fn spec_cell_ref(s: Seq<char>) -> Option<Cell> {
    let col_abs = s.len() > 0 && s[0] == '$';
    let c0: int = if col_abs {
        1
    } else {
        0
    };
    let c1 = scan_letters(s, c0);
    let row_abs = c1 < s.len() && s[c1] == '$';
    let r0: int = if row_abs {
        c1 + 1
    } else {
        c1
    };
    let r1 = scan_digits(s, r0);
    let row = digits_value(s, r0, r1);
    if c1 == c0 || c1 - c0 > 3 || r1 == r0 || r1 != s.len() || row > u32::MAX || row == 0 {
        None
    } else {
        Some(
            Cell {
                sheet: None,
                col_absolute: col_abs,
                column: upper(s.subrange(c0, c1)),
                row_absolute: row_abs,
                row,
            },
        )
    }
}

/// A defined name: a letter or `_`, then letters, digits, `_` and `.`.
pub open spec fn is_valid_name(s: Seq<char>) -> bool {
    &&& s.len() > 0
    &&& spec_is_alphabetic(s[0]) || s[0] == '_'
    &&& forall|i: int|
        1 <= i < s.len() ==> spec_is_alphanumeric(#[trigger] s[i]) || s[i] == '_' || s[i] == '.'
}


// ---------------------------------------------------------------------------
// The parser itself.
// ---------------------------------------------------------------------------

/// An executable result agrees with the specified one.
pub open spec fn same_result(r: Result<(Expr, usize), ParseError>, s: PResult) -> bool {
    match (r, s) {
        (Ok((x, j)), Ok((e, k))) => x@ == e && j == k,
        (Err(x), Err(f)) => x@ == f,
        _ => false,
    }
}

pub open spec fn same_list(r: Result<(Vec<Expr>, usize), ParseError>, s: LResult) -> bool {
    match (r, s) {
        (Ok((x, j)), Ok((e, k))) => view_list(x@) == e && j == k,
        (Err(x), Err(f)) => x@ == f,
        _ => false,
    }
}

pub open spec fn moved(r: Result<(Expr, usize), ParseError>, i: int, n: int) -> bool {
    r matches Ok((_, j)) ==> i < j < n
}

pub open spec fn toks(t: Seq<Token>) -> Seq<Tok> {
    view_tokens(t)
}

pub proof fn lemma_not_eof(t: Seq<Token>, j: int)
    requires
        tokens_wf(toks(t)),
        0 <= j < t.len(),
        !(t[j].kind@ is Eof),
    ensures
        j < t.len() - 1,
{
    assert(toks(t)[j].kind == t[j].kind@);
    assert(toks(t).last() == toks(t)[t.len() - 1]);
}

fn kind_wf_of(t: &Vec<Token>, i: usize)
    requires
        tokens_wf(toks(t@)),
        i < t.len(),
    ensures
        t@[i as int].kind@ matches Kind::Number(d) ==> decimal_wf(d),
{
    assert(toks(t@)[i as int].kind == t@[i as int].kind@);
}

/// How a token kind is written in error messages.
fn describe_kind(k: &TokenKind) -> (r: String)
    requires
        k@ matches Kind::Number(d) ==> decimal_wf(d),
    ensures
        r@ == describe(k@),
{
    match k {
        TokenKind::Number(d) => d.render(),
        TokenKind::Text(s) => {
            let mut r = String::from_str("\"");
            r.append(s.as_str());
            r.append("\"");
            r
        },
        TokenKind::Ident(s) => s.clone(),
        TokenKind::SheetName(s) => {
            let mut r = String::from_str("'");
            r.append(s.as_str());
            r.append("'");
            r
        },
        TokenKind::Error(s) => s.clone(),
        TokenKind::Plus => String::from_str("+"),
        TokenKind::Minus => String::from_str("-"),
        TokenKind::Star => String::from_str("*"),
        TokenKind::Slash => String::from_str("/"),
        TokenKind::Caret => String::from_str("^"),
        TokenKind::Ampersand => String::from_str("&"),
        TokenKind::Percent => String::from_str("%"),
        TokenKind::Eq => String::from_str("="),
        TokenKind::Ne => String::from_str("<>"),
        TokenKind::Lt => String::from_str("<"),
        TokenKind::Le => String::from_str("<="),
        TokenKind::Gt => String::from_str(">"),
        TokenKind::Ge => String::from_str(">="),
        TokenKind::LParen => String::from_str("("),
        TokenKind::RParen => String::from_str(")"),
        TokenKind::LBrace => String::from_str("{"),
        TokenKind::RBrace => String::from_str("}"),
        TokenKind::Comma => String::from_str(","),
        TokenKind::Semicolon => String::from_str(";"),
        TokenKind::Colon => String::from_str(":"),
        TokenKind::Bang => String::from_str("!"),
        TokenKind::Eof => String::from_str("end of formula"),
    }
}

/// `prefix + describe(k) + "'"`.
fn message_with_kind(prefix: &str, k: &TokenKind) -> (r: String)
    requires
        k@ matches Kind::Number(d) ==> decimal_wf(d),
    ensures
        r@ == prefix@ + describe(k@) + "'"@,
{
    let mut m = String::from_str(prefix);
    let d = describe_kind(k);
    m.append(d.as_str());
    m.append("'");
    m
}

/// `"'" + name + suffix`.
fn message_with_name(name: &String, suffix: &str) -> (r: String)
    ensures
        r@ == "'"@ + name@ + suffix@,
{
    let mut m = String::from_str("'");
    m.append(name.as_str());
    m.append(suffix);
    m
}

/// The punctuation kinds that `expect` is used with.
pub open spec fn is_closing(k: Kind) -> bool {
    k is RParen || k is RBrace || k is Bang
}

fn same_punct(k: &TokenKind, want: &TokenKind) -> (r: bool)
    requires
        is_closing(want@),
    ensures
        r == (k@ == want@),
{
    match want {
        TokenKind::RParen => match k {
            TokenKind::RParen => true,
            _ => false,
        },
        TokenKind::RBrace => match k {
            TokenKind::RBrace => true,
            _ => false,
        },
        _ => match k {
            TokenKind::Bang => true,
            _ => false,
        },
    }
}

fn expect_exec(t: &Vec<Token>, i: usize, want: &TokenKind) -> (r: Result<usize, ParseError>)
    requires
        tokens_wf(toks(t@)),
        i < t.len(),
        is_closing(want@),
    ensures
        match (r, expect(toks(t@), i as int, want@)) {
            (Ok(j), Ok(k)) => j == k,
            (Err(x), Err(f)) => x@ == f,
            _ => false,
        },
        r matches Ok(j) ==> i < j < t.len(),
{
    assert(toks(t@)[i as int] == t@[i as int]@);
    if same_punct(&t[i].kind, want) {
        proof {
            lemma_not_eof(t@, i as int);
        }
        Ok(i + 1)
    } else {
        kind_wf_of(t, i);
        let mut m = String::from_str("expected '");
        let d = describe_kind(want);
        m.append(d.as_str());
        let rest = message_with_kind("', found '", &t[i].kind);
        m.append(rest.as_str());
        assert(m@ == msg_expected(want@, t@[i as int].kind@));
        Err(ParseError { message: m, pos: t[i].pos })
    }
}

fn binary_op_exec(k: usize, kind: &TokenKind) -> (r: Option<BinaryOp>)
    ensures
        r == binary_op_at(k as int, kind@),
{
    if k == 1 {
        match kind {
            TokenKind::Eq => Some(BinaryOp::Eq),
            TokenKind::Ne => Some(BinaryOp::Ne),
            TokenKind::Lt => Some(BinaryOp::Lt),
            TokenKind::Le => Some(BinaryOp::Le),
            TokenKind::Gt => Some(BinaryOp::Gt),
            TokenKind::Ge => Some(BinaryOp::Ge),
            _ => None,
        }
    } else if k == 2 {
        match kind {
            TokenKind::Ampersand => Some(BinaryOp::Concat),
            _ => None,
        }
    } else if k == 3 {
        match kind {
            TokenKind::Plus => Some(BinaryOp::Add),
            TokenKind::Minus => Some(BinaryOp::Sub),
            _ => None,
        }
    } else if k == 4 {
        match kind {
            TokenKind::Star => Some(BinaryOp::Mul),
            TokenKind::Slash => Some(BinaryOp::Div),
            _ => None,
        }
    } else if k == 5 {
        match kind {
            TokenKind::Caret => Some(BinaryOp::Pow),
            _ => None,
        }
    } else {
        None
    }
}

fn parse_expr(t: &Vec<Token>, i: usize) -> (r: Result<(Expr, usize), ParseError>)
    requires
        tokens_wf(toks(t@)),
        i < t.len(),
    ensures
        same_result(r, p_expr(toks(t@), i as int)),
        moved(r, i as int, t.len() as int),
    decreases t.len() - i, 30int,
{
    parse_bin(t, i, 1)
}

fn parse_bin(t: &Vec<Token>, i: usize, k: usize) -> (r: Result<(Expr, usize), ParseError>)
    requires
        tokens_wf(toks(t@)),
        i < t.len(),
        1 <= k <= 5,
    ensures
        same_result(r, p_bin(toks(t@), i as int, k as int)),
        moved(r, i as int, t.len() as int),
    decreases t.len() - i, 25 - k,
{
    let ghost tt = toks(t@);
    let first = if k < 5 {
        parse_bin(t, i, k + 1)
    } else {
        parse_percent(t, i)
    };
    let (mut left, mut j) = match first {
        Err(e) => {
            return Err(e);
        },
        Ok(p) => p,
    };
    let ghost l0 = left@;
    let ghost j0 = j as int;
    loop
        invariant
            tokens_wf(tt),
            tt == toks(t@),
            1 <= k <= 5,
            i < j < t.len(),
            p_bin(tt, i as int, k as int) == bin_tail(tt, k as int, l0, j0),
            bin_tail(tt, k as int, l0, j0) == bin_tail(tt, k as int, left@, j as int),
        decreases t.len() - j,
    {
        assert(tt[j as int] == t@[j as int]@);
        let op = match binary_op_exec(k, &t[j].kind) {
            None => {
                return Ok((left, j));
            },
            Some(op) => op,
        };
        proof {
            lemma_not_eof(t@, j as int);
        }
        let right = if k < 5 {
            parse_bin(t, j + 1, k + 1)
        } else {
            parse_percent(t, j + 1)
        };
        let (r, j2) = match right {
            Err(e) => {
                return Err(e);
            },
            Ok(p) => p,
        };
        left = Expr::Binary(op, Box::new(left), Box::new(r));
        j = j2;
    }
}

fn parse_percent(t: &Vec<Token>, i: usize) -> (r: Result<(Expr, usize), ParseError>)
    requires
        tokens_wf(toks(t@)),
        i < t.len(),
    ensures
        same_result(r, p_percent(toks(t@), i as int)),
        moved(r, i as int, t.len() as int),
    decreases t.len() - i, 19int,
{
    let ghost tt = toks(t@);
    let (mut e, mut j) = match parse_unary(t, i) {
        Err(err) => {
            return Err(err);
        },
        Ok(p) => p,
    };
    let ghost e0 = e@;
    let ghost j0 = j as int;
    loop
        invariant
            tokens_wf(tt),
            tt == toks(t@),
            i < j < t.len(),
            p_percent(tt, i as int) == percent_tail(tt, e0, j0),
            percent_tail(tt, e0, j0) == percent_tail(tt, e@, j as int),
        decreases t.len() - j,
    {
        assert(tt[j as int] == t@[j as int]@);
        let is_pct = match t[j].kind {
            TokenKind::Percent => true,
            _ => false,
        };
        if !is_pct {
            return Ok((e, j));
        }
        proof {
            lemma_not_eof(t@, j as int);
        }
        e = Expr::Unary(UnaryOp::Percent, Box::new(e));
        j = j + 1;
    }
}

fn parse_unary(t: &Vec<Token>, i: usize) -> (r: Result<(Expr, usize), ParseError>)
    requires
        tokens_wf(toks(t@)),
        i < t.len(),
    ensures
        same_result(r, p_unary(toks(t@), i as int)),
        moved(r, i as int, t.len() as int),
    decreases t.len() - i, 18int,
{
    let ghost tt = toks(t@);
    assert(tt[i as int] == t@[i as int]@);
    let op = match t[i].kind {
        TokenKind::Minus => Some(UnaryOp::Neg),
        TokenKind::Plus => Some(UnaryOp::Pos),
        _ => None,
    };
    match op {
        Some(op) => {
            proof {
                lemma_not_eof(t@, i as int);
            }
            match parse_unary(t, i + 1) {
                Err(e) => Err(e),
                Ok((e, j)) => Ok((Expr::Unary(op, Box::new(e)), j)),
            }
        },
        None => parse_intersect(t, i),
    }
}

fn starts_reference_exec(k: &TokenKind) -> (r: bool)
    ensures
        r == starts_reference(k@),
{
    match k {
        TokenKind::Ident(_) | TokenKind::SheetName(_) | TokenKind::LParen => true,
        _ => false,
    }
}

fn ref_like_exec(e: &Expr) -> (r: bool)
    ensures
        r == ref_like(e@),
{
    match e {
        Expr::Reference(_) | Expr::Range(..) | Expr::Intersect(..) | Expr::Union(_) | Expr::Name(_)
        | Expr::Call(..) => true,
        _ => false,
    }
}

fn parse_intersect(t: &Vec<Token>, i: usize) -> (r: Result<(Expr, usize), ParseError>)
    requires
        tokens_wf(toks(t@)),
        i < t.len(),
    ensures
        same_result(r, p_intersect(toks(t@), i as int)),
        moved(r, i as int, t.len() as int),
    decreases t.len() - i, 17int,
{
    let ghost tt = toks(t@);
    let (mut left, mut j) = match parse_range(t, i) {
        Err(err) => {
            return Err(err);
        },
        Ok(p) => p,
    };
    let ghost l0 = left@;
    let ghost j0 = j as int;
    loop
        invariant
            tokens_wf(tt),
            tt == toks(t@),
            i < j < t.len(),
            p_intersect(tt, i as int) == isect_tail(tt, l0, j0),
            isect_tail(tt, l0, j0) == isect_tail(tt, left@, j as int),
        decreases t.len() - j,
    {
        assert(tt[j as int] == t@[j as int]@);
        if !(t[j].after_space && starts_reference_exec(&t[j].kind) && ref_like_exec(&left)) {
            return Ok((left, j));
        }
        let (r, j2) = match parse_range(t, j) {
            Err(err) => {
                return Err(err);
            },
            Ok(p) => p,
        };
        left = Expr::Intersect(Box::new(left), Box::new(r));
        j = j2;
    }
}

fn parse_range(t: &Vec<Token>, i: usize) -> (r: Result<(Expr, usize), ParseError>)
    requires
        tokens_wf(toks(t@)),
        i < t.len(),
    ensures
        same_result(r, p_range(toks(t@), i as int)),
        moved(r, i as int, t.len() as int),
    decreases t.len() - i, 16int,
{
    let ghost tt = toks(t@);
    let (left, j) = match parse_primary(t, i) {
        Err(err) => {
            return Err(err);
        },
        Ok(p) => p,
    };
    assert(tt[j as int] == t@[j as int]@);
    let colon = match t[j].kind {
        TokenKind::Colon => true,
        _ => false,
    };
    if colon {
        proof {
            lemma_not_eof(t@, j as int);
        }
        match parse_primary(t, j + 1) {
            Err(err) => Err(err),
            Ok((right, j2)) => Ok((Expr::Range(Box::new(left), Box::new(right)), j2)),
        }
    } else {
        Ok((left, j))
    }
}

fn parse_primary(t: &Vec<Token>, i: usize) -> (r: Result<(Expr, usize), ParseError>)
    requires
        tokens_wf(toks(t@)),
        i < t.len(),
    ensures
        same_result(r, p_primary(toks(t@), i as int)),
        moved(r, i as int, t.len() as int),
    decreases t.len() - i, 15int,
{
    let ghost tt = toks(t@);
    assert(tt[i as int] == t@[i as int]@);
    kind_wf_of(t, i);
    match &t[i].kind {
        TokenKind::Number(d) => {
            proof {
                lemma_not_eof(t@, i as int);
            }
            Ok((Expr::Number(d.copy()), i + 1))
        },
        TokenKind::Text(s) => {
            proof {
                lemma_not_eof(t@, i as int);
            }
            Ok((Expr::Text(s.clone()), i + 1))
        },
        TokenKind::Error(s) => {
            proof {
                lemma_not_eof(t@, i as int);
            }
            Ok((Expr::Error(s.clone()), i + 1))
        },
        TokenKind::LParen => {
            proof {
                lemma_not_eof(t@, i as int);
            }
            let (first, j) = match parse_expr(t, i + 1) {
                Err(err) => {
                    return Err(err);
                },
                Ok(p) => p,
            };
            assert(tt[j as int] == t@[j as int]@);
            let comma = match t[j].kind {
                TokenKind::Comma => true,
                _ => false,
            };
            if comma {
                let mut items: Vec<Expr> = Vec::new();
                items.push(first);
                proof {
                    lemma_view_list_push(Seq::empty(), first);
                    assert(Seq::<Expr>::empty().push(first) =~= items@);
                    assert(view_list(Seq::<Expr>::empty()) =~= Seq::<Ex>::empty());
                    assert(Seq::<Ex>::empty().push(first@) =~= seq![first@]);
                }
                let (items, k) = match parse_union_rest(t, items, j) {
                    Err(err) => {
                        return Err(err);
                    },
                    Ok(p) => p,
                };
                let k3 = match expect_exec(t, k, &TokenKind::RParen) {
                    Err(err) => {
                        return Err(err);
                    },
                    Ok(k3) => k3,
                };
                Ok((Expr::Union(items), k3))
            } else {
                match expect_exec(t, j, &TokenKind::RParen) {
                    Err(err) => Err(err),
                    Ok(k3) => Ok((first, k3)),
                }
            }
        },
        TokenKind::LBrace => {
            proof {
                lemma_not_eof(t@, i as int);
            }
            parse_array(t, i + 1)
        },
        TokenKind::Ident(name) => {
            proof {
                lemma_not_eof(t@, i as int);
            }
            parse_ident(t, name, t[i].pos, i + 1)
        },
        TokenKind::SheetName(name) => {
            proof {
                lemma_not_eof(t@, i as int);
            }
            match expect_exec(t, i + 1, &TokenKind::Bang) {
                Err(err) => Err(err),
                Ok(j) => parse_after_bang(t, name, j),
            }
        },
        _ => {
            let m = message_with_kind("expected a value, found '", &t[i].kind);
            Err(ParseError { message: m, pos: t[i].pos })
        },
    }
}

/// The members of a union after the first, each after a comma; `j`
/// indexes the first comma.
#[verifier::loop_isolation(false)]
fn parse_union_rest(t: &Vec<Token>, items: Vec<Expr>, j: usize) -> (r: Result<
    (Vec<Expr>, usize),
    ParseError,
>)
    requires
        tokens_wf(toks(t@)),
        0 < j < t.len(),
    ensures
        same_list(r, union_items(toks(t@), view_list(items@), j as int)),
        r matches Ok((_, k)) ==> j <= k < t.len(),
    decreases t.len() - j, 1int,
{
    let ghost tt = toks(t@);
    let mut items = items;
    let mut k = j;
    let ghost start = view_list(items@);
    loop
        invariant
            tokens_wf(tt),
            tt == toks(t@),
            j <= k < t.len(),
            union_items(tt, start, j as int) == union_items(tt, view_list(items@), k as int),
        decreases t.len() - k,
    {
        assert(tt[k as int] == t@[k as int]@);
        let more = match t[k].kind {
            TokenKind::Comma => true,
            _ => false,
        };
        if !more {
            return Ok((items, k));
        }
        proof {
            lemma_not_eof(t@, k as int);
        }
        let (e, k2) = match parse_expr(t, k + 1) {
            Err(err) => {
                return Err(err);
            },
            Ok(p) => p,
        };
        proof {
            lemma_view_list_push(items@, e);
        }
        items.push(e);
        k = k2;
    }
}

/// Comma-separated call arguments starting at `j`.
fn parse_call_args(t: &Vec<Token>, j: usize) -> (r: Result<(Vec<Expr>, usize), ParseError>)
    requires
        tokens_wf(toks(t@)),
        0 < j < t.len(),
    ensures
        same_list(r, call_args(toks(t@), Seq::empty(), j as int)),
        r matches Ok((_, k)) ==> j < k < t.len(),
    decreases t.len() - j, 31int,
{
    let ghost tt = toks(t@);
    let mut args: Vec<Expr> = Vec::new();
    let mut k = j;
    assert(view_list(args@) =~= Seq::<Ex>::empty());
    loop
        invariant
            tokens_wf(tt),
            tt == toks(t@),
            j <= k < t.len(),
            call_args(tt, Seq::empty(), j as int) == call_args(tt, view_list(args@), k as int),
        decreases t.len() - k,
    {
        let (e, k2) = match parse_expr(t, k) {
            Err(err) => {
                return Err(err);
            },
            Ok(p) => p,
        };
        proof {
            lemma_view_list_push(args@, e);
        }
        args.push(e);
        assert(tt[k2 as int] == t@[k2 as int]@);
        let more = match t[k2].kind {
            TokenKind::Comma => true,
            _ => false,
        };
        if !more {
            return Ok((args, k2));
        }
        proof {
            lemma_not_eof(t@, k2 as int);
        }
        k = k2 + 1;
    }
}

/// The expression an identifier starts (its text `name`, its token at
/// position `pos`, the tokens after it from `i` on): a call, a
/// sheet-qualified reference, a boolean, a cell reference, a defined name
/// kept as written, or the error at `pos` for a word that is none of these.
pub fn parse_ident(t: &Vec<Token>, name: &String, pos: usize, i: usize) -> (r: Result<
    (Expr, usize),
    ParseError,
>)
    requires
        tokens_wf(toks(t@)),
        0 < i < t.len(),
    ensures
        same_result(r, p_ident(toks(t@), name@, pos as int, i as int)),
        moved(r, i - 1, t.len() as int),
    decreases t.len() - i, 0int,
{
    let ghost tt = toks(t@);
    assert(tt[i as int] == t@[i as int]@);
    let open = match t[i].kind {
        TokenKind::LParen => true,
        _ => false,
    };
    if open {
        proof {
            lemma_not_eof(t@, i as int);
        }
        assert(tt[i + 1] == t@[i + 1]@);
        let fname = upper_string(name.as_str());
        let close = match t[i + 1].kind {
            TokenKind::RParen => true,
            _ => false,
        };
        if close {
            proof {
                lemma_not_eof(t@, i + 1);
            }
            let empty: Vec<Expr> = Vec::new();
            assert(view_list(empty@) =~= Seq::<Ex>::empty());
            return Ok((Expr::Call(fname, empty), i + 2));
        }
        let (args, k) = match parse_call_args(t, i + 1) {
            Err(err) => {
                return Err(err);
            },
            Ok(p) => p,
        };
        match expect_exec(t, k, &TokenKind::RParen) {
            Err(err) => Err(err),
            Ok(k3) => Ok((Expr::Call(fname, args), k3)),
        }
    } else {
        let bang = match t[i].kind {
            TokenKind::Bang => true,
            _ => false,
        };
        if bang {
            proof {
                lemma_not_eof(t@, i as int);
            }
            return parse_after_bang(t, name, i + 1);
        }
        let cs = chars_of(name.as_str());
        let up = upper_vec(&cs);
        if chars_eq(&up, &true_chars()) {
            return Ok((Expr::Boolean(true), i));
        }
        if chars_eq(&up, &false_chars()) {
            return Ok((Expr::Boolean(false), i));
        }
        match parse_cell_ref_exec(&cs) {
            Some(c) => Ok((Expr::Reference(c), i)),
            None => {
                if is_valid_name_exec(&cs) {
                    Ok((Expr::Name(name.clone()), i))
                } else {
                    let m = message_with_name(name, "' is not a valid reference or name");
                    Err(ParseError { message: m, pos })
                }
            },
        }
    }
}

fn parse_after_bang(t: &Vec<Token>, sheet: &String, i: usize) -> (r: Result<
    (Expr, usize),
    ParseError,
>)
    requires
        tokens_wf(toks(t@)),
        0 < i < t.len(),
    ensures
        same_result(r, p_after_bang(toks(t@), sheet@, i as int)),
        moved(r, i - 1, t.len() as int),
{
    let ghost tt = toks(t@);
    assert(tt[i as int] == t@[i as int]@);
    match &t[i].kind {
        TokenKind::Ident(n) => {
            proof {
                lemma_not_eof(t@, i as int);
            }
            let cs = chars_of(n.as_str());
            match parse_cell_ref_exec(&cs) {
                Some(c) => {
                    let mut c = c;
                    c.sheet = Some(sheet.clone());
                    Ok((Expr::Reference(c), i + 1))
                },
                None => {
                    let m = message_with_name(n, "' is not a valid cell reference");
                    Err(ParseError { message: m, pos: t[i].pos })
                },
            }
        },
        _ => Err(
            ParseError {
                message: String::from_str("expected a cell reference after '!'"),
                pos: t[i].pos,
            },
        ),
    }
}

fn parse_array_item(t: &Vec<Token>, i: usize) -> (r: Result<(Expr, usize), ParseError>)
    requires
        tokens_wf(toks(t@)),
        i < t.len(),
    ensures
        same_result(r, p_array_item(toks(t@), i as int)),
        moved(r, i as int, t.len() as int),
{
    let ghost tt = toks(t@);
    assert(tt[i as int] == t@[i as int]@);
    kind_wf_of(t, i);
    match &t[i].kind {
        TokenKind::Number(d) => {
            proof {
                lemma_not_eof(t@, i as int);
            }
            Ok((Expr::Number(d.copy()), i + 1))
        },
        TokenKind::Text(s) => {
            proof {
                lemma_not_eof(t@, i as int);
            }
            Ok((Expr::Text(s.clone()), i + 1))
        },
        TokenKind::Error(s) => {
            proof {
                lemma_not_eof(t@, i as int);
            }
            Ok((Expr::Error(s.clone()), i + 1))
        },
        TokenKind::Minus => {
            proof {
                lemma_not_eof(t@, i as int);
            }
            assert(tt[i + 1] == t@[i + 1]@);
            kind_wf_of(t, i + 1);
            match &t[i + 1].kind {
                TokenKind::Number(d) => {
                    proof {
                        lemma_not_eof(t@, i + 1);
                    }
                    let n = Expr::Number(d.copy());
                    assert(n@ == Ex::Number(d@));
                    Ok((Expr::Unary(UnaryOp::Neg, Box::new(n)), i + 2))
                },
                _ => {
                    let m = message_with_kind(
                        "expected a constant in an array literal, found '",
                        &t[i + 1].kind,
                    );
                    Err(ParseError { message: m, pos: t[i + 1].pos })
                },
            }
        },
        TokenKind::Ident(name) => {
            let cs = chars_of(name.as_str());
            let up = upper_vec(&cs);
            if chars_eq(&up, &true_chars()) {
                proof {
                    lemma_not_eof(t@, i as int);
                }
                return Ok((Expr::Boolean(true), i + 1));
            }
            if chars_eq(&up, &false_chars()) {
                proof {
                    lemma_not_eof(t@, i as int);
                }
                return Ok((Expr::Boolean(false), i + 1));
            }
            let m = message_with_kind(
                "expected a constant in an array literal, found '",
                &t[i].kind,
            );
            Err(ParseError { message: m, pos: t[i].pos })
        },
        _ => {
            let m = message_with_kind(
                "expected a constant in an array literal, found '",
                &t[i].kind,
            );
            Err(ParseError { message: m, pos: t[i].pos })
        },
    }
}

fn parse_array_row(t: &Vec<Token>, i: usize) -> (r: Result<(Vec<Expr>, usize), ParseError>)
    requires
        tokens_wf(toks(t@)),
        i < t.len(),
    ensures
        same_list(r, array_row(toks(t@), Seq::empty(), i as int)),
        r matches Ok((_, j)) ==> i < j < t.len(),
{
    let ghost tt = toks(t@);
    let mut items: Vec<Expr> = Vec::new();
    let mut k = i;
    assert(view_list(items@) =~= Seq::<Ex>::empty());
    loop
        invariant
            tokens_wf(tt),
            tt == toks(t@),
            i <= k < t.len(),
            k > i ==> items@.len() > 0,
            array_row(tt, Seq::empty(), i as int) == array_row(tt, view_list(items@), k as int),
        decreases t.len() - k,
    {
        let (e, k2) = match parse_array_item(t, k) {
            Err(err) => {
                return Err(err);
            },
            Ok(p) => p,
        };
        proof {
            lemma_view_list_push(items@, e);
        }
        items.push(e);
        assert(tt[k2 as int] == t@[k2 as int]@);
        let more = match t[k2].kind {
            TokenKind::Comma => true,
            _ => false,
        };
        if !more {
            return Ok((items, k2));
        }
        proof {
            lemma_not_eof(t@, k2 as int);
        }
        k = k2 + 1;
    }
}

fn parse_array(t: &Vec<Token>, i: usize) -> (r: Result<(Expr, usize), ParseError>)
    requires
        tokens_wf(toks(t@)),
        0 < i < t.len(),
    ensures
        same_result(r, p_array(toks(t@), i as int)),
        moved(r, i - 1, t.len() as int),
{
    let ghost tt = toks(t@);
    let mut rows: Vec<Vec<Expr>> = Vec::new();
    let mut k = i;
    assert(view_rows(rows@) =~= Seq::<Seq<Ex>>::empty());
    loop
        invariant
            tokens_wf(tt),
            tt == toks(t@),
            i <= k < t.len(),
            array_rows(tt, Seq::empty(), i as int) == array_rows(tt, view_rows(rows@), k as int),
        decreases t.len() - k,
    {
        let (row, k2) = match parse_array_row(t, k) {
            Err(err) => {
                return Err(err);
            },
            Ok(p) => p,
        };
        proof {
            lemma_view_rows_push(rows@, row);
        }
        rows.push(row);
        assert(tt[k2 as int] == t@[k2 as int]@);
        let more = match t[k2].kind {
            TokenKind::Semicolon => true,
            _ => false,
        };
        if !more {
            return match expect_exec(t, k2, &TokenKind::RBrace) {
                Err(err) => Err(err),
                Ok(k3) => Ok((Expr::Array(rows), k3)),
            };
        }
        proof {
            lemma_not_eof(t@, k2 as int);
        }
        k = k2 + 1;
    }
}

proof fn lemma_scan_letters(s: Seq<char>, i: int)
    requires
        0 <= i <= s.len(),
    ensures
        i <= scan_letters(s, i) <= s.len(),
        forall|k: int| i <= k < scan_letters(s, i) ==> is_ascii_letter(#[trigger] s[k]),
        scan_letters(s, i) < s.len() ==> !is_ascii_letter(s[scan_letters(s, i)]),
    decreases s.len() - i,
{
    if i < s.len() && is_ascii_letter(s[i]) {
        lemma_scan_letters(s, i + 1);
    }
}

proof fn lemma_digits_value_grows(s: Seq<char>, lo: int, k: int, hi: int)
    requires
        lo <= k <= hi,
        forall|m: int| lo <= m < hi ==> is_ascii_digit(#[trigger] s[m]),
    ensures
        digits_value(s, lo, k) <= digits_value(s, lo, hi),
        0 <= digits_value(s, lo, k),
    decreases hi - k,
{
    if k < hi {
        lemma_digits_value_grows(s, lo, k, hi - 1);
        lemma_digits_value_grows(s, lo, hi - 1, hi - 1);
    } else {
        lemma_digits_nonneg(s, lo, hi);
    }
}

proof fn lemma_digits_nonneg(s: Seq<char>, lo: int, hi: int)
    requires
        forall|m: int| lo <= m < hi ==> is_ascii_digit(#[trigger] s[m]),
    ensures
        0 <= digits_value(s, lo, hi),
    decreases hi - lo,
{
    if lo < hi {
        lemma_digits_nonneg(s, lo, hi - 1);
    }
}

#[verifier::loop_isolation(false)]
fn parse_cell_ref_exec(s: &Vec<char>) -> (r: Option<CellRef>)
    ensures
        match (r, spec_cell_ref(s@)) {
            (Some(x), Some(c)) => x@ == c,
            (None, None) => true,
            _ => false,
        },
{
    let ghost ss = s@;
    let col_abs = s.len() > 0 && s[0] == '$';
    let c0: usize = if col_abs {
        1
    } else {
        0
    };
    proof {
        lemma_scan_letters(ss, c0 as int);
    }
    let mut c1 = c0;
    while c1 < s.len() && (('A' <= s[c1] && s[c1] <= 'Z') || ('a' <= s[c1] && s[c1] <= 'z'))
        invariant
            c0 <= c1 <= s.len(),
            scan_letters(ss, c1 as int) == scan_letters(ss, c0 as int),
            ss == s@,
        decreases s.len() - c1,
    {
        c1 = c1 + 1;
    }
    let row_abs = c1 < s.len() && s[c1] == '$';
    let r0: usize = if row_abs {
        c1 + 1
    } else {
        c1
    };
    if c1 == c0 || c1 - c0 > 3 {
        return None;
    }
    proof {
        crate::number::lemma_scan_digits(ss, r0 as int);
    }
    let r1 = crate::number::exec_scan_digits(s, r0);
    if r1 == r0 || r1 != s.len() {
        return None;
    }
    let mut row: u64 = 0;
    let mut k = r0;
    while k < r1
        invariant
            r0 <= k <= r1 <= s.len(),
            ss == s@,
            r1 == scan_digits(ss, r0 as int),
            forall|m: int| r0 <= m < r1 ==> is_ascii_digit(#[trigger] ss[m]),
            row == digits_value(ss, r0 as int, k as int),
            row <= u32::MAX,
        decreases r1 - k,
    {
        let d: u64 = ((s[k] as u32) - ('0' as u32)) as u64;
        row = row * 10 + d;
        k = k + 1;
        if row > 0xffff_ffff {
            proof {
                lemma_digits_value_grows(ss, r0 as int, k as int, r1 as int);
            }
            return None;
        }
    }
    if row == 0 {
        return None;
    }
    let mut col: Vec<char> = Vec::new();
    let mut m = c0;
    while m < c1
        invariant
            c0 <= m <= c1 <= s.len(),
            ss == s@,
            col@ == ss.subrange(c0 as int, m as int),
        decreases c1 - m,
    {
        col.push(s[m]);
        m = m + 1;
        assert(ss.subrange(c0 as int, m as int) =~= ss.subrange(c0 as int, m - 1).push(ss[m - 1]));
    }
    let up = upper_vec(&col);
    let mut column = String::new();
    push_chars(&mut column, &up);
    Some(CellRef { sheet: None, col_absolute: col_abs, column, row_absolute: row_abs, row: row as u32 })
}

fn true_chars() -> (r: Vec<char>)
    ensures
        r@ == seq!['T', 'R', 'U', 'E'],
{
    let r = vec!['T', 'R', 'U', 'E'];
    assert(r@ =~= seq!['T', 'R', 'U', 'E']);
    r
}

fn false_chars() -> (r: Vec<char>)
    ensures
        r@ == seq!['F', 'A', 'L', 'S', 'E'],
{
    let r = vec!['F', 'A', 'L', 'S', 'E'];
    assert(r@ =~= seq!['F', 'A', 'L', 'S', 'E']);
    r
}

/// Parses text like `A1`, `$A$1` or `ab12` into a reference without a
/// sheet; `None` when the text is not column letters and a row number.
pub fn parse_cell_ref(text: &str) -> (r: Option<CellRef>)
    ensures
        match (r, spec_cell_ref(text@)) {
            (Some(x), Some(c)) => x@ == c,
            (None, None) => true,
            _ => false,
        },
{
    parse_cell_ref_exec(&chars_of(text))
}

fn is_valid_name_exec(s: &Vec<char>) -> (r: bool)
    ensures
        r == is_valid_name(s@),
{
    if s.len() == 0 {
        return false;
    }
    if !(is_alphabetic(s[0]) || s[0] == '_') {
        return false;
    }
    let mut k: usize = 1;
    while k < s.len()
        invariant
            1 <= k <= s.len(),
            forall|m: int|
                1 <= m < k ==> spec_is_alphanumeric(#[trigger] s@[m]) || s@[m] == '_' || s@[m]
                    == '.',
        decreases s.len() - k,
    {
        let c = s[k];
        if !(is_alphanumeric(c) || c == '_' || c == '.') {
            return false;
        }
        k = k + 1;
    }
    true
}

/// The tree of a token sequence that ends with `Eof`.
fn parse_token_vec(t: &Vec<Token>) -> (r: Result<Expr, ParseError>)
    requires
        tokens_wf(toks(t@)),
    ensures
        match (r, parse_tokens(toks(t@))) {
            (Ok(x), Ok(e)) => x@ == e,
            (Err(x), Err(f)) => x@ == f,
            _ => false,
        },
{
    let ghost tt = toks(t@);
    let (e, j) = match parse_expr(t, 0) {
        Err(err) => {
            return Err(err);
        },
        Ok(p) => p,
    };
    assert(tt[j as int] == t@[j as int]@);
    kind_wf_of(t, j);
    match t[j].kind {
        TokenKind::Eof => Ok(e),
        _ => {
            let m = message_with_kind("unexpected trailing input near '", &t[j].kind);
            Err(ParseError { message: m, pos: t[j].pos })
        },
    }
}

pub proof fn lemma_number_token_wf(s: Seq<char>, start: int)
    requires
        0 <= start <= s.len(),
    ensures
        decimal_wf(crate::number::number_value(s, start)),
{
    lemma_scan_digits(s, start);
    let ie = int_end(s, start);
    let fs = frac_start(s, start);
    lemma_scan_digits(s, fs);
    let fe = frac_end(s, start);
    let sig = s.subrange(start, ie) + s.subrange(fs, fe);
    assert(crate::number::all_digits(sig)) by {
        assert forall|k: int| 0 <= k < sig.len() implies is_ascii_digit(#[trigger] sig[k]) by {
            if k < ie - start {
                assert(sig[k] == s[start + k]);
            } else {
                assert(sig[k] == s[fs + (k - (ie - start))]);
            }
        }
    }
    lemma_normalize_wf(sig, crate::number::exp_value(s, start) - (fe - fs));
}

pub proof fn lemma_lex_from_wf(s: Seq<char>, i: int)
    requires
        0 <= i <= s.len(),
    ensures
        crate::lexer::lex_from(s, i) matches Ok(ts) ==> tokens_wf(ts),
    decreases s.len() - i,
{
    crate::lexer::lemma_lex_token_advances(s, i);
    lemma_skip_ws(s, i);
    let st = skip_ws(s, i);
    if st < s.len() {
        lemma_number_token_wf(s, st);
    }
    if let Ok((t, j)) = lex_token(s, i) {
        if !(t.kind is Eof) && i < j <= s.len() {
            lemma_lex_from_wf(s, j);
            if let Ok(rest) = lex_from(s, j) {
                let ts = seq![t] + rest;
                assert(ts.last() == rest.last());
                assert forall|k: int| 0 <= k < ts.len() - 1 implies !(#[trigger] ts[k].kind is Eof) by {
                    if k > 0 {
                        assert(ts[k] == rest[k - 1]);
                    }
                }
                assert forall|k: int| 0 <= k < ts.len() implies (#[trigger] ts[k].kind matches Kind::Number(
                    d,
                ) ==> decimal_wf(d)) by {
                    if k > 0 {
                        assert(ts[k] == rest[k - 1]);
                    }
                }
            }
        }
    }
}

pub proof fn lemma_lex_wf(s: Seq<char>)
    ensures
        lex(s) matches Ok(ts) ==> tokens_wf(ts),
{
    lemma_lex_from_wf(s, 0);
}

/// Parses formula text (without the leading '=') into a tree, or reports
/// the first error with its character position.
pub fn parse(input: &str) -> (r: Result<Expr, ParseError>)
    ensures
        match (r, spec_parse(input@)) {
            (Ok(x), Ok(e)) => x@ == e,
            (Err(x), Err(f)) => x@ == f,
            _ => false,
        },
{
    let tokens = match Lexer::new(input).tokenize() {
        Err(e) => {
            return Err(ParseError { message: e.message, pos: e.pos });
        },
        Ok(ts) => ts,
    };
    proof {
        lemma_lex_wf(input@);
    }
    parse_token_vec(&tokens)
}

} // verus!
