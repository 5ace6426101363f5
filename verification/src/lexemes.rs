//! Canonical text as a sequence of lexemes.
//!
//! The trees the parser builds (`wf`), and a model of their canonical text:
//! one lexeme per token, each with its kind, its characters and whether a
//! space is written before it. Rendering is the concatenation of the
//! lexemes.

use vstd::prelude::*;
use crate::chars::{spec_is_whitespace, upper, is_ascii_digit, is_ascii_upper};
use crate::number::{render_decimal, decimal_wf, digit_value};
use crate::lexer::{Kind, is_ident_start, is_ident_char, error_literal};
use crate::parser::{Ex, Cell, UnaryOp, BinaryOp, ref_like, spec_cell_ref, is_valid_name, describe};
use crate::printer::{
    spec_render, render_list, render_rows, precedence, binary_precedence, binary_symbol,
    double_quotes, is_bare_sheet, sheet_text, nat_text, ref_text, paren, paren_if, digit_char,
    starts_reference_text, intersect_text, ends_in_name,
};

verus! {

// ---------------------------------------------------------------------------
// The trees that the parser builds.
// ---------------------------------------------------------------------------

pub open spec fn is_error_literal(s: Seq<char>) -> bool {
    exists|k: int| 0 <= k < 8 && s == #[trigger] error_literal(k)
}

/// Text that the lexer reads as one identifier.
pub open spec fn is_ident_text(s: Seq<char>) -> bool {
    &&& s.len() > 0
    &&& is_ident_start(s[0])
    &&& !spec_is_whitespace(s[0])
    &&& forall|i: int| 1 <= i < s.len() ==> is_ident_char(#[trigger] s[i])
}

pub open spec fn is_column(s: Seq<char>) -> bool {
    &&& 1 <= s.len() <= 3
    &&& forall|i: int| 0 <= i < s.len() ==> is_ascii_upper(#[trigger] s[i])
}

pub open spec fn canonical_cell(c: Cell) -> bool {
    &&& is_column(c.column)
    &&& 1 <= c.row <= u32::MAX
}

pub open spec fn true_text() -> Seq<char> {
    seq!['T', 'R', 'U', 'E']
}

pub open spec fn false_text() -> Seq<char> {
    seq!['F', 'A', 'L', 'S', 'E']
}

pub open spec fn is_constant(e: Ex) -> bool {
    match e {
        Ex::Number(d) => decimal_wf(d),
        Ex::Unary(UnaryOp::Neg, a) => match *a {
            Ex::Number(d) => decimal_wf(d),
            _ => false,
        },
        Ex::Text(_) => true,
        Ex::Error(s) => is_error_literal(s),
        Ex::Boolean(_) => true,
        _ => false,
    }
}

/// The trees the parser produces: every literal and name in canonical
/// form, unions of two or more members, non-empty array rows of
/// constants, intersections whose left operand denotes a reference.
pub open spec fn wf(e: Ex) -> bool
    decreases e,
{
    match e {
        Ex::Number(d) => decimal_wf(d),
        Ex::Text(_) => true,
        Ex::Boolean(_) => true,
        Ex::Error(s) => is_error_literal(s),
        Ex::Name(n) => {
            &&& is_valid_name(n)
            &&& !spec_is_whitespace(n[0])
            &&& spec_cell_ref(n) is None
            &&& upper(n) != true_text()
            &&& upper(n) != false_text()
        },
        Ex::Reference(c) => canonical_cell(c),
        Ex::Range(a, b) => wf(*a) && wf(*b),
        Ex::Intersect(a, b) => ref_like(*a) && wf(*a) && wf(*b),
        Ex::Union(items) => items.len() >= 2 && wf_list(items),
        Ex::Array(rows) => rows.len() >= 1 && wf_rows(rows),
        Ex::Unary(_, a) => wf(*a),
        Ex::Binary(_, a, b) => wf(*a) && wf(*b),
        Ex::Call(name, args) => is_ident_text(name) && upper(name) == name && wf_list(args),
    }
}

pub open spec fn wf_list(items: Seq<Ex>) -> bool
    decreases items,
{
    if items.len() == 0 {
        true
    } else {
        wf_list(items.drop_last()) && wf(items.last())
    }
}

pub open spec fn wf_rows(rows: Seq<Seq<Ex>>) -> bool {
    forall|i: int|
        0 <= i < rows.len() ==> (#[trigger] rows[i]).len() >= 1 && forall|j: int|
            0 <= j < rows[i].len() ==> is_constant(#[trigger] rows[i][j])
}

// ---------------------------------------------------------------------------
// Rendered text as lexemes.
// ---------------------------------------------------------------------------

/// One token's worth of rendered text: its kind, its characters, and
/// whether a space is written before it.
pub struct Lx {
    pub kind: Kind,
    pub text: Seq<char>,
    pub space: bool,
}

pub open spec fn lx(kind: Kind, text: Seq<char>) -> Lx {
    Lx { kind, text, space: false }
}

pub open spec fn punct(k: Kind) -> Lx {
    lx(k, describe(k))
}

pub open spec fn spaced(ls: Seq<Lx>) -> Seq<Lx> {
    if ls.len() == 0 {
        ls
    } else {
        ls.update(0, Lx { kind: ls[0].kind, text: ls[0].text, space: true })
    }
}

pub open spec fn lx_paren(ls: Seq<Lx>) -> Seq<Lx> {
    seq![punct(Kind::LParen)] + ls + seq![punct(Kind::RParen)]
}

pub open spec fn lx_paren_if(b: bool, ls: Seq<Lx>) -> Seq<Lx> {
    if b {
        lx_paren(ls)
    } else {
        ls
    }
}

pub open spec fn binary_kind(op: BinaryOp) -> Kind {
    match op {
        BinaryOp::Add => Kind::Plus,
        BinaryOp::Sub => Kind::Minus,
        BinaryOp::Mul => Kind::Star,
        BinaryOp::Div => Kind::Slash,
        BinaryOp::Pow => Kind::Caret,
        BinaryOp::Concat => Kind::Ampersand,
        BinaryOp::Eq => Kind::Eq,
        BinaryOp::Ne => Kind::Ne,
        BinaryOp::Lt => Kind::Lt,
        BinaryOp::Le => Kind::Le,
        BinaryOp::Gt => Kind::Gt,
        BinaryOp::Ge => Kind::Ge,
    }
}

/// The part of a reference after the sheet: `$`s, column, row.
pub open spec fn cell_text(c: Cell) -> Seq<char> {
    let col_abs = if c.col_absolute {
        seq!['$']
    } else {
        Seq::empty()
    };
    let row_abs = if c.row_absolute {
        seq!['$']
    } else {
        Seq::empty()
    };
    col_abs + c.column + row_abs + nat_text(c.row as nat)
}

pub open spec fn sheet_lx(s: Seq<char>) -> Lx {
    if is_bare_sheet(s) {
        lx(Kind::Ident(s), s)
    } else {
        lx(Kind::SheetName(s), sheet_text(s))
    }
}

pub open spec fn ref_lx(c: Cell) -> Seq<Lx> {
    match c.sheet {
        Some(s) => seq![sheet_lx(s), punct(Kind::Bang), lx(Kind::Ident(cell_text(c)), cell_text(c))],
        None => seq![lx(Kind::Ident(cell_text(c)), cell_text(c))],
    }
}

/// The lexemes of an expression's canonical text.
pub open spec fn lexemes(e: Ex) -> Seq<Lx>
    decreases e,
{
    match e {
        Ex::Number(d) => seq![lx(Kind::Number(d), render_decimal(d))],
        Ex::Text(s) => seq![lx(Kind::Text(s), seq!['"'] + double_quotes(s, '"') + seq!['"'])],
        Ex::Boolean(b) => if b {
            seq![lx(Kind::Ident(true_text()), true_text())]
        } else {
            seq![lx(Kind::Ident(false_text()), false_text())]
        },
        Ex::Error(s) => seq![lx(Kind::Error(s), s)],
        Ex::Name(n) => seq![lx(Kind::Ident(n), n)],
        Ex::Reference(c) => ref_lx(c),
        Ex::Range(a, b) => lx_paren_if(precedence(*a) < 10, lexemes(*a)) + seq![punct(Kind::Colon)]
            + lx_paren_if(precedence(*b) < 10, lexemes(*b)),
        Ex::Intersect(a, b) => {
            let l = paren_if(precedence(*a) < 8, spec_render(*a));
            let r = paren_if(precedence(*b) <= 8, spec_render(*b));
            let ll = lx_paren_if(precedence(*a) < 8, lexemes(*a));
            let rl = lx_paren_if(precedence(*b) <= 8, lexemes(*b));
            let r_ok = starts_reference_text(r);
            let rl2 = if r_ok {
                rl
            } else {
                lx_paren(rl)
            };
            let r2 = if r_ok {
                r
            } else {
                paren(r)
            };
            let ll2 = if r2[0] == '(' && precedence(*a) >= 8 && ends_in_name(*a) {
                lx_paren(ll)
            } else {
                ll
            };
            ll2 + spaced(rl2)
        },
        Ex::Union(items) => lx_paren(lx_list(items)),
        Ex::Array(rows) => seq![punct(Kind::LBrace)] + lx_rows(rows) + seq![punct(Kind::RBrace)],
        Ex::Unary(op, a) => match op {
            UnaryOp::Neg => seq![punct(Kind::Minus)] + lx_paren_if(precedence(*a) < 7, lexemes(*a)),
            UnaryOp::Pos => seq![punct(Kind::Plus)] + lx_paren_if(precedence(*a) < 7, lexemes(*a)),
            UnaryOp::Percent => lx_paren_if(precedence(*a) < 6, lexemes(*a)) + seq![
                punct(Kind::Percent),
            ],
        },
        Ex::Binary(op, a, b) => {
            let p = binary_precedence(op);
            lx_paren_if(precedence(*a) < p, lexemes(*a)) + seq![punct(binary_kind(op))]
                + lx_paren_if(precedence(*b) <= p, lexemes(*b))
        },
        Ex::Call(name, args) => seq![lx(Kind::Ident(upper(name)), upper(name)), punct(Kind::LParen)]
            + lx_list(args) + seq![punct(Kind::RParen)],
    }
}

/// Members or arguments: separated by a comma, each after the first
/// preceded by a space.
pub open spec fn lx_list(items: Seq<Ex>) -> Seq<Lx>
    decreases items,
{
    if items.len() == 0 {
        Seq::empty()
    } else if items.len() == 1 {
        lexemes(items[0])
    } else {
        lx_list(items.drop_last()) + seq![punct(Kind::Comma)] + spaced(lexemes(items.last()))
    }
}

/// Array items separated by commas, with no spaces.
pub open spec fn lx_row(items: Seq<Ex>) -> Seq<Lx>
    decreases items,
{
    if items.len() == 0 {
        Seq::empty()
    } else if items.len() == 1 {
        lexemes(items[0])
    } else {
        lx_row(items.drop_last()) + seq![punct(Kind::Comma)] + lexemes(items.last())
    }
}

pub open spec fn lx_rows(rows: Seq<Seq<Ex>>) -> Seq<Lx>
    decreases rows,
{
    if rows.len() == 0 {
        Seq::empty()
    } else if rows.len() == 1 {
        lx_row(rows[0])
    } else {
        lx_rows(rows.drop_last()) + seq![punct(Kind::Semicolon)] + lx_row(rows.last())
    }
}

/// The text of a lexeme sequence.
pub open spec fn flat(ls: Seq<Lx>) -> Seq<char>
    decreases ls.len(),
{
    if ls.len() == 0 {
        Seq::empty()
    } else {
        flat(ls.drop_last()) + (if ls.last().space {
            seq![' ']
        } else {
            Seq::empty()
        }) + ls.last().text
    }
}

pub proof fn lemma_flat_append(a: Seq<Lx>, b: Seq<Lx>)
    ensures
        flat(a + b) == flat(a) + flat(b),
    decreases b.len(),
{
    if b.len() == 0 {
        assert(a + b =~= a);
    } else {
        lemma_flat_append(a, b.drop_last());
        assert((a + b).drop_last() =~= a + b.drop_last());
    }
}

pub proof fn lemma_flat_one(x: Lx)
    ensures
        flat(seq![x]) == (if x.space {
            seq![' ']
        } else {
            Seq::empty()
        }) + x.text,
{
    assert(seq![x].drop_last() =~= Seq::<Lx>::empty());
    assert(flat(Seq::<Lx>::empty()) == Seq::<char>::empty());
    assert(seq![x].last() == x);
    assert(Seq::<char>::empty() + (if x.space {
        seq![' ']
    } else {
        Seq::<char>::empty()
    }) =~= (if x.space {
        seq![' ']
    } else {
        Seq::<char>::empty()
    }));
}

pub proof fn lemma_flat_spaced(ls: Seq<Lx>)
    requires
        ls.len() > 0,
        !ls[0].space,
    ensures
        flat(spaced(ls)) == seq![' '] + flat(ls),
{
    let x = ls[0];
    let rest = ls.subrange(1, ls.len() as int);
    assert(ls =~= seq![x] + rest);
    assert(spaced(ls) =~= seq![Lx { kind: x.kind, text: x.text, space: true }] + rest);
    lemma_flat_append(seq![x], rest);
    lemma_flat_append(seq![Lx { kind: x.kind, text: x.text, space: true }], rest);
    lemma_flat_one(x);
    lemma_flat_one(Lx { kind: x.kind, text: x.text, space: true });
    assert(Seq::<char>::empty() + x.text =~= x.text);
}

pub proof fn lemma_flat_paren(ls: Seq<Lx>)
    ensures
        flat(lx_paren(ls)) == paren(flat(ls)),
{
    reveal_strlit("(");
    reveal_strlit(")");
    lemma_flat_append(seq![punct(Kind::LParen)] + ls, seq![punct(Kind::RParen)]);
    lemma_flat_append(seq![punct(Kind::LParen)], ls);
    lemma_flat_one(punct(Kind::LParen));
    lemma_flat_one(punct(Kind::RParen));
    assert(Seq::<char>::empty() + "("@ =~= seq!['(']);
    assert(Seq::<char>::empty() + ")"@ =~= seq![')']);
}

pub proof fn lemma_flat_paren_if(b: bool, ls: Seq<Lx>)
    ensures
        flat(lx_paren_if(b, ls)) == paren_if(b, flat(ls)),
{
    if b {
        lemma_flat_paren(ls);
    }
}

pub proof fn lemma_flat_punct(k: Kind)
    ensures
        flat(seq![punct(k)]) == describe(k),
{
    lemma_flat_one(punct(k));
    assert(Seq::<char>::empty() + describe(k) =~= describe(k));
}

pub proof fn lemma_flat_plain(x: Lx)
    requires
        !x.space,
    ensures
        flat(seq![x]) == x.text,
{
    lemma_flat_one(x);
    assert(Seq::<char>::empty() + x.text =~= x.text);
}

/// Lexemes of a well-formed tree: at least one, the first not after a
/// space.
pub open spec fn lx_shape(ls: Seq<Lx>) -> bool {
    ls.len() > 0 && !ls[0].space
}

/// What the text of a subexpression is known to be, for the composite cases.
pub open spec fn flat_ok(e: Ex) -> bool {
    flat(lexemes(e)) == spec_render(e) && lx_shape(lexemes(e))
}

pub proof fn lemma_lexemes_flat(e: Ex)
    requires
        wf(e),
    ensures
        flat_ok(e),
    decreases e,
{
    match e {
        Ex::Number(d) => {
            lemma_flat_plain(lx(Kind::Number(d), render_decimal(d)));
        },
        Ex::Text(s) => {
            lemma_flat_plain(lx(Kind::Text(s), seq!['"'] + double_quotes(s, '"') + seq!['"']));
        },
        Ex::Boolean(b) => {
            reveal_strlit("TRUE");
            reveal_strlit("FALSE");
            lemma_flat_plain(lx(Kind::Ident(true_text()), true_text()));
            lemma_flat_plain(lx(Kind::Ident(false_text()), false_text()));
            assert(true_text() =~= "TRUE"@);
            assert(false_text() =~= "FALSE"@);
        },
        Ex::Error(s) => {
            lemma_flat_plain(lx(Kind::Error(s), s));
        },
        Ex::Name(n) => {
            lemma_flat_plain(lx(Kind::Ident(n), n));
        },
        Ex::Reference(c) => {
            lemma_ref_flat(c);
        },
        Ex::Range(a, b) => {
            lemma_lexemes_flat(*a);
            lemma_lexemes_flat(*b);
            lemma_flat_range(*a, *b);
        },
        Ex::Intersect(a, b) => {
            lemma_lexemes_flat(*a);
            lemma_lexemes_flat(*b);
            lemma_flat_intersect(*a, *b);
        },
        Ex::Union(items) => {
            lemma_lx_list_flat(items);
            lemma_flat_paren(lx_list(items));
            reveal_strlit(", ");
        },
        Ex::Array(rows) => {
            lemma_lx_rows_flat(rows);
            lemma_flat_array(rows);
        },
        Ex::Unary(op, a) => {
            lemma_lexemes_flat(*a);
            lemma_flat_unary(op, *a);
        },
        Ex::Binary(op, a, b) => {
            lemma_lexemes_flat(*a);
            lemma_lexemes_flat(*b);
            lemma_flat_binary(op, *a, *b);
        },
        Ex::Call(name, args) => {
            lemma_lx_list_flat(args);
            lemma_flat_call(name, args);
        },
    }
}

proof fn lemma_paren_if_shape(b: bool, ls: Seq<Lx>)
    requires
        lx_shape(ls),
    ensures
        lx_shape(lx_paren_if(b, ls)),
        lx_paren_if(b, ls)[0] == (if b {
            punct(Kind::LParen)
        } else {
            ls[0]
        }),
{
}

#[verifier::spinoff_prover]
#[verifier::rlimit(40)]
proof fn lemma_flat_range(a: Ex, b: Ex)
    requires
        flat_ok(a),
        flat_ok(b),
    ensures
        flat_ok(Ex::Range(Box::new(a), Box::new(b))),
{
    let la = lx_paren_if(precedence(a) < 10, lexemes(a));
    let lb = lx_paren_if(precedence(b) < 10, lexemes(b));
    lemma_flat_paren_if(precedence(a) < 10, lexemes(a));
    lemma_flat_paren_if(precedence(b) < 10, lexemes(b));
    lemma_paren_if_shape(precedence(a) < 10, lexemes(a));
    lemma_flat_append(la + seq![punct(Kind::Colon)], lb);
    lemma_flat_append(la, seq![punct(Kind::Colon)]);
    lemma_flat_punct(Kind::Colon);
    reveal_strlit(":");
    assert(":"@ =~= seq![':']);
}

#[verifier::spinoff_prover]
#[verifier::rlimit(40)]
proof fn lemma_flat_intersect(a: Ex, b: Ex)
    requires
        flat_ok(a),
        flat_ok(b),
    ensures
        flat_ok(Ex::Intersect(Box::new(a), Box::new(b))),
{
    let e = Ex::Intersect(Box::new(a), Box::new(b));
    let l = paren_if(precedence(a) < 8, spec_render(a));
    let r = paren_if(precedence(b) <= 8, spec_render(b));
    let ll = lx_paren_if(precedence(a) < 8, lexemes(a));
    let rl = lx_paren_if(precedence(b) <= 8, lexemes(b));
    lemma_flat_paren_if(precedence(a) < 8, lexemes(a));
    lemma_flat_paren_if(precedence(b) <= 8, lexemes(b));
    lemma_paren_if_shape(precedence(a) < 8, lexemes(a));
    lemma_paren_if_shape(precedence(b) <= 8, lexemes(b));
    let r_ok = starts_reference_text(r);
    let rl2 = if r_ok {
        rl
    } else {
        lx_paren(rl)
    };
    let r2 = if r_ok {
        r
    } else {
        paren(r)
    };
    lemma_flat_paren(rl);
    assert(flat(rl2) == r2);
    let cond = r2[0] == '(' && precedence(a) >= 8 && ends_in_name(a);
    let ll2 = if cond {
        lx_paren(ll)
    } else {
        ll
    };
    lemma_flat_paren(ll);
    assert(flat(ll2) == (if cond {
        paren(l)
    } else {
        l
    }));
    assert(rl2.len() > 0 && !rl2[0].space);
    lemma_flat_spaced(rl2);
    lemma_flat_append(ll2, spaced(rl2));
    assert(lx_shape(ll2));
    assert(lexemes(e) == ll2 + spaced(rl2));
    assert(spec_render(e) == intersect_text(l, r, precedence(a) >= 8 && ends_in_name(a)));
    assert(flat(lexemes(e)) =~= spec_render(e));
}

#[verifier::spinoff_prover]
#[verifier::rlimit(40)]
proof fn lemma_flat_array(rows: Seq<Seq<Ex>>)
    requires
        flat(lx_rows(rows)) == render_rows(rows),
    ensures
        flat(lexemes(Ex::Array(rows))) == spec_render(Ex::Array(rows)),
        lx_shape(lexemes(Ex::Array(rows))),
{
    lemma_flat_append(seq![punct(Kind::LBrace)] + lx_rows(rows), seq![punct(Kind::RBrace)]);
    lemma_flat_append(seq![punct(Kind::LBrace)], lx_rows(rows));
    lemma_flat_punct(Kind::LBrace);
    lemma_flat_punct(Kind::RBrace);
    reveal_strlit("{");
    reveal_strlit("}");
    assert("{"@ =~= seq!['{']);
    assert("}"@ =~= seq!['}']);
}

#[verifier::spinoff_prover]
#[verifier::rlimit(40)]
proof fn lemma_flat_unary(op: UnaryOp, a: Ex)
    requires
        flat_ok(a),
    ensures
        flat_ok(Ex::Unary(op, Box::new(a))),
{
    reveal_strlit("-");
    reveal_strlit("+");
    reveal_strlit("%");
    match op {
        UnaryOp::Neg => {
            let la = lx_paren_if(precedence(a) < 7, lexemes(a));
            lemma_flat_paren_if(precedence(a) < 7, lexemes(a));
            lemma_flat_append(seq![punct(Kind::Minus)], la);
            lemma_flat_punct(Kind::Minus);
            assert("-"@ =~= seq!['-']);
        },
        UnaryOp::Pos => {
            let la = lx_paren_if(precedence(a) < 7, lexemes(a));
            lemma_flat_paren_if(precedence(a) < 7, lexemes(a));
            lemma_flat_append(seq![punct(Kind::Plus)], la);
            lemma_flat_punct(Kind::Plus);
            assert("+"@ =~= seq!['+']);
        },
        UnaryOp::Percent => {
            let la = lx_paren_if(precedence(a) < 6, lexemes(a));
            lemma_flat_paren_if(precedence(a) < 6, lexemes(a));
            lemma_paren_if_shape(precedence(a) < 6, lexemes(a));
            lemma_flat_append(la, seq![punct(Kind::Percent)]);
            lemma_flat_punct(Kind::Percent);
            assert("%"@ =~= seq!['%']);
        },
    }
}

#[verifier::spinoff_prover]
#[verifier::rlimit(40)]
proof fn lemma_flat_binary(op: BinaryOp, a: Ex, b: Ex)
    requires
        flat_ok(a),
        flat_ok(b),
    ensures
        flat_ok(Ex::Binary(op, Box::new(a), Box::new(b))),
{
    let p = binary_precedence(op);
    let la = lx_paren_if(precedence(a) < p, lexemes(a));
    let lb = lx_paren_if(precedence(b) <= p, lexemes(b));
    lemma_flat_paren_if(precedence(a) < p, lexemes(a));
    lemma_flat_paren_if(precedence(b) <= p, lexemes(b));
    lemma_paren_if_shape(precedence(a) < p, lexemes(a));
    lemma_flat_append(la + seq![punct(binary_kind(op))], lb);
    lemma_flat_append(la, seq![punct(binary_kind(op))]);
    lemma_flat_punct(binary_kind(op));
    lemma_binary_symbol(op);
}

#[verifier::spinoff_prover]
#[verifier::rlimit(40)]
proof fn lemma_flat_call(name: Seq<char>, args: Seq<Ex>)
    requires
        flat(lx_list(args)) == render_list(args, ", "@),
    ensures
        flat(lexemes(Ex::Call(name, args))) == spec_render(Ex::Call(name, args)),
        lx_shape(lexemes(Ex::Call(name, args))),
{
    let id = lx(Kind::Ident(upper(name)), upper(name));
    let head = seq![id, punct(Kind::LParen)];
    lemma_flat_append(head + lx_list(args), seq![punct(Kind::RParen)]);
    lemma_flat_append(head, lx_list(args));
    lemma_flat_append(seq![id], seq![punct(Kind::LParen)]);
    assert(head =~= seq![id] + seq![punct(Kind::LParen)]);
    lemma_flat_plain(id);
    lemma_flat_punct(Kind::LParen);
    lemma_flat_punct(Kind::RParen);
    reveal_strlit("(");
    reveal_strlit(")");
    assert("("@ =~= seq!['(']);
    assert(")"@ =~= seq![')']);
}

pub proof fn lemma_binary_symbol(op: BinaryOp)
    ensures
        describe(binary_kind(op)) == binary_symbol(op),
{
}

pub proof fn lemma_ref_flat(c: Cell)
    ensures
        flat(ref_lx(c)) == ref_text(c),
        lx_shape(ref_lx(c)),
{
    let id = lx(Kind::Ident(cell_text(c)), cell_text(c));
    lemma_flat_plain(id);
    match c.sheet {
        Some(s) => {
            let sl = sheet_lx(s);
            lemma_flat_plain(sl);
            lemma_flat_punct(Kind::Bang);
            reveal_strlit("!");
            assert(ref_lx(c) =~= seq![sl] + seq![punct(Kind::Bang)] + seq![id]);
            lemma_flat_append(seq![sl] + seq![punct(Kind::Bang)], seq![id]);
            lemma_flat_append(seq![sl], seq![punct(Kind::Bang)]);
            assert("!"@ =~= seq!['!']);
            assert(flat(ref_lx(c)) =~= ref_text(c));
        },
        None => {
            assert(flat(ref_lx(c)) =~= ref_text(c));
        },
    }
}

pub proof fn lemma_wf_list(items: Seq<Ex>, i: int)
    requires
        wf_list(items),
        0 <= i < items.len(),
    ensures
        wf(items[i]),
    decreases items.len(),
{
    if i < items.len() - 1 {
        lemma_wf_list(items.drop_last(), i);
    }
}

pub proof fn lemma_lx_list_flat(items: Seq<Ex>)
    requires
        wf_list(items),
    ensures
        flat(lx_list(items)) == render_list(items, ", "@),
        items.len() > 0 ==> lx_shape(lx_list(items)),
    decreases items,
{
    if items.len() == 1 {
        lemma_wf_list(items, 0);
        lemma_lexemes_flat(items[0]);
    } else if items.len() > 1 {
        lemma_lx_list_flat(items.drop_last());
        lemma_wf_list(items, items.len() - 1);
        lemma_lexemes_flat(items.last());
        lemma_flat_spaced(lexemes(items.last()));
        lemma_flat_append(lx_list(items.drop_last()) + seq![punct(Kind::Comma)], spaced(
            lexemes(items.last()),
        ));
        lemma_flat_append(lx_list(items.drop_last()), seq![punct(Kind::Comma)]);
        lemma_flat_punct(Kind::Comma);
        reveal_strlit(", ");
        reveal_strlit(",");
        assert(","@ + seq![' '] =~= ", "@);
        assert(flat(lx_list(items)) =~= render_list(items, ", "@));
    }
}

pub proof fn lemma_lx_row_flat(items: Seq<Ex>)
    requires
        forall|j: int| 0 <= j < items.len() ==> is_constant(#[trigger] items[j]),
    ensures
        flat(lx_row(items)) == render_list(items, ","@),
        items.len() > 0 ==> lx_shape(lx_row(items)),
    decreases items,
{
    if items.len() == 1 {
        lemma_constant_wf(items[0]);
        lemma_lexemes_flat(items[0]);
    } else if items.len() > 1 {
        lemma_lx_row_flat(items.drop_last());
        lemma_constant_wf(items.last());
        lemma_lexemes_flat(items.last());
        lemma_flat_append(lx_row(items.drop_last()) + seq![punct(Kind::Comma)], lexemes(
            items.last(),
        ));
        lemma_flat_append(lx_row(items.drop_last()), seq![punct(Kind::Comma)]);
        lemma_flat_punct(Kind::Comma);
    }
}

pub proof fn lemma_constant_wf(e: Ex)
    requires
        is_constant(e),
    ensures
        wf(e),
{
    match e {
        Ex::Unary(_, a) => {
            assert(wf(*a));
        },
        _ => {},
    }
}

pub proof fn lemma_lx_rows_flat(rows: Seq<Seq<Ex>>)
    requires
        wf_rows(rows),
    ensures
        flat(lx_rows(rows)) == render_rows(rows),
        rows.len() > 0 ==> lx_shape(lx_rows(rows)),
    decreases rows,
{
    if rows.len() == 1 {
        assert(rows[0].len() >= 1);
        lemma_lx_row_flat(rows[0]);
    } else if rows.len() > 1 {
        assert(wf_rows(rows.drop_last()));
        lemma_lx_rows_flat(rows.drop_last());
        let last = rows.last();
        assert(rows[rows.len() - 1] == last);
        lemma_lx_row_flat(last);
        lemma_flat_append(lx_rows(rows.drop_last()) + seq![punct(Kind::Semicolon)], lx_row(last));
        lemma_flat_append(lx_rows(rows.drop_last()), seq![punct(Kind::Semicolon)]);
        lemma_flat_punct(Kind::Semicolon);
        reveal_strlit(";");
        assert(";"@ =~= seq![';']);
    }
}


// ---------------------------------------------------------------------------
// What each lexeme looks like.
// ---------------------------------------------------------------------------

/// The characters of an operator or punctuation token.
pub open spec fn punct_chars(k: Kind) -> Seq<char> {
    match k {
        Kind::Plus => seq!['+'],
        Kind::Minus => seq!['-'],
        Kind::Star => seq!['*'],
        Kind::Slash => seq!['/'],
        Kind::Caret => seq!['^'],
        Kind::Ampersand => seq!['&'],
        Kind::Percent => seq!['%'],
        Kind::Eq => seq!['='],
        Kind::Ne => seq!['<', '>'],
        Kind::Lt => seq!['<'],
        Kind::Le => seq!['<', '='],
        Kind::Gt => seq!['>'],
        Kind::Ge => seq!['>', '='],
        Kind::LParen => seq!['('],
        Kind::RParen => seq![')'],
        Kind::LBrace => seq!['{'],
        Kind::RBrace => seq!['}'],
        Kind::Comma => seq![','],
        Kind::Semicolon => seq![';'],
        Kind::Colon => seq![':'],
        Kind::Bang => seq!['!'],
        _ => Seq::empty(),
    }
}

pub open spec fn is_punct(k: Kind) -> bool {
    punct_chars(k).len() > 0
}

pub proof fn lemma_describe_punct(k: Kind)
    requires
        is_punct(k),
    ensures
        describe(k) == punct_chars(k),
{
    reveal_strlit("+");
    reveal_strlit("-");
    reveal_strlit("*");
    reveal_strlit("/");
    reveal_strlit("^");
    reveal_strlit("&");
    reveal_strlit("%");
    reveal_strlit("=");
    reveal_strlit("<>");
    reveal_strlit("<");
    reveal_strlit("<=");
    reveal_strlit(">");
    reveal_strlit(">=");
    reveal_strlit("(");
    reveal_strlit(")");
    reveal_strlit("{");
    reveal_strlit("}");
    reveal_strlit(",");
    reveal_strlit(";");
    reveal_strlit(":");
    reveal_strlit("!");
    assert(describe(k) =~= punct_chars(k));
}

/// A lexeme whose characters are those of its token.
pub open spec fn lx_ok(x: Lx) -> bool {
    match x.kind {
        Kind::Number(d) => x.text == render_decimal(d) && decimal_wf(d),
        Kind::Text(s) => x.text == seq!['"'] + double_quotes(s, '"') + seq!['"'],
        Kind::Ident(s) => x.text == s && is_ident_text(s),
        Kind::SheetName(s) => x.text == seq!['\''] + double_quotes(s, '\'') + seq!['\''],
        Kind::Error(s) => x.text == s && is_error_literal(s),
        Kind::Eof => false,
        _ => x.text == punct_chars(x.kind),
    }
}

pub open spec fn all_ok(ls: Seq<Lx>) -> bool {
    forall|k: int| 0 <= k < ls.len() ==> lx_ok(#[trigger] ls[k])
}

pub proof fn lemma_all_ok_append(a: Seq<Lx>, b: Seq<Lx>)
    requires
        all_ok(a),
        all_ok(b),
    ensures
        all_ok(a + b),
{
    assert forall|k: int| 0 <= k < (a + b).len() implies lx_ok(#[trigger] (a + b)[k]) by {
        if k < a.len() {
            assert((a + b)[k] == a[k]);
        } else {
            assert((a + b)[k] == b[k - a.len()]);
        }
    }
}

pub proof fn lemma_all_ok_spaced(ls: Seq<Lx>)
    requires
        all_ok(ls),
    ensures
        all_ok(spaced(ls)),
{
    assert forall|k: int| 0 <= k < spaced(ls).len() implies lx_ok(#[trigger] spaced(ls)[k]) by {
        assert(lx_ok(ls[k]));
    }
}

pub proof fn lemma_all_ok_punct(k: Kind)
    requires
        is_punct(k),
    ensures
        all_ok(seq![punct(k)]),
{
    lemma_describe_punct(k);
    assert(seq![punct(k)][0] == punct(k));
}

pub proof fn lemma_all_ok_paren_if(b: bool, ls: Seq<Lx>)
    requires
        all_ok(ls),
    ensures
        all_ok(lx_paren_if(b, ls)),
{
    if b {
        lemma_all_ok_punct(Kind::LParen);
        lemma_all_ok_punct(Kind::RParen);
        lemma_all_ok_append(seq![punct(Kind::LParen)], ls);
        lemma_all_ok_append(seq![punct(Kind::LParen)] + ls, seq![punct(Kind::RParen)]);
    }
}


pub proof fn lemma_digit_char(d: int)
    requires
        0 <= d < 10,
    ensures
        is_ascii_digit(digit_char(d)),
        digit_value(digit_char(d)) == d,
{
}

/// The decimal text of a natural number: at least one digit, only digits.
pub proof fn lemma_nat_text(n: nat)
    ensures
        nat_text(n).len() >= 1,
        forall|i: int| 0 <= i < nat_text(n).len() ==> is_ascii_digit(#[trigger] nat_text(n)[i]),
    decreases n,
{
    if n < 10 {
        lemma_digit_char(n as int);
    } else {
        lemma_nat_text(n / 10);
        lemma_digit_char((n % 10) as int);
        let s = nat_text(n / 10);
        assert forall|i: int| 0 <= i < nat_text(n).len() implies is_ascii_digit(
            #[trigger] nat_text(n)[i],
        ) by {
            if i < s.len() {
                assert(nat_text(n)[i] == s[i]);
            }
        }
    }
}

pub proof fn lemma_cell_text_ident(c: Cell)
    requires
        canonical_cell(c),
    ensures
        is_ident_text(cell_text(c)),
{
    let col_abs: Seq<char> = if c.col_absolute {
        seq!['$']
    } else {
        Seq::empty()
    };
    let row_abs: Seq<char> = if c.row_absolute {
        seq!['$']
    } else {
        Seq::empty()
    };
    let digits = nat_text(c.row as nat);
    lemma_nat_text(c.row as nat);
    let s = cell_text(c);
    assert(s == col_abs + c.column + row_abs + digits);
    assert(is_ascii_upper(c.column[0]));
    assert forall|i: int| 1 <= i < s.len() implies is_ident_char(#[trigger] s[i]) by {
        let a = col_abs.len() as int;
        let b = a + c.column.len();
        let r = b + row_abs.len();
        if i < a {
        } else if i < b {
            assert(s[i] == c.column[i - a]);
            assert(is_ascii_upper(c.column[i - a]));
        } else if i < r {
            assert(s[i] == '$');
        } else {
            assert(s[i] == digits[i - r]);
            assert(is_ascii_digit(digits[i - r]));
        }
    }
    if c.col_absolute {
        assert(s[0] == '$');
    } else {
        assert(s[0] == c.column[0]);
    }
}

pub proof fn lemma_words_ident()
    ensures
        is_ident_text(true_text()),
        is_ident_text(false_text()),
{
    assert(is_ident_text(true_text()));
    assert(is_ident_text(false_text()));
}

pub proof fn lemma_lexemes_ok(e: Ex)
    requires
        wf(e),
    ensures
        all_ok(lexemes(e)),
    decreases e,
{
    match e {
        Ex::Boolean(_) => {
            lemma_words_ident();
        },
        Ex::Name(n) => {
            assert(is_ident_text(n));
        },
        Ex::Reference(c) => {
            lemma_cell_text_ident(c);
            lemma_all_ok_punct(Kind::Bang);
            let id = lx(Kind::Ident(cell_text(c)), cell_text(c));
            assert(all_ok(seq![id]));
            match c.sheet {
                Some(sh) => {
                    assert(all_ok(seq![sheet_lx(sh)]));
                    lemma_all_ok_append(seq![sheet_lx(sh)], seq![punct(Kind::Bang)]);
                    lemma_all_ok_append(seq![sheet_lx(sh)] + seq![punct(Kind::Bang)], seq![id]);
                    assert(ref_lx(c) =~= seq![sheet_lx(sh)] + seq![punct(Kind::Bang)] + seq![id]);
                },
                None => {},
            }
        },
        Ex::Range(a, b) => {
            lemma_lexemes_ok(*a);
            lemma_lexemes_ok(*b);
            lemma_all_ok_paren_if(precedence(*a) < 10, lexemes(*a));
            lemma_all_ok_paren_if(precedence(*b) < 10, lexemes(*b));
            lemma_all_ok_punct(Kind::Colon);
            lemma_all_ok_append(lx_paren_if(precedence(*a) < 10, lexemes(*a)), seq![punct(Kind::Colon)]);
            lemma_all_ok_append(
                lx_paren_if(precedence(*a) < 10, lexemes(*a)) + seq![punct(Kind::Colon)],
                lx_paren_if(precedence(*b) < 10, lexemes(*b)),
            );
        },
        Ex::Intersect(a, b) => {
            lemma_lexemes_ok(*a);
            lemma_lexemes_ok(*b);
            let ll = lx_paren_if(precedence(*a) < 8, lexemes(*a));
            let rl = lx_paren_if(precedence(*b) <= 8, lexemes(*b));
            lemma_all_ok_paren_if(precedence(*a) < 8, lexemes(*a));
            lemma_all_ok_paren_if(precedence(*b) <= 8, lexemes(*b));
            lemma_all_ok_paren_if(true, ll);
            lemma_all_ok_paren_if(true, rl);
            let r = paren_if(precedence(*b) <= 8, spec_render(*b));
            let rl2 = if starts_reference_text(r) {
                rl
            } else {
                lx_paren(rl)
            };
            lemma_all_ok_spaced(rl2);
            assert(all_ok(lx_paren(ll)));
            lemma_all_ok_append(ll, spaced(rl2));
            lemma_all_ok_append(lx_paren(ll), spaced(rl2));
        },
        Ex::Union(items) => {
            lemma_lx_list_ok(items);
            lemma_all_ok_paren_if(true, lx_list(items));
        },
        Ex::Array(rows) => {
            lemma_lx_rows_ok(rows);
            lemma_all_ok_punct(Kind::LBrace);
            lemma_all_ok_punct(Kind::RBrace);
            lemma_all_ok_append(seq![punct(Kind::LBrace)], lx_rows(rows));
            lemma_all_ok_append(seq![punct(Kind::LBrace)] + lx_rows(rows), seq![punct(Kind::RBrace)]);
        },
        Ex::Unary(op, a) => {
            lemma_lexemes_ok(*a);
            lemma_all_ok_paren_if(precedence(*a) < 7, lexemes(*a));
            lemma_all_ok_paren_if(precedence(*a) < 6, lexemes(*a));
            lemma_all_ok_punct(Kind::Minus);
            lemma_all_ok_punct(Kind::Plus);
            lemma_all_ok_punct(Kind::Percent);
            lemma_all_ok_append(seq![punct(Kind::Minus)], lx_paren_if(precedence(*a) < 7, lexemes(*a)));
            lemma_all_ok_append(seq![punct(Kind::Plus)], lx_paren_if(precedence(*a) < 7, lexemes(*a)));
            lemma_all_ok_append(lx_paren_if(precedence(*a) < 6, lexemes(*a)), seq![punct(Kind::Percent)]);
        },
        Ex::Binary(op, a, b) => {
            lemma_lexemes_ok(*a);
            lemma_lexemes_ok(*b);
            let p = binary_precedence(op);
            let la = lx_paren_if(precedence(*a) < p, lexemes(*a));
            let lb = lx_paren_if(precedence(*b) <= p, lexemes(*b));
            lemma_all_ok_paren_if(precedence(*a) < p, lexemes(*a));
            lemma_all_ok_paren_if(precedence(*b) <= p, lexemes(*b));
            lemma_all_ok_punct(binary_kind(op));
            lemma_all_ok_append(la, seq![punct(binary_kind(op))]);
            lemma_all_ok_append(la + seq![punct(binary_kind(op))], lb);
        },
        Ex::Call(name, args) => {
            lemma_lx_list_ok(args);
            let id = lx(Kind::Ident(upper(name)), upper(name));
            assert(all_ok(seq![id]));
            lemma_all_ok_punct(Kind::LParen);
            lemma_all_ok_punct(Kind::RParen);
            lemma_all_ok_append(seq![id], seq![punct(Kind::LParen)]);
            assert(seq![id, punct(Kind::LParen)] =~= seq![id] + seq![punct(Kind::LParen)]);
            lemma_all_ok_append(seq![id, punct(Kind::LParen)], lx_list(args));
            lemma_all_ok_append(seq![id, punct(Kind::LParen)] + lx_list(args), seq![punct(Kind::RParen)]);
        },
        _ => {},
    }
}

pub proof fn lemma_lx_list_ok(items: Seq<Ex>)
    requires
        wf_list(items),
    ensures
        all_ok(lx_list(items)),
    decreases items,
{
    if items.len() == 1 {
        lemma_wf_list(items, 0);
        lemma_lexemes_ok(items[0]);
    } else if items.len() > 1 {
        lemma_lx_list_ok(items.drop_last());
        lemma_wf_list(items, items.len() - 1);
        lemma_lexemes_ok(items.last());
        lemma_all_ok_spaced(lexemes(items.last()));
        lemma_all_ok_punct(Kind::Comma);
        lemma_all_ok_append(lx_list(items.drop_last()), seq![punct(Kind::Comma)]);
        lemma_all_ok_append(lx_list(items.drop_last()) + seq![punct(Kind::Comma)], spaced(lexemes(items.last())));
    }
}

pub proof fn lemma_lx_row_ok(items: Seq<Ex>)
    requires
        forall|j: int| 0 <= j < items.len() ==> is_constant(#[trigger] items[j]),
    ensures
        all_ok(lx_row(items)),
    decreases items,
{
    if items.len() == 1 {
        lemma_constant_wf(items[0]);
        lemma_lexemes_ok(items[0]);
    } else if items.len() > 1 {
        lemma_lx_row_ok(items.drop_last());
        lemma_constant_wf(items.last());
        lemma_lexemes_ok(items.last());
        lemma_all_ok_punct(Kind::Comma);
        lemma_all_ok_append(lx_row(items.drop_last()), seq![punct(Kind::Comma)]);
        lemma_all_ok_append(lx_row(items.drop_last()) + seq![punct(Kind::Comma)], lexemes(items.last()));
    }
}

pub proof fn lemma_lx_rows_ok(rows: Seq<Seq<Ex>>)
    requires
        wf_rows(rows),
    ensures
        all_ok(lx_rows(rows)),
    decreases rows,
{
    if rows.len() == 1 {
        assert(rows[0].len() >= 1);
        lemma_lx_row_ok(rows[0]);
    } else if rows.len() > 1 {
        assert(wf_rows(rows.drop_last()));
        lemma_lx_rows_ok(rows.drop_last());
        let last = rows.last();
        assert(rows[rows.len() - 1] == last);
        lemma_lx_row_ok(last);
        lemma_all_ok_punct(Kind::Semicolon);
        lemma_all_ok_append(lx_rows(rows.drop_last()), seq![punct(Kind::Semicolon)]);
        lemma_all_ok_append(lx_rows(rows.drop_last()) + seq![punct(Kind::Semicolon)], lx_row(last));
    }
}


pub proof fn lemma_render_decimal_ends(d: (Seq<char>, int))
    requires
        decimal_wf(d),
    ensures
        render_decimal(d).len() > 0,
        is_ascii_digit(render_decimal(d)[0]),
        is_ascii_digit(render_decimal(d).last()),
{
    let digits = d.0;
    let x = d.1;
    let n = digits.len() as int;
    let r = render_decimal(d);
    if n == 0 {
    } else if x >= 0 {
        let z = Seq::new(x as nat, |i: int| '0');
        assert(r == digits + z);
        assert(r[0] == digits[0]);
        if x > 0 {
            assert(r.last() == z[x - 1]);
        } else {
            assert(r.last() == digits[n - 1]);
        }
    } else if -x < n {
        assert(r[0] == digits[0]);
        assert(r.last() == digits[n - 1]);
    } else {
        assert(r.last() == digits[n - 1]);
    }
}

pub proof fn lemma_error_literal_chars(s: Seq<char>)
    requires
        is_error_literal(s),
    ensures
        s.len() > 1,
        s[0] == '#',
        s.last() == '!' || s.last() == '?' || s.last() == 'A',
{
    let k = choose|k: int| 0 <= k < 8 && s == #[trigger] error_literal(k);
    assert(s == error_literal(k));
}

/// The first and last characters of a lexeme tell its kind apart where the
/// printer looks at them.
pub proof fn lemma_lx_ok_chars(x: Lx)
    requires
        lx_ok(x),
    ensures
        x.text.len() > 0,
        (x.text[0] == '(') == (x.kind is LParen),
        (x.text.last() == ')') == (x.kind is RParen),
        is_ident_start(x.text[0]) ==> x.kind is Ident,
        x.text[0] == '\'' ==> x.kind is SheetName,
        !spec_is_whitespace(x.text[0]),
{
    match x.kind {
        Kind::Number(d) => {
            lemma_render_decimal_ends(d);
        },
        Kind::Text(s) => {
            assert(x.text[0] == '"');
            assert(x.text.last() == '"');
        },
        Kind::Ident(s) => {
            if s.len() > 1 {
                assert(is_ident_char(s[s.len() - 1]));
            }
        },
        Kind::SheetName(s) => {
            assert(x.text[0] == '\'');
            assert(x.text.last() == '\'');
        },
        Kind::Error(s) => {
            lemma_error_literal_chars(s);
        },
        _ => {},
    }
}

pub proof fn lemma_flat_first(ls: Seq<Lx>)
    requires
        ls.len() > 0,
        !ls[0].space,
        ls[0].text.len() > 0,
    ensures
        flat(ls).len() > 0,
        flat(ls)[0] == ls[0].text[0],
{
    let rest = ls.subrange(1, ls.len() as int);
    assert(ls =~= seq![ls[0]] + rest);
    lemma_flat_append(seq![ls[0]], rest);
    lemma_flat_plain(ls[0]);
}

pub proof fn lemma_flat_last(ls: Seq<Lx>)
    requires
        ls.len() > 0,
        ls.last().text.len() > 0,
    ensures
        flat(ls).len() > 0,
        flat(ls).last() == ls.last().text.last(),
{
}

/// The kinds of token an expression can start with.
pub open spec fn starts_expr(k: Kind) -> bool {
    ||| k is Number
    ||| k is Text
    ||| k is Ident
    ||| k is SheetName
    ||| k is Error
    ||| k is LParen
    ||| k is LBrace
    ||| k is Minus
    ||| k is Plus
}

pub proof fn lemma_first_lexeme(e: Ex)
    requires
        wf(e),
    ensures
        lexemes(e).len() > 0,
        starts_expr(lexemes(e)[0].kind),
        precedence(e) >= 8 ==> !(lexemes(e)[0].kind is Minus) && !(lexemes(e)[0].kind is Plus),
        !lexemes(e)[0].space,
    decreases e,
{
    match e {
        Ex::Reference(c) => {
            match c.sheet {
                Some(sh) => {},
                None => {},
            }
        },
        Ex::Range(a, b) => {
            lemma_first_lexeme(*a);
        },
        Ex::Intersect(a, b) => {
            lemma_first_lexeme(*a);
            lemma_lexemes_flat(e);
        },
        Ex::Unary(op, a) => {
            lemma_first_lexeme(*a);
        },
        Ex::Binary(op, a, b) => {
            lemma_first_lexeme(*a);
        },
        _ => {
            lemma_lexemes_flat(e);
        },
    }
}

} // verus!
