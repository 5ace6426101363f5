//! The parentheses that canonical text puts around an operand of an
//! operator are needed: written without them, the text reads as another
//! tree.
//!
//! Without the parentheses, the operator takes a different operand: the
//! innermost one next to it that binds at least as tightly. The `graft_*`
//! functions build that tree; its canonical text is the text without the
//! parentheses, so the text parses to it, and it differs from the tree the
//! parentheses belonged to.

use vstd::prelude::*;
use crate::lexer::Kind;
use crate::parser::{Ex, UnaryOp, BinaryOp, spec_parse};
use crate::printer::{precedence, binary_precedence, binary_symbol, spec_render, paren_if};
use crate::lexemes::{
    wf, lexemes, punct, binary_kind, flat, lemma_lexemes_flat, lemma_flat_append, lemma_flat_punct,
    lemma_flat_paren_if, lemma_binary_symbol,
};
use crate::reparse::{lxw, lemma_precedence_range};
use crate::roundtrip::lemma_reparse_wf;

verus! {

// ---------------------------------------------------------------------------
// The trees that text without the parentheses stands for.
// ---------------------------------------------------------------------------

/// The tree of: the lexemes of `x` (in parentheses when its precedence is at
/// most `q`), the binary operator `op`, then the right operand `b` as `op`
/// writes it. `op` takes the rightmost operand inside `x` that binds at
/// least as tightly as `op`.
pub open spec fn graft_right(x: Ex, q: int, op: BinaryOp, b: Ex) -> Ex
    decreases x,
{
    if precedence(x) <= q || precedence(x) >= binary_precedence(op) {
        Ex::Binary(op, Box::new(x), Box::new(b))
    } else {
        match x {
            Ex::Binary(op3, c, d) => Ex::Binary(
                op3,
                c,
                Box::new(graft_right(*d, precedence(x), op, b)),
            ),
            _ => x,
        }
    }
}

/// The tree of: the left operand `a` as the binary operator `op` writes it,
/// `op`, then the lexemes of `y` (in parentheses when its precedence is below
/// `r`). `op` takes the leftmost operand inside `y` that binds more tightly
/// than `op`.
pub open spec fn graft_left(a: Ex, op: BinaryOp, y: Ex, r: int) -> Ex
    decreases y,
{
    if precedence(y) < r || precedence(y) > binary_precedence(op) {
        Ex::Binary(op, Box::new(a), Box::new(y))
    } else {
        match y {
            Ex::Binary(op2, y1, y2) => Ex::Binary(
                op2,
                Box::new(graft_left(a, op, *y1, precedence(y))),
                y2,
            ),
            _ => y,
        }
    }
}

/// The tree of: a prefix sign `op`, then the lexemes of `y` (in parentheses
/// when its precedence is below `r`). The sign takes the leftmost operand
/// inside `y` that is a unary expression or binds more tightly.
pub open spec fn graft_sign(op: UnaryOp, y: Ex, r: int) -> Ex
    decreases y,
{
    if precedence(y) < r || precedence(y) >= 7 {
        Ex::Unary(op, Box::new(y))
    } else {
        match y {
            Ex::Binary(op2, y1, y2) => Ex::Binary(
                op2,
                Box::new(graft_sign(op, *y1, precedence(y))),
                y2,
            ),
            Ex::Unary(op2, y1) => Ex::Unary(op2, Box::new(graft_sign(op, *y1, 6))),
            _ => y,
        }
    }
}

/// The tree of: the lexemes of `x` (in parentheses when its precedence is
/// at most `q`), then `%`. The `%` takes the rightmost operand inside `x`
/// that binds at least as tightly as a percent.
pub open spec fn graft_percent(x: Ex, q: int) -> Ex
    decreases x,
{
    if precedence(x) <= q || precedence(x) >= 6 {
        Ex::Unary(UnaryOp::Percent, Box::new(x))
    } else {
        match x {
            Ex::Binary(op3, c, d) => Ex::Binary(op3, c, Box::new(graft_percent(*d, precedence(x)))),
            _ => x,
        }
    }
}

pub open spec fn op_lexeme(op: BinaryOp) -> Seq<crate::lexemes::Lx> {
    seq![punct(binary_kind(op))]
}

#[verifier::spinoff_prover]
#[verifier::rlimit(40)]
pub proof fn lemma_graft_right(x: Ex, q: int, op: BinaryOp, b: Ex)
    requires
        wf(x),
        wf(b),
        0 <= q < binary_precedence(op),
    ensures
        wf(graft_right(x, q, op, b)),
        q < precedence(graft_right(x, q, op, b)) <= binary_precedence(op),
        lexemes(graft_right(x, q, op, b)) == lxw(x, precedence(x) <= q) + op_lexeme(op) + lxw(
            b,
            precedence(b) <= binary_precedence(op),
        ),
    decreases x,
{
    lemma_precedence_range(x);
    let p = binary_precedence(op);
    if precedence(x) <= q || precedence(x) >= p {
    } else {
        match x {
            Ex::Binary(op3, c, d) => {
                let p3 = precedence(x);
                lemma_graft_right(*d, p3, op, b);
                let g = graft_right(*d, p3, op, b);
                assert(lexemes(Ex::Binary(op3, c, Box::new(g))) == lxw(*c, precedence(*c) < p3)
                    + op_lexeme(op3) + lexemes(g));
                assert(lexemes(x) == lxw(*c, precedence(*c) < p3) + op_lexeme(op3) + lxw(
                    *d,
                    precedence(*d) <= p3,
                ));
                assert(lexemes(Ex::Binary(op3, c, Box::new(g))) =~= lexemes(x) + op_lexeme(op)
                    + lxw(b, precedence(b) <= p));
            },
            _ => {},
        }
    }
}

#[verifier::spinoff_prover]
#[verifier::rlimit(40)]
pub proof fn lemma_graft_left(a: Ex, op: BinaryOp, y: Ex, r: int)
    requires
        wf(a),
        wf(y),
        0 <= r <= binary_precedence(op),
    ensures
        wf(graft_left(a, op, y, r)),
        r <= precedence(graft_left(a, op, y, r)),
        lexemes(graft_left(a, op, y, r)) == lxw(a, precedence(a) < binary_precedence(op))
            + op_lexeme(op) + lxw(y, precedence(y) < r),
    decreases y,
{
    lemma_precedence_range(y);
    let p = binary_precedence(op);
    if precedence(y) < r || precedence(y) > p {
    } else {
        match y {
            Ex::Binary(op2, y1, y2) => {
                let p2 = precedence(y);
                lemma_graft_left(a, op, *y1, p2);
                let g = graft_left(a, op, *y1, p2);
                assert(lexemes(Ex::Binary(op2, Box::new(g), y2)) == lexemes(g) + op_lexeme(op2)
                    + lxw(*y2, precedence(*y2) <= p2));
                assert(lexemes(y) == lxw(*y1, precedence(*y1) < p2) + op_lexeme(op2) + lxw(
                    *y2,
                    precedence(*y2) <= p2,
                ));
                assert(lexemes(Ex::Binary(op2, Box::new(g), y2)) =~= lxw(a, precedence(a) < p)
                    + op_lexeme(op) + lexemes(y));
            },
            _ => {},
        }
    }
}

pub open spec fn sign_kind(op: UnaryOp) -> Kind {
    if op == UnaryOp::Neg {
        Kind::Minus
    } else {
        Kind::Plus
    }
}

#[verifier::spinoff_prover]
#[verifier::rlimit(40)]
pub proof fn lemma_graft_sign(op: UnaryOp, y: Ex, r: int)
    requires
        op != UnaryOp::Percent,
        wf(y),
        0 <= r <= 7,
    ensures
        wf(graft_sign(op, y, r)),
        r <= precedence(graft_sign(op, y, r)),
        lexemes(graft_sign(op, y, r)) == seq![punct(sign_kind(op))] + lxw(y, precedence(y) < r),
    decreases y,
{
    lemma_precedence_range(y);
    if precedence(y) < r || precedence(y) >= 7 {
    } else {
        match y {
            Ex::Binary(op2, y1, y2) => {
                let p2 = precedence(y);
                lemma_graft_sign(op, *y1, p2);
                let g = graft_sign(op, *y1, p2);
                assert(lexemes(Ex::Binary(op2, Box::new(g), y2)) == lexemes(g) + op_lexeme(op2)
                    + lxw(*y2, precedence(*y2) <= p2));
                assert(lexemes(y) == lxw(*y1, precedence(*y1) < p2) + op_lexeme(op2) + lxw(
                    *y2,
                    precedence(*y2) <= p2,
                ));
                assert(lexemes(Ex::Binary(op2, Box::new(g), y2)) =~= seq![punct(sign_kind(op))]
                    + lexemes(y));
            },
            Ex::Unary(op2, y1) => {
                lemma_graft_sign(op, *y1, 6);
                let g = graft_sign(op, *y1, 6);
                assert(op2 == UnaryOp::Percent);
                assert(lexemes(Ex::Unary(op2, Box::new(g))) == lexemes(g) + seq![
                    punct(Kind::Percent),
                ]);
                assert(lexemes(y) == lxw(*y1, precedence(*y1) < 6) + seq![punct(Kind::Percent)]);
                assert(lexemes(Ex::Unary(op2, Box::new(g))) =~= seq![punct(sign_kind(op))]
                    + lexemes(y));
            },
            _ => {},
        }
    }
}

#[verifier::spinoff_prover]
#[verifier::rlimit(40)]
pub proof fn lemma_graft_percent(x: Ex, q: int)
    requires
        wf(x),
        0 <= q < 6,
    ensures
        wf(graft_percent(x, q)),
        q < precedence(graft_percent(x, q)),
        lexemes(graft_percent(x, q)) == lxw(x, precedence(x) <= q) + seq![punct(Kind::Percent)],
    decreases x,
{
    lemma_precedence_range(x);
    if precedence(x) <= q || precedence(x) >= 6 {
    } else {
        match x {
            Ex::Binary(op3, c, d) => {
                let p3 = precedence(x);
                lemma_graft_percent(*d, p3);
                let g = graft_percent(*d, p3);
                assert(lexemes(Ex::Binary(op3, c, Box::new(g))) == lxw(*c, precedence(*c) < p3)
                    + op_lexeme(op3) + lexemes(g));
                assert(lexemes(x) == lxw(*c, precedence(*c) < p3) + op_lexeme(op3) + lxw(
                    *d,
                    precedence(*d) <= p3,
                ));
                assert(lexemes(Ex::Binary(op3, c, Box::new(g))) =~= lexemes(x) + seq![
                    punct(Kind::Percent),
                ]);
            },
            _ => {},
        }
    }
}


// ---------------------------------------------------------------------------
// The laws.
// ---------------------------------------------------------------------------

/// The text of an operator and its operand, when each is written as
/// canonical text.
proof fn lemma_flat_binary_parts(a_ls: Seq<crate::lexemes::Lx>, op: BinaryOp, b_ls: Seq<crate::lexemes::Lx>)
    ensures
        flat(a_ls + op_lexeme(op) + b_ls) == flat(a_ls) + binary_symbol(op) + flat(b_ls),
{
    lemma_flat_append(a_ls + op_lexeme(op), b_ls);
    lemma_flat_append(a_ls, op_lexeme(op));
    lemma_flat_punct(binary_kind(op));
    lemma_binary_symbol(op);
}

/// Only the parentheses needed are written around the left operand of a
/// binary operator: where canonical text wraps it (it binds more loosely
/// than the operator), the same text without those parentheses parses to a
/// different tree.
pub proof fn law_left_operand_parens_needed(op: BinaryOp, a: Ex, b: Ex)
    requires
        wf(Ex::Binary(op, Box::new(a), Box::new(b))),
        precedence(a) < binary_precedence(op),
    ensures
        spec_parse(
            spec_render(a) + binary_symbol(op) + paren_if(
                precedence(b) <= binary_precedence(op),
                spec_render(b),
            ),
        ) != Ok::<Ex, crate::lexer::Failure>(Ex::Binary(op, Box::new(a), Box::new(b))),
{
    let p = binary_precedence(op);
    lemma_precedence_range(a);
    lemma_graft_right(a, 0, op, b);
    let f = graft_right(a, 0, op, b);
    lemma_lexemes_flat(a);
    lemma_lexemes_flat(b);
    lemma_lexemes_flat(f);
    lemma_flat_paren_if(precedence(b) <= p, lexemes(b));
    lemma_flat_binary_parts(lexemes(a), op, lxw(b, precedence(b) <= p));
    lemma_reparse_wf(f);
    match a {
        Ex::Binary(op2, c, d) => {
            assert(f == Ex::Binary(op2, c, Box::new(graft_right(*d, precedence(a), op, b))));
            assert(binary_precedence(op2) != binary_precedence(op));
        },
        _ => {},
    }
}

/// Only the parentheses needed are written around the right operand of a
/// binary operator: where canonical text wraps it (it binds no more tightly
/// than the operator), the same text without those parentheses parses to a
/// different tree.
pub proof fn law_right_operand_parens_needed(op: BinaryOp, a: Ex, b: Ex)
    requires
        wf(Ex::Binary(op, Box::new(a), Box::new(b))),
        precedence(b) <= binary_precedence(op),
    ensures
        spec_parse(
            paren_if(precedence(a) < binary_precedence(op), spec_render(a)) + binary_symbol(op)
                + spec_render(b),
        ) != Ok::<Ex, crate::lexer::Failure>(Ex::Binary(op, Box::new(a), Box::new(b))),
{
    let p = binary_precedence(op);
    lemma_precedence_range(b);
    lemma_graft_left(a, op, b, 0);
    let f = graft_left(a, op, b, 0);
    lemma_lexemes_flat(a);
    lemma_lexemes_flat(b);
    lemma_lexemes_flat(f);
    lemma_flat_paren_if(precedence(a) < p, lexemes(a));
    lemma_flat_binary_parts(lxw(a, precedence(a) < p), op, lexemes(b));
    lemma_reparse_wf(f);
    match b {
        Ex::Binary(op2, b1, b2) => {
            assert(f == Ex::Binary(op2, Box::new(graft_left(a, op, *b1, precedence(b))), b2));
            let p2 = precedence(b);
            assert(lexemes(b) == lxw(*b1, precedence(*b1) < p2) + op_lexeme(op2) + lxw(
                *b2,
                precedence(*b2) <= p2,
            ));
            assert(wf(b));
            assert(wf(*b1));
            crate::reparse::lemma_lxw_shape(*b1, precedence(*b1) < p2);
            assert(lexemes(b).len() > lexemes(*b2).len());
            assert(*b2 != b);
        },
        _ => {},
    }
}

/// Only the parentheses needed are written after a prefix sign: where
/// canonical text wraps the operand (a binary operation or a percent), the
/// same text without those parentheses parses to a different tree.
pub proof fn law_sign_operand_parens_needed(op: UnaryOp, a: Ex)
    requires
        op != UnaryOp::Percent,
        wf(Ex::Unary(op, Box::new(a))),
        precedence(a) < 7,
    ensures
        spec_parse(
            (if op == UnaryOp::Neg {
                seq!['-']
            } else {
                seq!['+']
            }) + spec_render(a),
        ) != Ok::<Ex, crate::lexer::Failure>(Ex::Unary(op, Box::new(a))),
{
    lemma_precedence_range(a);
    lemma_graft_sign(op, a, 0);
    let f = graft_sign(op, a, 0);
    lemma_lexemes_flat(a);
    lemma_lexemes_flat(f);
    lemma_flat_append(seq![punct(sign_kind(op))], lexemes(a));
    lemma_flat_punct(sign_kind(op));
    reveal_strlit("-");
    reveal_strlit("+");
    assert("-"@ =~= seq!['-']);
    assert("+"@ =~= seq!['+']);
    lemma_reparse_wf(f);
    match a {
        Ex::Binary(op2, a1, a2) => {
            assert(f is Binary);
        },
        Ex::Unary(op2, a1) => {
            assert(op2 == UnaryOp::Percent);
            assert(f == Ex::Unary(op2, Box::new(graft_sign(op, *a1, 6))));
        },
        _ => {},
    }
}

/// Only the parentheses needed are written before a `%`: where canonical
/// text wraps the operand (a binary operation), the same text without those
/// parentheses parses to a different tree.
pub proof fn law_percent_operand_parens_needed(a: Ex)
    requires
        wf(Ex::Unary(UnaryOp::Percent, Box::new(a))),
        precedence(a) < 6,
    ensures
        spec_parse(spec_render(a) + seq!['%']) != Ok::<Ex, crate::lexer::Failure>(
            Ex::Unary(UnaryOp::Percent, Box::new(a)),
        ),
{
    lemma_precedence_range(a);
    lemma_graft_percent(a, 0);
    let f = graft_percent(a, 0);
    lemma_lexemes_flat(a);
    lemma_lexemes_flat(f);
    lemma_flat_append(lexemes(a), seq![punct(Kind::Percent)]);
    lemma_flat_punct(Kind::Percent);
    reveal_strlit("%");
    assert("%"@ =~= seq!['%']);
    lemma_reparse_wf(f);
    assert(f is Binary);
}

} // verus!
