//! The parentheses that canonical text puts around an operand of the range
//! and intersection operators are needed: written without them, the text
//! does not read as the same tree.
//!
//! The argument follows the parser down from the top: a tree that is a range
//! (or an intersection) can only come out of the range (or intersect) level
//! at the start of the text, and there the operand that lost its
//! parentheses is read as the first operand group of its own text, which is
//! a smaller tree.

use vstd::prelude::*;
use crate::lexer::{Kind, Tok, Failure, lex};
use crate::parser::{
    Ex, UnaryOp, PResult, spec_parse, p_expr, p_bin, bin_tail, p_percent, percent_tail, p_unary,
    p_intersect, isect_tail, p_range, p_primary, binary_op_at, advanced, starts_reference,
};
use crate::printer::{
    precedence, binary_precedence, spec_render, paren_if, ends_in_name, starts_reference_text,
};
use crate::lexemes::{
    Lx, wf, lexemes, punct, binary_kind, flat, lemma_lexemes_flat, lemma_flat_append,
    lemma_flat_punct, lemma_flat_paren_if, lemma_describe_punct, spaced, lemma_flat_spaced,
    lemma_lexemes_ok, lx_ok, lemma_lx_ok_chars, lemma_flat_first,
};
use crate::reparse::{
    reads, follows, p_at, lxw, isect_wrap_left, lemma_reads_split, lemma_reads_one,
    lemma_lxw_shape, lemma_precedence_range, lemma_binary_kind, lemma_prim, lemma_isect_shape,
    lemma_isect_ends, isect_wrap_right, lemma_reads_spaced, lemma_isect, lemma_name_end,
    isect_right_text,
};
use crate::relex::{
    good, lemma_good_lexemes, lemma_good_paren_if, lemma_good_infix, lemma_good_spaced,
    lemma_lex_seq,
};

verus! {

// ---------------------------------------------------------------------------
// Reading text made of lexemes.
// ---------------------------------------------------------------------------

/// Text made of the lexemes `ls` lexes into their tokens, then the end.
proof fn lemma_read_text(ls: Seq<Lx>) -> (t: Seq<Tok>)
    requires
        good(ls),
    ensures
        lex(flat(ls)) == Ok::<Seq<Tok>, Failure>(t),
        reads(t, 0, ls),
        t.len() == ls.len() + 1,
        t[ls.len() as int].kind is Eof,
{
    assert(ls.take(0) =~= Seq::<Lx>::empty());
    assert(flat(Seq::<Lx>::empty()).len() == 0);
    lemma_lex_seq(flat(ls), ls, 0);
    let t = lex(flat(ls))->Ok_0;
    assert(reads(t, 0, ls)) by {
        assert forall|j: int| 0 <= j < 0 + ls.len() implies (#[trigger] t[j]).kind == ls[j
            - 0].kind by {}
        assert forall|j: int| 0 < j < 0 + ls.len() implies (#[trigger] t[j]).after_space == ls[j
            - 0].space by {}
    }
    t
}

// ---------------------------------------------------------------------------
// What each level's loop can return.
// ---------------------------------------------------------------------------

/// How deep intersections nest down their left operands.
pub open spec fn left_depth(e: Ex) -> nat
    decreases e,
{
    match e {
        Ex::Intersect(a, _) => 1 + left_depth(*a),
        _ => 0,
    }
}

proof fn lemma_bin_tail_shape(t: Seq<Tok>, k: int, left: Ex, j: int)
    requires
        bin_tail(t, k, left, j) is Ok,
    ensures
        bin_tail(t, k, left, j)->Ok_0.0 == left || precedence(bin_tail(t, k, left, j)->Ok_0.0)
            == k,
    decreases t.len() - j,
{
    if 1 <= k <= 5 && 0 <= j < t.len() {
        match binary_op_at(k, t[j].kind) {
            None => {},
            Some(op) => {
                let right = if k < 5 {
                    p_bin(t, j + 1, k + 1)
                } else {
                    p_percent(t, j + 1)
                };
                match right {
                    Err(_) => {},
                    Ok((r, j2)) => {
                        if advanced(t, j + 1, j2) {
                            assert(binary_precedence(op) == k);
                            lemma_bin_tail_shape(
                                t,
                                k,
                                Ex::Binary(op, Box::new(left), Box::new(r)),
                                j2,
                            );
                        }
                    },
                }
            },
        }
    }
}

proof fn lemma_percent_tail_shape(t: Seq<Tok>, e: Ex, j: int)
    requires
        percent_tail(t, e, j) is Ok,
    ensures
        percent_tail(t, e, j)->Ok_0.0 == e || precedence(percent_tail(t, e, j)->Ok_0.0) == 6,
    decreases t.len() - j,
{
    if 0 <= j < t.len() - 1 && t[j].kind is Percent {
        lemma_percent_tail_shape(t, Ex::Unary(UnaryOp::Percent, Box::new(e)), j + 1);
    }
}

proof fn lemma_isect_tail_shape(t: Seq<Tok>, left: Ex, j: int)
    requires
        isect_tail(t, left, j) is Ok,
    ensures
        isect_tail(t, left, j)->Ok_0.0 == left || (isect_tail(t, left, j)->Ok_0.0 matches Ex::Intersect(
            y,
            _,
        ) && (*y == left || left_depth(*y) > left_depth(left))),
    decreases t.len() - j,
{
    if 0 <= j < t.len() && t[j].after_space && starts_reference(t[j].kind)
        && crate::parser::ref_like(left) {
        match p_range(t, j) {
            Err(_) => {},
            Ok((r, j2)) => {
                if advanced(t, j, j2) {
                    let l2 = Ex::Intersect(Box::new(left), Box::new(r));
                    assert(left_depth(l2) == 1 + left_depth(left));
                    lemma_isect_tail_shape(t, l2, j2);
                }
            },
        }
    }
}

/// A tree that binds at least as tightly as level `m` and comes out of a
/// looser level `l` at position `i` comes out of level `m` there too.
proof fn lemma_descend(t: Seq<Tok>, i: int, l: int, m: int, r: Ex)
    requires
        1 <= l <= m <= 9,
        p_at(t, i, l) is Ok,
        p_at(t, i, l)->Ok_0.0 == r,
        precedence(r) >= m,
    ensures
        p_at(t, i, m) is Ok,
        p_at(t, i, m)->Ok_0.0 == r,
    decreases m - l,
{
    if l < m {
        if l <= 5 {
            let first = if l < 5 {
                p_bin(t, i, l + 1)
            } else {
                p_percent(t, i)
            };
            assert(first == p_at(t, i, l + 1));
            match first {
                Ok((left, j)) => {
                    if advanced(t, i, j) {
                        lemma_bin_tail_shape(t, l, left, j);
                    }
                },
                Err(_) => {},
            }
        } else if l == 6 {
            match p_unary(t, i) {
                Ok((e, j)) => {
                    if advanced(t, i, j) {
                        lemma_percent_tail_shape(t, e, j);
                    }
                },
                Err(_) => {},
            }
        } else if l == 8 {
            match p_range(t, i) {
                Ok((e, j)) => {
                    if advanced(t, i, j) {
                        lemma_isect_tail_shape(t, e, j);
                    }
                },
                Err(_) => {},
            }
        }
        lemma_descend(t, i, l + 1, m, r);
    }
}

// ---------------------------------------------------------------------------
// The first operand group of a tree's text.
// ---------------------------------------------------------------------------

pub open spec fn is_sign(e: Ex) -> bool {
    e matches Ex::Unary(op, _) && op != UnaryOp::Percent
}

/// The operand the text of `b` starts with, at the primary level, and
/// whether it is written in parentheses: the tree itself for a primary or a
/// sign.
pub open spec fn lead(b: Ex) -> (Ex, bool)
    decreases b,
{
    match b {
        Ex::Binary(op, c, _) => if precedence(*c) < binary_precedence(op) {
            (*c, true)
        } else {
            lead(*c)
        },
        Ex::Unary(UnaryOp::Percent, c) => if precedence(*c) < 6 {
            (*c, true)
        } else {
            lead(*c)
        },
        Ex::Range(c, _) => if precedence(*c) < 10 {
            (*c, true)
        } else {
            lead(*c)
        },
        Ex::Intersect(c, d) => if isect_wrap_left(*c, *d) {
            (*c, true)
        } else {
            lead(*c)
        },
        _ => (b, false),
    }
}

/// Read at the primary level, the tokens of a tree give its first operand
/// group, or fail where the text starts with a sign.
#[verifier::spinoff_prover]
#[verifier::rlimit(40)]
proof fn lemma_lead(t: Seq<Tok>, k: int, b: Ex)
    requires
        wf(b),
        reads(t, k, lexemes(b)),
        follows(lexemes(b), t[k + lexemes(b).len()]),
    ensures
        lead(b).0 == b ==> !lead(b).1 && (precedence(b) == 10 || is_sign(b)),
        lead(b).0 != b ==> lexemes(lead(b).0).len() < lexemes(b).len(),
        !lead(b).1 && is_sign(lead(b).0) ==> p_primary(t, k) is Err,
        !(!lead(b).1 && is_sign(lead(b).0)) ==> p_primary(t, k) == PResult::Ok(
            (lead(b).0, k + lxw(lead(b).0, lead(b).1).len()),
        ),
    decreases b,
{
    lemma_precedence_range(b);
    lemma_lxw_shape(b, false);
    match b {
        Ex::Binary(op, c, d) => {
            let p = binary_precedence(op);
            let wc = precedence(*c) < p;
            let wd = precedence(*d) <= p;
            let lc = lxw(*c, wc);
            let ld = lxw(*d, wd);
            let o = seq![punct(binary_kind(op))];
            assert(lexemes(b) == lc + o + ld);
            lemma_reads_split(t, k, lc + o, ld);
            lemma_reads_split(t, k, lc, o);
            lemma_reads_one(t, k, lc + o, lc.len() as int);
            lemma_binary_kind(op);
            lemma_lxw_shape(*c, wc);
            lemma_lxw_shape(*d, wd);
            if wc {
                lemma_prim(t, k, *c, true);
            } else {
                lemma_lead(t, k, *c);
            }
        },
        Ex::Unary(op, c) => {
            if op == UnaryOp::Percent {
                let wc = precedence(*c) < 6;
                let lc = lxw(*c, wc);
                let pc = seq![punct(Kind::Percent)];
                assert(lexemes(b) == lc + pc);
                lemma_reads_split(t, k, lc, pc);
                lemma_reads_one(t, k, lexemes(b), lc.len() as int);
                lemma_lxw_shape(*c, wc);
                if wc {
                    lemma_prim(t, k, *c, true);
                } else {
                    lemma_lead(t, k, *c);
                }
            } else {
                lemma_reads_one(t, k, lexemes(b), 0);
            }
        },
        Ex::Range(c, d) => {
            let wc = precedence(*c) < 10;
            let wd = precedence(*d) < 10;
            let lc = lxw(*c, wc);
            let ld = lxw(*d, wd);
            let o = seq![punct(Kind::Colon)];
            assert(lexemes(b) == lc + o + ld);
            lemma_reads_split(t, k, lc + o, ld);
            lemma_reads_split(t, k, lc, o);
            lemma_reads_one(t, k, lc + o, lc.len() as int);
            lemma_lxw_shape(*c, wc);
            lemma_lxw_shape(*d, wd);
            if wc {
                lemma_prim(t, k, *c, true);
            } else {
                lemma_lead(t, k, *c);
            }
        },
        Ex::Intersect(c, d) => {
            lemma_isect_shape(*c, *d);
            let wl = isect_wrap_left(*c, *d);
            let wr = isect_wrap_right(*d);
            let lc = lxw(*c, wl);
            let ld = lxw(*d, wr);
            lemma_lxw_shape(*c, wl);
            lemma_lxw_shape(*d, wr);
            lemma_reads_split(t, k, lc, spaced(ld));
            lemma_reads_one(t, k, lexemes(b), lc.len() as int);
            assert(lexemes(b)[lc.len() as int] == spaced(ld)[0]);
            lemma_isect_ends(*c, *d, t[k + lc.len()], t[k + lexemes(b).len()]);
            if wl {
                lemma_prim(t, k, *c, true);
            } else {
                lemma_lead(t, k, *c);
            }
        },
        _ => {
            lemma_prim(t, k, b, false);
        },
    }
}

// ---------------------------------------------------------------------------
// The laws.
// ---------------------------------------------------------------------------

proof fn lemma_flat_infix(a: Seq<Lx>, k: Kind, b: Seq<Lx>)
    ensures
        flat(a + seq![punct(k)] + b) == flat(a) + crate::parser::describe(k) + flat(b),
{
    lemma_flat_append(a + seq![punct(k)], b);
    lemma_flat_append(a, seq![punct(k)]);
    lemma_flat_punct(k);
}

/// The tokens of a range's text, with its operands written as `wa` and `wb`
/// say, and the text they come from.
#[verifier::spinoff_prover]
#[verifier::rlimit(40)]
proof fn lemma_range_text(a: Ex, b: Ex, wa: bool, wb: bool) -> (t: Seq<Tok>)
    requires
        wf(Ex::Range(Box::new(a), Box::new(b))),
    ensures
        lex(paren_if(wa, spec_render(a)) + seq![':'] + paren_if(wb, spec_render(b))) == Ok::<
            Seq<Tok>,
            Failure,
        >(t),
        reads(t, 0, lxw(a, wa) + seq![punct(Kind::Colon)] + lxw(b, wb)),
        t.len() == lxw(a, wa).len() + lxw(b, wb).len() + 2,
        t[t.len() - 1].kind is Eof,
{
    let la = lxw(a, wa);
    let lb = lxw(b, wb);
    let ls = la + seq![punct(Kind::Colon)] + lb;
    lemma_good_lexemes(a);
    lemma_good_lexemes(b);
    lemma_good_paren_if(wa, lexemes(a));
    lemma_good_paren_if(wb, lexemes(b));
    lemma_good_infix(la, Kind::Colon, lb);
    lemma_flat_infix(la, Kind::Colon, lb);
    lemma_lexemes_flat(a);
    lemma_lexemes_flat(b);
    lemma_flat_paren_if(wa, lexemes(a));
    lemma_flat_paren_if(wb, lexemes(b));
    lemma_describe_punct(Kind::Colon);
    lemma_read_text(ls)
}

/// Only the parentheses needed are written around the right operand of a
/// range: where canonical text wraps it (it is not a primary), the same text
/// without those parentheses does not parse to the range.
pub proof fn law_range_right_parens_needed(a: Ex, b: Ex)
    requires
        wf(Ex::Range(Box::new(a), Box::new(b))),
        precedence(b) < 10,
    ensures
        spec_parse(paren_if(precedence(a) < 10, spec_render(a)) + seq![':'] + spec_render(b))
            != Ok::<Ex, Failure>(Ex::Range(Box::new(a), Box::new(b))),
{
    let e = Ex::Range(Box::new(a), Box::new(b));
    let wa = precedence(a) < 10;
    let la = lxw(a, wa);
    let lb = lxw(b, false);
    let c = seq![punct(Kind::Colon)];
    let t = lemma_range_text(a, b, wa, false);
    let s = paren_if(wa, spec_render(a)) + seq![':'] + paren_if(false, spec_render(b));
    assert(paren_if(false, spec_render(b)) == spec_render(b));
    if spec_parse(s) == Ok::<Ex, Failure>(e) {
        assert(p_at(t, 0, 1) == p_expr(t, 0));
        lemma_descend(t, 0, 1, 9, e);
        lemma_lxw_shape(a, wa);
        lemma_lxw_shape(b, false);
        lemma_reads_split(t, 0, la + c, lb);
        lemma_reads_split(t, 0, la, c);
        lemma_reads_one(t, 0, la + c, la.len() as int);
        lemma_prim(t, 0, a, wa);
        let k: int = la.len() as int + 1;
        assert(k + lb.len() == t.len() - 1);
        lemma_lead(t, k, b);
        assert(false);
    }
}

/// Only the parentheses needed are written around the left operand of a
/// range: where canonical text wraps it (it is not a primary), the same text
/// without those parentheses does not parse to the range.
pub proof fn law_range_left_parens_needed(a: Ex, b: Ex)
    requires
        wf(Ex::Range(Box::new(a), Box::new(b))),
        precedence(a) < 10,
    ensures
        spec_parse(spec_render(a) + seq![':'] + paren_if(precedence(b) < 10, spec_render(b)))
            != Ok::<Ex, Failure>(Ex::Range(Box::new(a), Box::new(b))),
{
    let e = Ex::Range(Box::new(a), Box::new(b));
    let wb = precedence(b) < 10;
    let la = lxw(a, false);
    let lb = lxw(b, wb);
    let c = seq![punct(Kind::Colon)];
    let t = lemma_range_text(a, b, false, wb);
    let s = paren_if(false, spec_render(a)) + seq![':'] + paren_if(wb, spec_render(b));
    assert(paren_if(false, spec_render(a)) == spec_render(a));
    if spec_parse(s) == Ok::<Ex, Failure>(e) {
        assert(p_at(t, 0, 1) == p_expr(t, 0));
        lemma_descend(t, 0, 1, 9, e);
        lemma_lxw_shape(a, false);
        lemma_lxw_shape(b, wb);
        lemma_reads_split(t, 0, la + c, lb);
        lemma_reads_split(t, 0, la, c);
        lemma_reads_one(t, 0, la + c, la.len() as int);
        lemma_lead(t, 0, a);
        assert(lexemes(e) == lxw(a, true) + c + lb);
        assert(lexemes(e).len() > la.len());
        assert(false);
    }
}

/// The tokens of an intersection's text with its right operand written
/// bare, and the text they come from.
#[verifier::spinoff_prover]
#[verifier::rlimit(40)]
proof fn lemma_isect_text(a: Ex, b: Ex, wl: bool) -> (t: Seq<Tok>)
    requires
        wf(Ex::Intersect(Box::new(a), Box::new(b))),
    ensures
        lex(paren_if(wl, spec_render(a)) + seq![' '] + spec_render(b)) == Ok::<Seq<Tok>, Failure>(
            t,
        ),
        reads(t, 0, lxw(a, wl) + spaced(lexemes(b))),
        t.len() == lxw(a, wl).len() + lexemes(b).len() + 1,
        t[t.len() - 1].kind is Eof,
{
    let la = lxw(a, wl);
    let lb = lexemes(b);
    let sp = spaced(lb);
    let ls = la + sp;
    lemma_good_lexemes(a);
    lemma_good_lexemes(b);
    lemma_good_paren_if(wl, lexemes(a));
    lemma_good_spaced(la, lb);
    lemma_lxw_shape(a, wl);
    lemma_lxw_shape(b, false);
    lemma_flat_append(la, sp);
    lemma_flat_spaced(lb);
    lemma_lexemes_flat(a);
    lemma_lexemes_flat(b);
    lemma_flat_paren_if(wl, lexemes(a));
    assert(flat(ls) == paren_if(wl, spec_render(a)) + seq![' '] + spec_render(b));
    lemma_read_text(ls)
}

/// A tree whose first token may start a reference has text that starts
/// like one.
proof fn lemma_starts_reference(b: Ex)
    requires
        wf(b),
    ensures
        starts_reference(lexemes(b)[0].kind) ==> starts_reference_text(spec_render(b)),
{
    let lb = lexemes(b);
    lemma_lxw_shape(b, false);
    lemma_lexemes_flat(b);
    lemma_lexemes_ok(b);
    assert(lx_ok(lb[0]));
    lemma_lx_ok_chars(lb[0]);
    lemma_flat_first(lb);
}

/// Only the parentheses needed are written around the right operand of an
/// intersection: where canonical text wraps it (it binds no more tightly
/// than an intersection, or its text does not start like a reference), the
/// same text without those parentheses, the left operand written as
/// canonical text writes it, does not parse to the intersection.
#[verifier::spinoff_prover]
#[verifier::rlimit(40)]
pub proof fn law_intersect_right_parens_needed(a: Ex, b: Ex)
    requires
        wf(Ex::Intersect(Box::new(a), Box::new(b))),
        isect_wrap_right(b),
    ensures
        spec_parse(paren_if(ends_in_name(a), spec_render(a)) + seq![' '] + spec_render(b))
            != Ok::<Ex, Failure>(Ex::Intersect(Box::new(a), Box::new(b))),
{
    let e = Ex::Intersect(Box::new(a), Box::new(b));
    let wl = ends_in_name(a);
    let la = lxw(a, wl);
    let lb = lexemes(b);
    let sp = spaced(lb);
    let ls = la + sp;
    let s = paren_if(wl, spec_render(a)) + seq![' '] + spec_render(b);
    let t = lemma_isect_text(a, b, wl);
    lemma_starts_reference(b);
    lemma_lxw_shape(a, wl);
    lemma_lxw_shape(b, false);
    if spec_parse(s) == Ok::<Ex, Failure>(e) {
        assert(p_at(t, 0, 1) == p_expr(t, 0));
        lemma_precedence_range(a);
        assert(precedence(a) >= 8);
        lemma_descend(t, 0, 1, 8, e);
        let m = la.len() as int;
        assert(t[m].kind == lb[0].kind && t[m].after_space) by {
            lemma_reads_one(t, 0, ls, m);
            assert(ls[m] == sp[0]);
        }
        assert(reads(t, 0, la) && reads(t, m, lb)) by {
            lemma_reads_split(t, 0, la, sp);
            assert(sp + Seq::<Lx>::empty() =~= sp);
            assert(lb + Seq::<Lx>::empty() =~= lb);
            lemma_reads_spaced(t, m, lb, Seq::empty());
        }
        if !wl {
            lemma_name_end(a);
        }
        lemma_isect(t, 0, a, wl);
        assert(left_depth(e) == 1 + left_depth(a));
        if starts_reference(t[m].kind) {
            assert(m + lb.len() == t.len() - 1);
            lemma_lead(t, m, b);
            match p_range(t, m) {
                Ok((r, j2)) => {
                    if advanced(t, m, j2) {
                        let l2 = Ex::Intersect(Box::new(a), Box::new(r));
                        assert(left_depth(l2) == 1 + left_depth(a));
                        lemma_isect_tail_shape(t, l2, j2);
                    }
                },
                Err(_) => {},
            }
        }
        assert(false);
    }
}

/// A word that ends a tree's text, read with `(` after it, is read as the
/// name of a call.
#[verifier::spinoff_prover]
#[verifier::rlimit(40)]
proof fn lemma_word_call(t: Seq<Tok>, k: int, x: Ex)
    requires
        wf(x),
        precedence(x) == 10,
        ends_in_name(x),
        reads(t, k, lexemes(x)),
        t[k + lexemes(x).len()].kind is LParen,
        k + lexemes(x).len() < t.len() - 1,
    ensures
        p_primary(t, k) is Err || p_primary(t, k)->Ok_0.0 is Call,
{
    match x {
        Ex::Reference(c) => {
            assert(c.sheet is None);
        },
        _ => {},
    }
    assert(lexemes(x).len() == 1);
    lemma_reads_one(t, k, lexemes(x), 0);
}

/// Read at the range level, a tree that ends in a word, with `(` after it,
/// gives something else than that tree (and no intersection).
#[verifier::spinoff_prover]
#[verifier::rlimit(40)]
proof fn lemma_range_call(t: Seq<Tok>, k: int, d: Ex)
    requires
        wf(d),
        precedence(d) >= 9,
        ends_in_name(d),
        reads(t, k, lexemes(d)),
        t[k + lexemes(d).len()].kind is LParen,
        k + lexemes(d).len() < t.len() - 1,
    ensures
        p_range(t, k) is Err || (p_range(t, k)->Ok_0.0 != d && !(p_range(t, k)->Ok_0.0 is Intersect)),
{
    lemma_precedence_range(d);
    if precedence(d) == 10 {
        lemma_word_call(t, k, d);
        match p_primary(t, k) {
            Ok((left, j)) => {
                assert(left is Call);
                if advanced(t, k, j) && t[j].kind is Colon {
                    match p_primary(t, j + 1) {
                        Ok((right, j2)) => {
                            assert(p_range(t, k) == PResult::Ok(
                                (Ex::Range(Box::new(left), Box::new(right)), j2),
                            ));
                        },
                        Err(_) => {},
                    }
                }
            },
            Err(_) => {},
        }
    } else {
        match d {
            Ex::Range(d1, d2) => {
                let w1 = precedence(*d1) < 10;
                let l1 = lxw(*d1, w1);
                let l2 = lexemes(*d2);
                let c = seq![punct(Kind::Colon)];
                assert(lexemes(d) == l1 + c + lxw(*d2, false));
                lemma_reads_split(t, k, l1 + c, l2);
                lemma_reads_split(t, k, l1, c);
                lemma_reads_one(t, k, l1 + c, l1.len() as int);
                lemma_lxw_shape(*d1, w1);
                lemma_lxw_shape(*d2, false);
                lemma_prim(t, k, *d1, w1);
                lemma_word_call(t, k + l1.len() + 1, *d2);
                let k2 = k + l1.len() + 1;
                match p_primary(t, k2) {
                    Ok((right, j2)) => {
                        assert(right is Call);
                        assert(p_range(t, k) == PResult::Ok(
                            (Ex::Range(d1, Box::new(right)), j2),
                        ));
                        match *d2 {
                            Ex::Call(..) => {
                                assert(!ends_in_name(*d2));
                            },
                            _ => {},
                        }
                    },
                    Err(_) => {},
                }
            },
            _ => {},
        }
    }
}

/// The tokens of an intersection's text with its left operand written
/// bare, and the text they come from.
#[verifier::spinoff_prover]
#[verifier::rlimit(40)]
proof fn lemma_isect_left_text(a: Ex, b: Ex) -> (t: Seq<Tok>)
    requires
        wf(Ex::Intersect(Box::new(a), Box::new(b))),
    ensures
        lex(spec_render(a) + seq![' '] + isect_right_text(b)) == Ok::<Seq<Tok>, Failure>(t),
        reads(t, 0, lexemes(a) + spaced(lxw(b, isect_wrap_right(b)))),
        t.len() == lexemes(a).len() + lxw(b, isect_wrap_right(b)).len() + 1,
        t[t.len() - 1].kind is Eof,
{
    let wr = isect_wrap_right(b);
    let la = lexemes(a);
    let lb = lxw(b, wr);
    let sp = spaced(lb);
    let ls = la + sp;
    lemma_good_lexemes(a);
    lemma_good_lexemes(b);
    lemma_good_paren_if(wr, lexemes(b));
    lemma_good_spaced(la, lb);
    lemma_lxw_shape(b, wr);
    lemma_flat_append(la, sp);
    lemma_flat_spaced(lb);
    lemma_lexemes_flat(a);
    lemma_lexemes_flat(b);
    lemma_flat_paren_if(wr, lexemes(b));
    assert(isect_right_text(b) == paren_if(wr, spec_render(b)));
    assert(flat(ls) == spec_render(a) + seq![' '] + isect_right_text(b));
    lemma_read_text(ls)
}

/// Read at the intersect level, the text of an intersection whose left
/// operand (a range or a primary) ends in a word, written bare before a
/// `(`, gives something else than the intersection.
#[verifier::spinoff_prover]
#[verifier::rlimit(40)]
proof fn lemma_isect_word_left_range(t: Seq<Tok>, a: Ex, e: Ex)
    requires
        wf(a),
        precedence(a) >= 9,
        ends_in_name(a),
        reads(t, 0, lexemes(a)),
        t[lexemes(a).len() as int].kind is LParen,
        lexemes(a).len() < t.len() - 1,
        e matches Ex::Intersect(y, _) && *y == a,
        p_intersect(t, 0) is Ok,
    ensures
        p_intersect(t, 0)->Ok_0.0 != e,
{
    assert(left_depth(e) == 1 + left_depth(a));
    lemma_lxw_shape(a, false);
    lemma_range_call(t, 0, a);
    match p_range(t, 0) {
        Ok((r0, j0)) => {
            if advanced(t, 0, j0) {
                lemma_isect_tail_shape(t, r0, j0);
            }
        },
        Err(_) => {},
    }
}

/// The same, where the left operand is itself an intersection: its right
/// operand is the one that ends in the word.
#[verifier::spinoff_prover]
#[verifier::rlimit(40)]
proof fn lemma_isect_word_left_isect(t: Seq<Tok>, c: Ex, d: Ex, e: Ex)
    requires
        wf(Ex::Intersect(Box::new(c), Box::new(d))),
        ends_in_name(Ex::Intersect(Box::new(c), Box::new(d))),
        reads(t, 0, lexemes(Ex::Intersect(Box::new(c), Box::new(d)))),
        t[lexemes(Ex::Intersect(Box::new(c), Box::new(d))).len() as int].kind is LParen,
        lexemes(Ex::Intersect(Box::new(c), Box::new(d))).len() < t.len() - 1,
        e matches Ex::Intersect(y, _) && *y == Ex::Intersect(Box::new(c), Box::new(d)),
        p_intersect(t, 0) is Ok,
    ensures
        p_intersect(t, 0)->Ok_0.0 != e,
{
    let a = Ex::Intersect(Box::new(c), Box::new(d));
    assert(left_depth(e) == 1 + left_depth(a));
    assert(left_depth(a) == 1 + left_depth(c));
    lemma_isect_shape(c, d);
    let wl2 = isect_wrap_left(c, d);
    let lc = lxw(c, wl2);
    let ld = lexemes(d);
    lemma_lxw_shape(c, wl2);
    lemma_lxw_shape(d, false);
    assert(!isect_wrap_right(d));
    let la = lexemes(a);
    assert(la == lc + spaced(ld));
    let m1 = lc.len() as int;
    lemma_reads_split(t, 0, lc, spaced(ld));
    assert(t[m1].kind == ld[0].kind && t[m1].after_space) by {
        lemma_reads_one(t, 0, la, m1);
        assert(la[m1] == spaced(ld)[0]);
    }
    assert(spaced(ld) + Seq::<Lx>::empty() =~= spaced(ld));
    assert(ld + Seq::<Lx>::empty() =~= ld);
    lemma_reads_spaced(t, m1, ld, Seq::empty());
    let fake = Tok { kind: Kind::Eof, pos: 0, after_space: false };
    lemma_isect_ends(c, d, t[m1], fake);
    lemma_isect(t, 0, c, wl2);
    lemma_precedence_range(d);
    assert(m1 + ld.len() == la.len());
    lemma_range_call(t, m1, d);
    match p_range(t, m1) {
        Ok((r, j2)) => {
            if advanced(t, m1, j2) {
                let l2 = Ex::Intersect(Box::new(c), Box::new(r));
                assert(left_depth(l2) == 1 + left_depth(c));
                lemma_isect_tail_shape(t, l2, j2);
            }
        },
        Err(_) => {},
    }
}

/// Only the parentheses needed are written around the left operand of an
/// intersection: where canonical text wraps it (it ends in a word and the
/// right operand is written starting with `(`, which would make that word a
/// function's name), the same text without those parentheses does not
/// parse to the intersection.
#[verifier::spinoff_prover]
#[verifier::rlimit(40)]
pub proof fn law_intersect_left_parens_needed(a: Ex, b: Ex)
    requires
        wf(Ex::Intersect(Box::new(a), Box::new(b))),
        isect_wrap_left(a, b),
    ensures
        spec_parse(spec_render(a) + seq![' '] + isect_right_text(b)) != Ok::<Ex, Failure>(
            Ex::Intersect(Box::new(a), Box::new(b)),
        ),
{
    let e = Ex::Intersect(Box::new(a), Box::new(b));
    let wr = isect_wrap_right(b);
    let la = lexemes(a);
    let lb = lxw(b, wr);
    let sp = spaced(lb);
    let ls = la + sp;
    let s = spec_render(a) + seq![' '] + isect_right_text(b);
    let t = lemma_isect_left_text(a, b);
    lemma_isect_shape(a, b);
    lemma_lxw_shape(a, false);
    lemma_lxw_shape(b, wr);
    lemma_precedence_range(a);
    assert(precedence(a) >= 8);
    let m = la.len() as int;
    assert(t[m].kind is LParen) by {
        lemma_reads_one(t, 0, ls, m);
        assert(ls[m] == sp[0]);
    }
    lemma_reads_split(t, 0, la, sp);
    if spec_parse(s) == Ok::<Ex, Failure>(e) {
        assert(p_at(t, 0, 1) == p_expr(t, 0));
        lemma_descend(t, 0, 1, 8, e);
        if precedence(a) >= 9 {
            lemma_isect_word_left_range(t, a, e);
        } else {
            match a {
                Ex::Intersect(c, d) => {
                    lemma_isect_word_left_isect(t, *c, *d, e);
                },
                _ => {},
            }
        }
    }
}

} // verus!
