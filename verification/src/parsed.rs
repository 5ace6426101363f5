//! The trees the parser builds are well formed.
//!
//! Every tree that `spec_parse` returns meets `wf`: its literals come from
//! tokens the lexer built (numbers in normal form, identifiers, error
//! literals), and each rule of the grammar keeps the shape `wf` asks for.

use vstd::prelude::*;
use crate::chars::{upper, upper_char, is_ascii_letter, is_ascii_upper, is_ascii_digit};
use crate::number::{decimal_wf, scan_digits, lemma_scan_digits};
use crate::lexer::{
    Kind, Tok, is_ident_char, lex_token, lex_from, lex, skip_ws, ident_end, find_error_literal,
    error_literal, literal_at, lemma_skip_ws, lemma_ident_end, lemma_lex_token_advances,
};
use crate::parser::{
    Ex, UnaryOp, PResult, p_expr, p_bin, bin_tail, p_percent, percent_tail, p_unary, p_intersect,
    isect_tail, p_range, p_primary, union_items, p_ident, call_args, p_after_bang, p_array_item,
    array_row, array_rows, p_array, expect, binary_op_at, ref_like, advanced, spec_cell_ref,
    scan_letters, digits_value, spec_parse, lemma_number_token_wf,
};
use crate::lexemes::{
    wf, wf_list, wf_rows, is_constant, is_error_literal, is_ident_text, canonical_cell, true_text,
    false_text,
};

verus! {

// ---------------------------------------------------------------------------
// What the tokens hold.
// ---------------------------------------------------------------------------

pub open spec fn content_ok(k: Kind) -> bool {
    match k {
        Kind::Number(d) => decimal_wf(d),
        Kind::Ident(n) => is_ident_text(n),
        Kind::Error(l) => is_error_literal(l),
        _ => true,
    }
}

/// The tokens end with `Eof`, and each holds what the lexer puts in a
/// token of its kind.
pub open spec fn tok_inv(t: Seq<Tok>) -> bool {
    &&& t.len() > 0
    &&& t.last().kind is Eof
    &&& forall|i: int| 0 <= i < t.len() ==> content_ok(#[trigger] t[i].kind)
}

proof fn lemma_find_is_literal(s: Seq<char>, i: int, k: int)
    requires
        0 <= k,
    ensures
        find_error_literal(s, i, k) matches Some(l) ==> is_error_literal(l),
    decreases 8 - k,
{
    if k < 8 {
        if literal_at(s, i, k) {
            assert(is_error_literal(error_literal(k)));
        } else {
            lemma_find_is_literal(s, i, k + 1);
        }
    }
}

pub proof fn lemma_token_content(s: Seq<char>, i: int)
    requires
        0 <= i <= s.len(),
    ensures
        lex_token(s, i) matches Ok((t, _)) ==> content_ok(t.kind),
{
    lemma_skip_ws(s, i);
    let st = skip_ws(s, i);
    if st < s.len() {
        lemma_number_token_wf(s, st);
        lemma_find_is_literal(s, st, 0);
        lemma_ident_end(s, st + 1);
        let e = ident_end(s, st + 1);
        let name = s.subrange(st, e);
        assert(name[0] == s[st]);
        assert forall|k: int| 1 <= k < name.len() implies is_ident_char(#[trigger] name[k]) by {
            assert(name[k] == s[st + k]);
        }
    }
}

pub proof fn lemma_lex_from_content(s: Seq<char>, i: int)
    requires
        0 <= i <= s.len(),
    ensures
        lex_from(s, i) matches Ok(ts) ==> forall|k: int| 0 <= k < ts.len() ==> content_ok(
            #[trigger] ts[k].kind,
        ),
    decreases s.len() - i,
{
    lemma_lex_token_advances(s, i);
    lemma_token_content(s, i);
    if let Ok((t, j)) = lex_token(s, i) {
        if !(t.kind is Eof) && i < j <= s.len() {
            lemma_lex_from_content(s, j);
            if let Ok(rest) = lex_from(s, j) {
                let ts = seq![t] + rest;
                assert forall|k: int| 0 <= k < ts.len() implies content_ok(#[trigger] ts[k].kind) by {
                    if k > 0 {
                        assert(ts[k] == rest[k - 1]);
                    }
                }
            }
        }
    }
}

// ---------------------------------------------------------------------------
// Names, calls and cell references.
// ---------------------------------------------------------------------------

pub proof fn lemma_upper_ident(name: Seq<char>)
    requires
        is_ident_text(name),
    ensures
        is_ident_text(upper(name)),
        upper(upper(name)) == upper(name),
{
    let u = upper(name);
    assert(u[0] == upper_char(name[0]));
    assert forall|k: int| 1 <= k < u.len() implies is_ident_char(#[trigger] u[k]) by {
        assert(u[k] == upper_char(name[k]));
        assert(is_ident_char(name[k]));
    }
    assert(upper(u) =~= u);
}

pub proof fn lemma_scan_letters_range(s: Seq<char>, i: int)
    requires
        0 <= i <= s.len(),
    ensures
        i <= scan_letters(s, i) <= s.len(),
        forall|k: int| i <= k < scan_letters(s, i) ==> is_ascii_letter(#[trigger] s[k]),
    decreases s.len() - i,
{
    if i < s.len() && is_ascii_letter(s[i]) {
        lemma_scan_letters_range(s, i + 1);
    }
}

pub proof fn lemma_digits_value_nonneg(s: Seq<char>, lo: int, hi: int)
    requires
        forall|m: int| lo <= m < hi ==> is_ascii_digit(#[trigger] s[m]),
    ensures
        0 <= digits_value(s, lo, hi),
    decreases hi - lo,
{
    if lo < hi {
        lemma_digits_value_nonneg(s, lo, hi - 1);
    }
}

/// A cell reference read from text is in canonical form.
pub proof fn lemma_cell_ref_canonical(s: Seq<char>)
    ensures
        spec_cell_ref(s) matches Some(c) ==> canonical_cell(c) && c.sheet is None,
{
    let col_abs = s.len() > 0 && s[0] == '$';
    let c0: int = if col_abs {
        1
    } else {
        0
    };
    lemma_scan_letters_range(s, c0);
    let c1 = scan_letters(s, c0);
    let row_abs = c1 < s.len() && s[c1] == '$';
    let r0: int = if row_abs {
        c1 + 1
    } else {
        c1
    };
    lemma_scan_digits(s, r0);
    let r1 = scan_digits(s, r0);
    lemma_digits_value_nonneg(s, r0, r1);
    if let Some(c) = spec_cell_ref(s) {
        let col = s.subrange(c0, c1);
        assert(c.column == upper(col));
        assert forall|k: int| 0 <= k < c.column.len() implies is_ascii_upper(#[trigger] c.column[k]) by {
            assert(c.column[k] == upper_char(col[k]));
            assert(col[k] == s[c0 + k]);
            assert(is_ascii_letter(s[c0 + k]));
        }
    }
}

// ---------------------------------------------------------------------------
// Each rule builds well-formed trees.
// ---------------------------------------------------------------------------

pub open spec fn pr_wf(r: PResult) -> bool {
    r matches Ok((e, _)) ==> wf(e)
}

pub proof fn lemma_wf_list_one(x: Ex)
    requires
        wf(x),
    ensures
        wf_list(seq![x]),
{
    assert(wf_list(Seq::<Ex>::empty()));
    assert(seq![x].drop_last() =~= Seq::<Ex>::empty());
    assert(seq![x].last() == x);
}

pub proof fn lemma_wf_list_push(items: Seq<Ex>, e: Ex)
    requires
        wf_list(items),
        wf(e),
    ensures
        wf_list(items.push(e)),
{
    assert(items.push(e).drop_last() =~= items);
}

pub proof fn lemma_expr_wf(t: Seq<Tok>, i: int)
    requires
        tok_inv(t),
    ensures
        pr_wf(p_expr(t, i)),
    decreases t.len() - i, 30int,
{
    lemma_bin_wf(t, i, 1);
}

pub proof fn lemma_bin_wf(t: Seq<Tok>, i: int, k: int)
    requires
        tok_inv(t),
    ensures
        pr_wf(p_bin(t, i, k)),
    decreases t.len() - i, 25 - k,
{
    if 1 <= k <= 5 {
        if k < 5 {
            lemma_bin_wf(t, i, k + 1);
        } else {
            lemma_percent_wf(t, i);
        }
        let first = if k < 5 {
            p_bin(t, i, k + 1)
        } else {
            p_percent(t, i)
        };
        if let Ok((left, j)) = first {
            if advanced(t, i, j) {
                lemma_bin_tail_wf(t, k, left, j);
            }
        }
    }
}

pub proof fn lemma_bin_tail_wf(t: Seq<Tok>, k: int, left: Ex, j: int)
    requires
        tok_inv(t),
        wf(left),
    ensures
        pr_wf(bin_tail(t, k, left, j)),
    decreases t.len() - j, 0int,
{
    if 1 <= k <= 5 && 0 <= j < t.len() {
        if let Some(op) = binary_op_at(k, t[j].kind) {
            if k < 5 {
                lemma_bin_wf(t, j + 1, k + 1);
            } else {
                lemma_percent_wf(t, j + 1);
            }
            let right = if k < 5 {
                p_bin(t, j + 1, k + 1)
            } else {
                p_percent(t, j + 1)
            };
            if let Ok((r, j2)) = right {
                if advanced(t, j + 1, j2) {
                    lemma_bin_tail_wf(t, k, Ex::Binary(op, Box::new(left), Box::new(r)), j2);
                }
            }
        }
    }
}

pub proof fn lemma_percent_wf(t: Seq<Tok>, i: int)
    requires
        tok_inv(t),
    ensures
        pr_wf(p_percent(t, i)),
    decreases t.len() - i, 19int,
{
    lemma_unary_wf(t, i);
    if let Ok((e, j)) = p_unary(t, i) {
        if advanced(t, i, j) {
            lemma_percent_tail_wf(t, e, j);
        }
    }
}

pub proof fn lemma_percent_tail_wf(t: Seq<Tok>, e: Ex, j: int)
    requires
        tok_inv(t),
        wf(e),
    ensures
        pr_wf(percent_tail(t, e, j)),
    decreases t.len() - j, 0int,
{
    if 0 <= j < t.len() - 1 && t[j].kind is Percent {
        lemma_percent_tail_wf(t, Ex::Unary(UnaryOp::Percent, Box::new(e)), j + 1);
    }
}

pub proof fn lemma_unary_wf(t: Seq<Tok>, i: int)
    requires
        tok_inv(t),
    ensures
        pr_wf(p_unary(t, i)),
    decreases t.len() - i, 18int,
{
    if 0 <= i < t.len() - 1 && (t[i].kind is Minus || t[i].kind is Plus) {
        lemma_unary_wf(t, i + 1);
    } else {
        lemma_intersect_wf(t, i);
    }
}

pub proof fn lemma_intersect_wf(t: Seq<Tok>, i: int)
    requires
        tok_inv(t),
    ensures
        pr_wf(p_intersect(t, i)),
    decreases t.len() - i, 17int,
{
    lemma_range_wf(t, i);
    if let Ok((e, j)) = p_range(t, i) {
        if advanced(t, i, j) {
            lemma_isect_tail_wf(t, e, j);
        }
    }
}

pub proof fn lemma_isect_tail_wf(t: Seq<Tok>, left: Ex, j: int)
    requires
        tok_inv(t),
        wf(left),
    ensures
        pr_wf(isect_tail(t, left, j)),
    decreases t.len() - j, 17int,
{
    if 0 <= j < t.len() && t[j].after_space && crate::parser::starts_reference(t[j].kind)
        && ref_like(left) {
        lemma_range_wf(t, j);
        if let Ok((r, j2)) = p_range(t, j) {
            if advanced(t, j, j2) {
                lemma_isect_tail_wf(t, Ex::Intersect(Box::new(left), Box::new(r)), j2);
            }
        }
    }
}

pub proof fn lemma_range_wf(t: Seq<Tok>, i: int)
    requires
        tok_inv(t),
    ensures
        pr_wf(p_range(t, i)),
    decreases t.len() - i, 16int,
{
    lemma_primary_wf(t, i);
    if let Ok((left, j)) = p_primary(t, i) {
        if advanced(t, i, j) && t[j].kind is Colon {
            lemma_primary_wf(t, j + 1);
        }
    }
}

pub proof fn lemma_primary_wf(t: Seq<Tok>, i: int)
    requires
        tok_inv(t),
    ensures
        pr_wf(p_primary(t, i)),
    decreases t.len() - i, 15int,
{
    if 0 <= i < t.len() - 1 {
        assert(content_ok(t[i].kind));
        match t[i].kind {
            Kind::LParen => {
                lemma_expr_wf(t, i + 1);
                if let Ok((first, j)) = p_expr(t, i + 1) {
                    if advanced(t, i + 1, j) && t[j].kind is Comma {
                        lemma_union_start_wf(t, first, j);
                    }
                }
            },
            Kind::LBrace => {
                lemma_array_wf(t, i + 1);
            },
            Kind::Ident(name) => {
                lemma_ident_wf(t, name, t[i].pos, i + 1);
            },
            Kind::SheetName(name) => {
                if let Ok(j) = expect(t, i + 1, Kind::Bang) {
                    lemma_after_bang_wf(t, name, j);
                }
            },
            _ => {},
        }
    }
}

/// A union after its first member and the comma that follows it.
pub proof fn lemma_union_start_wf(t: Seq<Tok>, first: Ex, j: int)
    requires
        tok_inv(t),
        wf(first),
        0 <= j < t.len(),
        t[j].kind is Comma,
    ensures
        union_items(t, seq![first], j) matches Ok((items, _)) ==> items.len() >= 2 && wf_list(
            items,
        ),
    decreases t.len() - j, 1int,
{
    if 0 <= j < t.len() - 1 {
        lemma_expr_wf(t, j + 1);
        if let Ok((e, j2)) = p_expr(t, j + 1) {
            if advanced(t, j + 1, j2) {
                lemma_wf_list_one(first);
                lemma_wf_list_push(seq![first], e);
                lemma_union_items_wf(t, seq![first].push(e), j2);
            }
        }
    }
}

pub proof fn lemma_union_items_wf(t: Seq<Tok>, items: Seq<Ex>, j: int)
    requires
        tok_inv(t),
        wf_list(items),
    ensures
        union_items(t, items, j) matches Ok((r, _)) ==> r.len() >= items.len() && wf_list(r),
    decreases t.len() - j, 0int,
{
    if 0 <= j < t.len() - 1 && t[j].kind is Comma {
        lemma_expr_wf(t, j + 1);
        if let Ok((e, j2)) = p_expr(t, j + 1) {
            if advanced(t, j + 1, j2) {
                lemma_wf_list_push(items, e);
                lemma_union_items_wf(t, items.push(e), j2);
            }
        }
    }
}

pub proof fn lemma_ident_wf(t: Seq<Tok>, name: Seq<char>, pos: int, i: int)
    requires
        tok_inv(t),
        is_ident_text(name),
    ensures
        pr_wf(p_ident(t, name, pos, i)),
    decreases t.len() - i, 0int,
{
    lemma_upper_ident(name);
    lemma_cell_ref_canonical(name);
    assert(wf_list(Seq::<Ex>::empty()));
    if 0 <= i < t.len() - 1 && t[i].kind is LParen {
        if !(t[i + 1].kind is RParen) {
            lemma_call_args_wf(t, Seq::empty(), i + 1);
        }
    } else if 0 <= i < t.len() - 1 && t[i].kind is Bang {
        lemma_after_bang_wf(t, name, i + 1);
    } else {
        assert(true_text() =~= seq!['T', 'R', 'U', 'E']);
        assert(false_text() =~= seq!['F', 'A', 'L', 'S', 'E']);
    }
}

pub proof fn lemma_call_args_wf(t: Seq<Tok>, items: Seq<Ex>, j: int)
    requires
        tok_inv(t),
        wf_list(items),
    ensures
        call_args(t, items, j) matches Ok((r, _)) ==> wf_list(r),
    decreases t.len() - j, 31int,
{
    lemma_expr_wf(t, j);
    if let Ok((e, j2)) = p_expr(t, j) {
        if advanced(t, j, j2) {
            lemma_wf_list_push(items, e);
            if t[j2].kind is Comma {
                lemma_call_args_wf(t, items.push(e), j2 + 1);
            }
        }
    }
}

pub proof fn lemma_after_bang_wf(t: Seq<Tok>, sheet: Seq<char>, i: int)
    ensures
        pr_wf(p_after_bang(t, sheet, i)),
{
    if 0 <= i < t.len() {
        if let Kind::Ident(n) = t[i].kind {
            lemma_cell_ref_canonical(n);
        }
    }
}

// ---------------------------------------------------------------------------
// Array literals.
// ---------------------------------------------------------------------------

pub proof fn lemma_array_item_wf(t: Seq<Tok>, i: int)
    requires
        tok_inv(t),
    ensures
        p_array_item(t, i) matches Ok((e, _)) ==> is_constant(e),
{
    if 0 <= i < t.len() - 1 {
        assert(content_ok(t[i].kind));
        assert(content_ok(t[i + 1].kind));
    }
}

pub proof fn lemma_array_row_wf(t: Seq<Tok>, items: Seq<Ex>, j: int)
    requires
        tok_inv(t),
        forall|k: int| 0 <= k < items.len() ==> is_constant(#[trigger] items[k]),
    ensures
        array_row(t, items, j) matches Ok((r, _)) ==> r.len() >= 1 && forall|k: int|
            0 <= k < r.len() ==> is_constant(#[trigger] r[k]),
    decreases t.len() - j,
{
    lemma_array_item_wf(t, j);
    if let Ok((e, j2)) = p_array_item(t, j) {
        if advanced(t, j, j2) {
            let next = items.push(e);
            assert forall|k: int| 0 <= k < next.len() implies is_constant(#[trigger] next[k]) by {
                if k < items.len() {
                    assert(next[k] == items[k]);
                }
            }
            if t[j2].kind is Comma {
                lemma_array_row_wf(t, next, j2 + 1);
            }
        }
    }
}

pub proof fn lemma_array_rows_wf(t: Seq<Tok>, rows: Seq<Seq<Ex>>, j: int)
    requires
        tok_inv(t),
        wf_rows(rows),
    ensures
        pr_wf(array_rows(t, rows, j)),
    decreases t.len() - j,
{
    assert(Seq::<Ex>::empty().len() == 0);
    lemma_array_row_wf(t, Seq::empty(), j);
    if let Ok((row, j2)) = array_row(t, Seq::empty(), j) {
        if advanced(t, j, j2) {
            let next = rows.push(row);
            assert(wf_rows(next)) by {
                assert forall|k: int| 0 <= k < next.len() implies (#[trigger] next[k]).len() >= 1
                    && forall|m: int| 0 <= m < next[k].len() ==> is_constant(#[trigger] next[k][m]) by {
                    if k < rows.len() {
                        assert(next[k] == rows[k]);
                    }
                }
            }
            if t[j2].kind is Semicolon {
                lemma_array_rows_wf(t, next, j2 + 1);
            }
        }
    }
}

pub proof fn lemma_array_wf(t: Seq<Tok>, i: int)
    requires
        tok_inv(t),
    ensures
        pr_wf(p_array(t, i)),
{
    lemma_array_rows_wf(t, Seq::empty(), i);
}

// ---------------------------------------------------------------------------
// Whole formulas.
// ---------------------------------------------------------------------------

/// A formula that parses yields a well-formed tree.
pub proof fn lemma_parse_wf(s: Seq<char>)
    ensures
        spec_parse(s) matches Ok(e) ==> wf(e),
{
    lemma_lex_from_content(s, 0);
    crate::parser::lemma_lex_wf(s);
    if let Ok(t) = lex(s) {
        lemma_expr_wf(t, 0);
    }
}

} // verus!
