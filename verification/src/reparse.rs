//! The parser rebuilds a tree from the tokens of its canonical text.
//!
//! Tokens are matched against lexemes by kind and spacing only (positions
//! play no part in a successful parse). For each level of the grammar, the
//! tokens of a tree whose precedence is at least that level are parsed back
//! into the tree, provided the token after them ends that level.

use vstd::prelude::*;
use crate::chars::{upper, upper_char, is_ascii_digit, is_ascii_upper, is_ascii_letter};
use crate::number::{scan_digits, lemma_scan_digits, digit_value};
use crate::lexer::{Kind, Tok};
use crate::parser::{
    Ex, Cell, UnaryOp, BinaryOp, PResult, LResult, p_expr, p_bin, bin_tail, p_percent,
    percent_tail, p_unary, p_intersect, isect_tail, p_range, p_primary, union_items, call_args,
    p_array_item, array_row, array_rows, expect, binary_op_at, starts_reference, spec_cell_ref,
    scan_letters, digits_value,
};
use crate::printer::{
    precedence, binary_precedence, spec_render, paren_if, starts_reference_text, nat_text, ends_in_name,
    digit_char,
};
use crate::lexemes::{
    Lx, wf, wf_rows, is_constant, lexemes, lx_list, lx_row, lx_rows, lx_paren, lx_paren_if, spaced,
    punct, binary_kind, cell_text, true_text, false_text, canonical_cell, flat, lemma_lexemes_flat,
    lemma_lexemes_ok, lx_ok, lemma_lx_ok_chars, lemma_flat_first, lemma_flat_last,
    lemma_flat_paren_if, lemma_first_lexeme, starts_expr, lemma_wf_list, lemma_constant_wf,
    lemma_all_ok_paren_if, lemma_nat_text, lemma_digit_char,
};

verus! {

// ---------------------------------------------------------------------------
// Tokens against lexemes.
// ---------------------------------------------------------------------------

/// From `i` on, the tokens have the kinds of the lexemes `ls` and, after the
/// first, their spacing; at least one token follows them.
pub open spec fn reads(t: Seq<Tok>, i: int, ls: Seq<Lx>) -> bool {
    &&& 0 <= i
    &&& i + ls.len() < t.len()
    &&& forall|j: int| i <= j < i + ls.len() ==> (#[trigger] t[j]).kind == ls[j - i].kind
    &&& forall|j: int| i < j < i + ls.len() ==> (#[trigger] t[j]).after_space == ls[j - i].space
}

pub proof fn lemma_reads_split(t: Seq<Tok>, i: int, a: Seq<Lx>, b: Seq<Lx>)
    requires
        reads(t, i, a + b),
    ensures
        reads(t, i, a),
        reads(t, i + a.len(), b),
        a.len() > 0 && b.len() > 0 ==> t[i + a.len()].after_space == b[0].space,
{
    assert forall|j: int| i <= j < i + a.len() implies (#[trigger] t[j]).kind == a[j - i].kind by {
        assert((a + b)[j - i] == a[j - i]);
    }
    assert forall|j: int| i < j < i + a.len() implies (#[trigger] t[j]).after_space == a[j
        - i].space by {
        assert((a + b)[j - i] == a[j - i]);
    }
    let k = i + a.len();
    assert forall|j: int| k <= j < k + b.len() implies (#[trigger] t[j]).kind == b[j - k].kind by {
        assert((a + b)[j - i] == b[j - k]);
    }
    assert forall|j: int| k < j < k + b.len() implies (#[trigger] t[j]).after_space == b[j
        - k].space by {
        assert((a + b)[j - i] == b[j - k]);
    }
    if a.len() > 0 && b.len() > 0 {
        assert((a + b)[k - i] == b[0]);
        assert(t[k].after_space == (a + b)[k - i].space);
    }
}

pub proof fn lemma_reads_spaced(t: Seq<Tok>, i: int, a: Seq<Lx>, b: Seq<Lx>)
    requires
        reads(t, i, spaced(a) + b),
    ensures
        reads(t, i, a + b),
{
    assert forall|j: int| i <= j < i + (a + b).len() implies (#[trigger] t[j]).kind == (a + b)[j
        - i].kind by {
        assert((spaced(a) + b)[j - i].kind == (a + b)[j - i].kind);
    }
    assert forall|j: int| i < j < i + (a + b).len() implies (#[trigger] t[j]).after_space == (a
        + b)[j - i].space by {
        assert((spaced(a) + b)[j - i].space == (a + b)[j - i].space);
    }
}

pub proof fn lemma_reads_paren(t: Seq<Tok>, i: int, ls: Seq<Lx>)
    requires
        reads(t, i, lx_paren(ls)),
    ensures
        t[i].kind is LParen,
        reads(t, i + 1, ls),
        t[i + 1 + ls.len()].kind is RParen,
{
    lemma_reads_split(t, i, seq![punct(Kind::LParen)] + ls, seq![punct(Kind::RParen)]);
    lemma_reads_split(t, i, seq![punct(Kind::LParen)], ls);
    assert(t[i].kind == (lx_paren(ls))[0].kind);
    let e = i + 1 + ls.len();
    assert(t[e].kind == (lx_paren(ls))[e - i].kind);
}

/// Reading a lexeme sequence that ends with `x`, the last token read has
/// the kind of `x`.
pub proof fn lemma_reads_one(t: Seq<Tok>, i: int, ls: Seq<Lx>, k: int)
    requires
        reads(t, i, ls),
        0 <= k < ls.len(),
    ensures
        t[i + k].kind == ls[k].kind,
        k > 0 ==> t[i + k].after_space == ls[k].space,
{
    assert(t[i + k].kind == ls[(i + k) - i].kind);
}

// ---------------------------------------------------------------------------
// Where a level ends.
// ---------------------------------------------------------------------------

/// The binary level of an operator token (0 for other tokens).
pub open spec fn op_level(k: Kind) -> int {
    match k {
        Kind::Eq | Kind::Ne | Kind::Lt | Kind::Le | Kind::Gt | Kind::Ge => 1,
        Kind::Ampersand => 2,
        Kind::Plus | Kind::Minus => 3,
        Kind::Star | Kind::Slash => 4,
        Kind::Caret => 5,
        _ => 0,
    }
}

/// The token `tk` ends an expression of level `l`: nothing in it would
/// extend the expression at that level or a tighter one.
pub open spec fn stops(l: int, tk: Tok) -> bool {
    &&& op_level(tk.kind) < l
    &&& (l <= 6 ==> !(tk.kind is Percent))
    &&& (l <= 8 ==> !(tk.after_space && starts_reference(tk.kind)))
    &&& (l <= 9 ==> !(tk.kind is Colon))
    &&& !(tk.kind is Bang)
}

/// The token `tk` may follow the lexemes `ls`: never `!`, and an opening
/// parenthesis only where `ls` does not end in a name (which would then read
/// as a call).
pub open spec fn follows(ls: Seq<Lx>, tk: Tok) -> bool {
    &&& !(tk.kind is Bang)
    &&& tk.kind is LParen ==> !name_end(ls)
}

pub proof fn lemma_op_level(k: int, kind: Kind)
    requires
        1 <= k <= 5,
    ensures
        (binary_op_at(k, kind) is Some) == (op_level(kind) == k),
{
}

pub proof fn lemma_binary_kind(op: BinaryOp)
    ensures
        binary_op_at(binary_precedence(op), binary_kind(op)) == Some(op),
        op_level(binary_kind(op)) == binary_precedence(op),
        1 <= binary_precedence(op) <= 5,
        !starts_reference(binary_kind(op)),
        !(binary_kind(op) is Percent),
        !(binary_kind(op) is Colon),
        !(binary_kind(op) is Bang),
        !(binary_kind(op) is LParen),
{
}

pub proof fn lemma_precedence_range(e: Ex)
    ensures
        1 <= precedence(e) <= 10,
        precedence(e) <= 5 ==> e is Binary,
        precedence(e) == 6 ==> e matches Ex::Unary(UnaryOp::Percent, _),
        precedence(e) == 7 ==> (e matches Ex::Unary(op, _) && op != UnaryOp::Percent),
        precedence(e) == 8 ==> e is Intersect,
        precedence(e) == 9 ==> e is Range,
{
}

/// The precedence of an operand written with or without parentheses.
pub open spec fn eff(x: Ex, w: bool) -> int {
    if w {
        10
    } else {
        precedence(x)
    }
}

pub open spec fn lxw(x: Ex, w: bool) -> Seq<Lx> {
    lx_paren_if(w, lexemes(x))
}

/// The parser's entry point for each level: 1 to 5 the binary levels, then
/// percent, unary, intersect, range and primary.
pub open spec fn p_at(t: Seq<Tok>, i: int, l: int) -> PResult {
    if l <= 5 {
        p_bin(t, i, l)
    } else if l == 6 {
        p_percent(t, i)
    } else if l == 7 {
        p_unary(t, i)
    } else if l == 8 {
        p_intersect(t, i)
    } else if l == 9 {
        p_range(t, i)
    } else {
        p_primary(t, i)
    }
}

pub proof fn lemma_lxw_shape(x: Ex, w: bool)
    requires
        wf(x),
    ensures
        lxw(x, w).len() > 0,
        !lxw(x, w)[0].space,
        w ==> lxw(x, w)[0].kind is LParen && lxw(x, w).last().kind is RParen,
        !w ==> lxw(x, w) == lexemes(x),
        starts_expr(lxw(x, w)[0].kind),
        eff(x, w) >= 8 ==> !(lxw(x, w)[0].kind is Minus) && !(lxw(x, w)[0].kind is Plus),
{
    lemma_first_lexeme(x);
}

// ---------------------------------------------------------------------------
// Lists read from the front.
// ---------------------------------------------------------------------------

/// The lexemes of the members after the first `m`: each after a comma and a
/// space.
pub open spec fn lx_tail(items: Seq<Ex>, m: int) -> Seq<Lx>
    decreases items.len() - m,
{
    if m < 0 || m >= items.len() {
        Seq::empty()
    } else {
        seq![punct(Kind::Comma)] + spaced(lexemes(items[m])) + lx_tail(items, m + 1)
    }
}

pub proof fn lemma_lx_list_split(items: Seq<Ex>, m: int)
    requires
        1 <= m <= items.len(),
    ensures
        lx_list(items) == lx_list(items.take(m)) + lx_tail(items, m),
    decreases items.len() - m,
{
    if m == items.len() {
        assert(items.take(m) =~= items);
        assert(lx_list(items) + Seq::<Lx>::empty() =~= lx_list(items));
    } else {
        lemma_lx_list_split(items, m + 1);
        let tk = items.take(m + 1);
        assert(tk.drop_last() =~= items.take(m));
        assert(tk.last() == items[m]);
        assert(lx_list(tk) == lx_list(items.take(m)) + seq![punct(Kind::Comma)] + spaced(
            lexemes(items[m]),
        ));
        assert(lx_list(items) =~= lx_list(items.take(m)) + lx_tail(items, m));
    }
}

pub proof fn lemma_lx_list_front(items: Seq<Ex>)
    requires
        items.len() >= 1,
    ensures
        lx_list(items) == lexemes(items[0]) + lx_tail(items, 1),
{
    lemma_lx_list_split(items, 1);
    assert(items.take(1).len() == 1);
    assert(items.take(1)[0] == items[0]);
}

pub open spec fn row_tail(items: Seq<Ex>, m: int) -> Seq<Lx>
    decreases items.len() - m,
{
    if m < 0 || m >= items.len() {
        Seq::empty()
    } else {
        seq![punct(Kind::Comma)] + lexemes(items[m]) + row_tail(items, m + 1)
    }
}

pub proof fn lemma_lx_row_split(items: Seq<Ex>, m: int)
    requires
        1 <= m <= items.len(),
    ensures
        lx_row(items) == lx_row(items.take(m)) + row_tail(items, m),
    decreases items.len() - m,
{
    if m == items.len() {
        assert(items.take(m) =~= items);
        assert(lx_row(items) + Seq::<Lx>::empty() =~= lx_row(items));
    } else {
        lemma_lx_row_split(items, m + 1);
        let tk = items.take(m + 1);
        assert(tk.drop_last() =~= items.take(m));
        assert(tk.last() == items[m]);
        assert(lx_row(items) =~= lx_row(items.take(m)) + row_tail(items, m));
    }
}

pub open spec fn rows_tail(rows: Seq<Seq<Ex>>, m: int) -> Seq<Lx>
    decreases rows.len() - m,
{
    if m < 0 || m >= rows.len() {
        Seq::empty()
    } else {
        seq![punct(Kind::Semicolon)] + lx_row(rows[m]) + rows_tail(rows, m + 1)
    }
}

pub proof fn lemma_lx_rows_split(rows: Seq<Seq<Ex>>, m: int)
    requires
        1 <= m <= rows.len(),
    ensures
        lx_rows(rows) == lx_rows(rows.take(m)) + rows_tail(rows, m),
    decreases rows.len() - m,
{
    if m == rows.len() {
        assert(rows.take(m) =~= rows);
        assert(lx_rows(rows) + Seq::<Lx>::empty() =~= lx_rows(rows));
    } else {
        lemma_lx_rows_split(rows, m + 1);
        let tk = rows.take(m + 1);
        assert(tk.drop_last() =~= rows.take(m));
        assert(tk.last() == rows[m]);
        assert(lx_rows(rows) =~= lx_rows(rows.take(m)) + rows_tail(rows, m));
    }
}

// ---------------------------------------------------------------------------
// Cell references read back.
// ---------------------------------------------------------------------------

pub proof fn lemma_scan_letters_to(s: Seq<char>, i: int, e: int)
    requires
        0 <= i <= e <= s.len(),
        forall|k: int| i <= k < e ==> is_ascii_letter(#[trigger] s[k]),
        e < s.len() ==> !is_ascii_letter(s[e]),
    ensures
        scan_letters(s, i) == e,
    decreases e - i,
{
    if i < e {
        lemma_scan_letters_to(s, i + 1, e);
    }
}

pub proof fn lemma_scan_digits_to_end(s: Seq<char>, i: int)
    requires
        0 <= i <= s.len(),
        forall|k: int| i <= k < s.len() ==> is_ascii_digit(#[trigger] s[k]),
    ensures
        scan_digits(s, i) == s.len(),
{
    lemma_scan_digits(s, i);
}

pub proof fn lemma_digits_value_at(s: Seq<char>, q: Seq<char>, off: int, k: int)
    requires
        0 <= k <= q.len(),
        forall|m: int| 0 <= m < k ==> s[off + m] == q[m],
    ensures
        digits_value(s, off, off + k) == digits_value(q, 0, k),
    decreases k,
{
    if k > 0 {
        lemma_digits_value_at(s, q, off, k - 1);
        assert(s[off + k - 1] == q[k - 1]);
    }
}

proof fn lemma_nat_text_value(n: nat)
    ensures
        digits_value(nat_text(n), 0, nat_text(n).len() as int) == n,
    decreases n,
{
    if n < 10 {
        lemma_digit_char(n as int);
        assert(digits_value(nat_text(n), 0, 0) == 0);
    } else {
        let q = nat_text(n / 10);
        lemma_nat_text_value(n / 10);
        lemma_digit_char((n % 10) as int);
        let s = nat_text(n);
        assert(s == q.push(digit_char((n % 10) as int)));
        lemma_digits_value_at(s, q, 0, q.len() as int);
        assert(digits_value(s, 0, s.len() as int) == 10 * digits_value(s, 0, q.len() as int)
            + digit_value(s[q.len() as int]));
        assert(s[q.len() as int] == digit_char((n % 10) as int));
        assert(n == 10 * (n / 10) + n % 10);
    }
}

/// The text of a canonical cell reference reads back as the same cell.
pub proof fn lemma_cell_ref_text(c: Cell)
    requires
        canonical_cell(c),
    ensures
        spec_cell_ref(cell_text(c)) == Some(
            Cell {
                sheet: None,
                col_absolute: c.col_absolute,
                column: c.column,
                row_absolute: c.row_absolute,
                row: c.row,
            },
        ),
{
    let col_abs: Seq<char> = if c.col_absolute {
        seq!['$']
    } else {
        Seq::empty()
    };
    let row_abs: Seq<char> = if c.row_absolute {
        seq!['$']
    } else {
        Seq::empty()
    };
    let digits = nat_text(c.row as nat);
    lemma_nat_text(c.row as nat);
    lemma_nat_text_value(c.row as nat);
    let s = cell_text(c);
    assert(s == col_abs + c.column + row_abs + digits);
    let c0 = col_abs.len() as int;
    let c1 = c0 + c.column.len();
    let r0 = c1 + row_abs.len();
    assert(is_ascii_upper(c.column[0]));
    assert((s.len() > 0 && s[0] == '$') == c.col_absolute) by {
        if !c.col_absolute {
            assert(s[0] == c.column[0]);
        }
    }
    assert forall|k: int| c0 <= k < c1 implies is_ascii_letter(#[trigger] s[k]) by {
        assert(s[k] == c.column[k - c0]);
        assert(is_ascii_upper(c.column[k - c0]));
    }
    assert(!is_ascii_letter(s[c1])) by {
        if c.row_absolute {
            assert(s[c1] == '$');
        } else {
            assert(s[c1] == digits[0]);
            assert(is_ascii_digit(digits[0]));
        }
    }
    lemma_scan_letters_to(s, c0, c1);
    assert((c1 < s.len() && s[c1] == '$') == c.row_absolute) by {
        if !c.row_absolute {
            assert(s[c1] == digits[0]);
            assert(is_ascii_digit(digits[0]));
        }
    }
    assert forall|k: int| r0 <= k < s.len() implies is_ascii_digit(#[trigger] s[k]) by {
        assert(s[k] == digits[k - r0]);
    }
    lemma_scan_digits_to_end(s, r0);
    assert forall|m: int| 0 <= m < digits.len() implies s[r0 + m] == digits[m] by {}
    lemma_digits_value_at(s, digits, r0, digits.len() as int);
    assert(s.subrange(c0, c1) =~= c.column);
    assert forall|k: int| 0 <= k < c.column.len() implies upper_char(#[trigger] c.column[k])
        == c.column[k] by {
        assert(is_ascii_upper(c.column[k]));
    }
    assert(upper(c.column) =~= c.column);
}

/// A cell reference's text ends in a digit, so it is not a boolean word.
pub proof fn lemma_cell_text_not_word(c: Cell)
    requires
        canonical_cell(c),
    ensures
        upper(cell_text(c)) != true_text(),
        upper(cell_text(c)) != false_text(),
{
    let s = cell_text(c);
    let digits = nat_text(c.row as nat);
    lemma_nat_text(c.row as nat);
    let col_abs: Seq<char> = if c.col_absolute {
        seq!['$']
    } else {
        Seq::empty()
    };
    let row_abs: Seq<char> = if c.row_absolute {
        seq!['$']
    } else {
        Seq::empty()
    };
    assert(s == col_abs + c.column + row_abs + digits);
    assert(s.last() == digits.last());
    assert(is_ascii_digit(digits[digits.len() - 1]));
    let u = upper(s);
    assert(u[u.len() - 1] == upper_char(s[s.len() - 1]));
    assert(true_text()[3] == 'E');
    assert(false_text()[4] == 'E');
}


// ---------------------------------------------------------------------------
// The two operands of an intersection.
// ---------------------------------------------------------------------------

/// Whether the printer wraps the right operand of an intersection in
/// parentheses.
pub open spec fn isect_wrap_right(b: Ex) -> bool {
    precedence(b) <= 8 || !starts_reference_text(spec_render(b))
}

/// Whether the printer wraps the left operand of an intersection in
/// parentheses.
pub open spec fn isect_wrap_left(a: Ex, b: Ex) -> bool {
    precedence(a) < 8 || (isect_right_text(b)[0] == '(' && ends_in_name(a))
}

/// How the printer writes the right operand of an intersection.
pub open spec fn isect_right_text(b: Ex) -> Seq<char> {
    let r = paren_if(precedence(b) <= 8, spec_render(b));
    if starts_reference_text(r) {
        r
    } else {
        crate::printer::paren(r)
    }
}

pub proof fn lemma_isect_shape(a: Ex, b: Ex)
    requires
        wf(Ex::Intersect(Box::new(a), Box::new(b))),
    ensures
        lexemes(Ex::Intersect(Box::new(a), Box::new(b))) == lxw(a, isect_wrap_left(a, b)) + spaced(
            lxw(b, isect_wrap_right(b)),
        ),
        starts_reference(lxw(b, isect_wrap_right(b))[0].kind),
        (lxw(b, isect_wrap_right(b))[0].kind is LParen) == (isect_right_text(b)[0] == '('),
{
    lemma_lexemes_flat(b);
    lemma_lexemes_ok(b);
    let pb = precedence(b) <= 8;
    let r = paren_if(pb, spec_render(b));
    let rl = lx_paren_if(pb, lexemes(b));
    lemma_flat_paren_if(pb, lexemes(b));
    lemma_all_ok_paren_if(pb, lexemes(b));
    lemma_lxw_shape(a, precedence(a) < 8);
    lemma_lxw_shape(b, pb);
    assert(lx_ok(rl[0]));
    lemma_lx_ok_chars(rl[0]);
    lemma_flat_first(rl);
    assert(flat(rl) == r);
    let r_ok = starts_reference_text(r);
    let wb = isect_wrap_right(b);
    let wa = isect_wrap_left(a, b);
    if pb {
        assert(r[0] == '(');
        assert(r_ok);
        assert(rl == lxw(b, wb));
    } else {
        assert(r == spec_render(b));
        assert(wb == !r_ok);
    }
    assert(isect_right_text(b) == (if r_ok {
        r
    } else {
        crate::printer::paren(r)
    }));
    let rl2 = if r_ok {
        rl
    } else {
        lx_paren(rl)
    };
    assert(rl2 == lxw(b, wb));
    assert(lexemes(Ex::Intersect(Box::new(a), Box::new(b))) == lxw(a, wa) + spaced(lxw(b, wb)));
}

/// The lexemes end with an identifier that the parser reads through its
/// name rule (not the cell after a sheet's `!`).
pub open spec fn name_end(ls: Seq<Lx>) -> bool {
    &&& ls.len() > 0
    &&& ls.last().kind is Ident
    &&& !(ls.len() >= 2 && ls[ls.len() - 2].kind is Bang)
}

pub proof fn lemma_name_end_suffix(pre: Seq<Lx>, ls: Seq<Lx>)
    requires
        ls.len() > 0,
        pre.len() > 0 ==> !(pre.last().kind is Bang),
    ensures
        name_end(pre + ls) == name_end(ls),
{
    let s = pre + ls;
    assert(s.last() == ls.last());
    if ls.len() >= 2 {
        assert(s[s.len() - 2] == ls[ls.len() - 2]);
    } else if pre.len() > 0 {
        assert(s[s.len() - 2] == pre.last());
    }
}

pub proof fn lemma_name_end_spaced(ls: Seq<Lx>)
    requires
        ls.len() > 0,
    ensures
        name_end(spaced(ls)) == name_end(ls),
{
    if ls.len() >= 2 {
        assert(spaced(ls)[ls.len() - 2].kind == ls[ls.len() - 2].kind);
    }
}

/// The lexemes of a tree end in a name exactly when its text does.
pub proof fn lemma_name_end(e: Ex)
    requires
        wf(e),
    ensures
        name_end(lexemes(e)) == ends_in_name(e),
    decreases e,
{
    lemma_precedence_range(e);
    match e {
        Ex::Reference(c) => {
            match c.sheet {
                Some(_) => {
                    assert(lexemes(e)[lexemes(e).len() - 2] == punct(Kind::Bang));
                },
                None => {},
            }
        },
        Ex::Range(a, b) => {
            let la = lxw(*a, precedence(*a) < 10);
            let lb = lxw(*b, precedence(*b) < 10);
            lemma_lxw_shape(*b, precedence(*b) < 10);
            lemma_name_end_suffix(la + seq![punct(Kind::Colon)], lb);
            if precedence(*b) == 10 {
                lemma_name_end(*b);
            }
        },
        Ex::Intersect(a, b) => {
            lemma_isect_shape(*a, *b);
            let la = lxw(*a, isect_wrap_left(*a, *b));
            let lb = lxw(*b, isect_wrap_right(*b));
            lemma_lxw_shape(*a, isect_wrap_left(*a, *b));
            lemma_lxw_shape(*b, isect_wrap_right(*b));
            crate::relex::lemma_last_lexeme(*a);
            lemma_name_end_suffix(la, spaced(lb));
            lemma_name_end_spaced(lb);
            if !isect_wrap_right(*b) {
                lemma_name_end(*b);
            }
        },
        Ex::Unary(op, a) => {
            lemma_lxw_shape(*a, precedence(*a) < 7);
            lemma_lxw_shape(*a, precedence(*a) < 6);
            if op != UnaryOp::Percent {
                let k = if op == UnaryOp::Neg {
                    Kind::Minus
                } else {
                    Kind::Plus
                };
                lemma_name_end_suffix(seq![punct(k)], lxw(*a, precedence(*a) < 7));
                if precedence(*a) >= 7 {
                    lemma_name_end(*a);
                }
            }
        },
        Ex::Binary(op, a, b) => {
            let p = binary_precedence(op);
            let la = lxw(*a, precedence(*a) < p);
            let lb = lxw(*b, precedence(*b) <= p);
            lemma_lxw_shape(*b, precedence(*b) <= p);
            lemma_name_end_suffix(la + seq![punct(binary_kind(op))], lb);
            if precedence(*b) > p {
                lemma_name_end(*b);
            }
        },
        _ => {},
    }
}

/// Where the right operand of an intersection starts with `(`, the left
/// operand's lexemes do not end in a name.
pub proof fn lemma_isect_follow(a: Ex, b: Ex)
    requires
        wf(Ex::Intersect(Box::new(a), Box::new(b))),
    ensures
        lxw(b, isect_wrap_right(b))[0].kind is LParen ==> !name_end(
            lxw(a, isect_wrap_left(a, b)),
        ),
{
    lemma_isect_shape(a, b);
    let wa = isect_wrap_left(a, b);
    lemma_lxw_shape(a, wa);
    if !wa {
        lemma_name_end(a);
    }
}

// ---------------------------------------------------------------------------
// Each level parses the tokens of a tree back into the tree.
// ---------------------------------------------------------------------------

/// The tokens of `x` (in parentheses when `w`), read at level `l` and
/// followed by a token that ends that level, parse as `x`.
#[verifier::spinoff_prover]
#[verifier::rlimit(40)]
pub proof fn lemma_level(t: Seq<Tok>, i: int, x: Ex, w: bool, l: int)
    requires
        1 <= l <= 10,
        wf(x),
        eff(x, w) >= l,
        reads(t, i, lxw(x, w)),
        stops(l, t[i + lxw(x, w).len()]),
        follows(lxw(x, w), t[i + lxw(x, w).len()]),
    ensures
        p_at(t, i, l) == PResult::Ok((x, i + lxw(x, w).len())),
    decreases x, (if w {
        1int
    } else {
        0int
    }), 3 * (11 - l) + 2, 0int,
{
    let n = lxw(x, w).len() as int;
    let end = i + n;
    lemma_lxw_shape(x, w);
    lemma_precedence_range(x);
    if l <= 5 {
        lemma_bin(t, i, x, w, l);
        lemma_op_level(l, t[end].kind);
    } else if l == 6 {
        lemma_pct(t, i, x, w);
    } else if l == 7 {
        if !w && (x matches Ex::Unary(op, _) && op != UnaryOp::Percent) {
            match x {
                Ex::Unary(op, a) => {
                    let wa = precedence(*a) < 7;
                    let la = lxw(*a, wa);
                    let k = if op == UnaryOp::Neg {
                        Kind::Minus
                    } else {
                        Kind::Plus
                    };
                    assert(lexemes(x) == seq![punct(k)] + la);
                    lemma_reads_split(t, i, seq![punct(k)], la);
                    lemma_reads_one(t, i, lexemes(x), 0);
                    lemma_lxw_shape(*a, wa);
                    lemma_name_end_suffix(seq![punct(k)], la);
                    lemma_level(t, i + 1, *a, wa, 7);
                },
                _ => {},
            }
        } else {
            lemma_reads_one(t, i, lxw(x, w), 0);
            lemma_level(t, i, x, w, 8);
        }
    } else if l == 8 {
        lemma_isect(t, i, x, w);
    } else if l == 9 {
        if !w && x is Range {
            match x {
                Ex::Range(a, b) => {
                    let wa = precedence(*a) < 10;
                    let wb = precedence(*b) < 10;
                    let la = lxw(*a, wa);
                    let lb = lxw(*b, wb);
                    let c = seq![punct(Kind::Colon)];
                    assert(lexemes(x) == la + c + lb);
                    lemma_reads_split(t, i, la + c, lb);
                    lemma_reads_split(t, i, la, c);
                    let ja = i + la.len();
                    lemma_reads_one(t, i, la + c, la.len() as int);
                    lemma_lxw_shape(*a, wa);
                    lemma_lxw_shape(*b, wb);
                    lemma_precedence_range(*a);
                    lemma_precedence_range(*b);
                    lemma_level(t, i, *a, wa, 10);
                    lemma_name_end_suffix(la + c, lb);
                    lemma_level(t, ja + 1, *b, wb, 10);
                },
                _ => {},
            }
        } else {
            lemma_level(t, i, x, w, 10);
        }
    } else {
        lemma_prim(t, i, x, w);
    }
}

/// A binary level: the tokens of `x` at level `k` parse to whatever the
/// loop over further operators of that level makes of `x`.
#[verifier::spinoff_prover]
#[verifier::rlimit(40)]
pub proof fn lemma_bin(t: Seq<Tok>, i: int, x: Ex, w: bool, k: int)
    requires
        1 <= k <= 5,
        wf(x),
        eff(x, w) >= k,
        reads(t, i, lxw(x, w)),
        stops(k + 1, t[i + lxw(x, w).len()]),
        follows(lxw(x, w), t[i + lxw(x, w).len()]),
    ensures
        p_bin(t, i, k) == bin_tail(t, k, x, i + lxw(x, w).len()),
    decreases x, (if w {
        1int
    } else {
        0int
    }), 3 * (11 - k) + 1, 0int,
{
    lemma_lxw_shape(x, w);
    lemma_precedence_range(x);
    if eff(x, w) > k {
        lemma_level(t, i, x, w, k + 1);
    } else {
        match x {
            Ex::Binary(op, a, b) => {
                let wa = precedence(*a) < k;
                let wb = precedence(*b) <= k;
                let la = lxw(*a, wa);
                let lb = lxw(*b, wb);
                let o = seq![punct(binary_kind(op))];
                assert(lexemes(x) == la + o + lb);
                lemma_reads_split(t, i, la + o, lb);
                lemma_reads_split(t, i, la, o);
                let ja = i + la.len();
                lemma_reads_one(t, i, la + o, la.len() as int);
                lemma_binary_kind(op);
                lemma_lxw_shape(*a, wa);
                lemma_lxw_shape(*b, wb);
                lemma_precedence_range(*a);
                lemma_precedence_range(*b);
                lemma_bin(t, i, *a, wa, k);
                lemma_name_end_suffix(la + o, lb);
                lemma_level(t, ja + 1, *b, wb, k + 1);
            },
            _ => {},
        }
    }
}

/// The percent level: the tokens of `x` parse to whatever the loop over
/// further `%` makes of `x`.
#[verifier::spinoff_prover]
pub proof fn lemma_pct(t: Seq<Tok>, i: int, x: Ex, w: bool)
    requires
        wf(x),
        eff(x, w) >= 6,
        reads(t, i, lxw(x, w)),
        stops(7, t[i + lxw(x, w).len()]),
        follows(lxw(x, w), t[i + lxw(x, w).len()]),
    ensures
        p_percent(t, i) == percent_tail(t, x, i + lxw(x, w).len()),
    decreases x, (if w {
        1int
    } else {
        0int
    }), 16int, 0int,
{
    lemma_lxw_shape(x, w);
    lemma_precedence_range(x);
    if eff(x, w) >= 7 {
        lemma_level(t, i, x, w, 7);
    } else {
        match x {
            Ex::Unary(op, a) => {
                let wa = precedence(*a) < 6;
                let la = lxw(*a, wa);
                let pc = seq![punct(Kind::Percent)];
                assert(lexemes(x) == la + pc);
                lemma_reads_split(t, i, la, pc);
                lemma_reads_one(t, i, lexemes(x), la.len() as int);
                lemma_lxw_shape(*a, wa);
                lemma_precedence_range(*a);
                lemma_pct(t, i, *a, wa);
            },
            _ => {},
        }
    }
}

/// The intersect level: the tokens of `x` parse to whatever the loop over
/// further spaced operands makes of `x`.
#[verifier::spinoff_prover]
#[verifier::rlimit(40)]
pub proof fn lemma_isect(t: Seq<Tok>, i: int, x: Ex, w: bool)
    requires
        wf(x),
        eff(x, w) >= 8,
        reads(t, i, lxw(x, w)),
        stops(9, t[i + lxw(x, w).len()]),
        follows(lxw(x, w), t[i + lxw(x, w).len()]),
    ensures
        p_intersect(t, i) == isect_tail(t, x, i + lxw(x, w).len()),
    decreases x, (if w {
        1int
    } else {
        0int
    }), 10int, 0int,
{
    lemma_lxw_shape(x, w);
    lemma_precedence_range(x);
    if eff(x, w) >= 9 {
        lemma_level(t, i, x, w, 9);
    } else {
        match x {
            Ex::Intersect(a, b) => {
                lemma_isect_shape(*a, *b);
                let wa = isect_wrap_left(*a, *b);
                let wb = isect_wrap_right(*b);
                let la = lxw(*a, wa);
                let lb = lxw(*b, wb);
                lemma_lxw_shape(*a, wa);
                lemma_lxw_shape(*b, wb);
                lemma_precedence_range(*a);
                lemma_precedence_range(*b);
                lemma_reads_split(t, i, la, spaced(lb));
                let ja = i + la.len();
                lemma_reads_one(t, i, lexemes(x), la.len() as int);
                assert(spaced(lb) + Seq::<Lx>::empty() =~= spaced(lb));
                assert(lb + Seq::<Lx>::empty() =~= lb);
                lemma_reads_spaced(t, ja, lb, Seq::empty());
                lemma_isect_ends(*a, *b, t[ja], t[i + lexemes(x).len()]);
                lemma_isect(t, i, *a, wa);
                lemma_level(t, ja, *b, wb, 9);
            },
            _ => {},
        }
    }
}

/// What may come after each operand of an intersection: the first token of
/// the right operand ends the left one, and whatever ends the intersection
/// ends the right operand.
pub proof fn lemma_isect_ends(a: Ex, b: Ex, mid: Tok, after: Tok)
    requires
        wf(Ex::Intersect(Box::new(a), Box::new(b))),
        mid.kind == lxw(b, isect_wrap_right(b))[0].kind,
        follows(lexemes(Ex::Intersect(Box::new(a), Box::new(b))), after),
    ensures
        stops(9, mid),
        follows(lxw(a, isect_wrap_left(a, b)), mid),
        follows(lxw(b, isect_wrap_right(b)), after),
{
    lemma_isect_shape(a, b);
    let la = lxw(a, isect_wrap_left(a, b));
    let lb = lxw(b, isect_wrap_right(b));
    lemma_lxw_shape(a, isect_wrap_left(a, b));
    lemma_lxw_shape(b, isect_wrap_right(b));
    crate::relex::lemma_last_lexeme(a);
    lemma_name_end_suffix(la, spaced(lb));
    lemma_name_end_spaced(lb);
    lemma_isect_follow(a, b);
}

/// The primary level.
#[verifier::spinoff_prover]
#[verifier::rlimit(40)]
pub proof fn lemma_prim(t: Seq<Tok>, i: int, x: Ex, w: bool)
    requires
        wf(x),
        eff(x, w) >= 10,
        reads(t, i, lxw(x, w)),
        follows(lxw(x, w), t[i + lxw(x, w).len()]),
    ensures
        p_primary(t, i) == PResult::Ok((x, i + lxw(x, w).len())),
    decreases x, (if w {
        1int
    } else {
        0int
    }), 4int, 0int,
{
    lemma_lxw_shape(x, w);
    lemma_precedence_range(x);
    let n = lxw(x, w).len() as int;
    if w {
        lemma_reads_paren(t, i, lexemes(x));
        lemma_level(t, i + 1, x, false, 1);
    } else {
        match x {
            Ex::Number(_) => {
                lemma_reads_one(t, i, lexemes(x), 0);
            },
            Ex::Text(_) => {
                lemma_reads_one(t, i, lexemes(x), 0);
            },
            Ex::Error(_) => {
                lemma_reads_one(t, i, lexemes(x), 0);
            },
            Ex::Union(items) => {
                lemma_prim_union(t, i, x);
            },
            Ex::Call(name, args) => {
                lemma_prim_call(t, i, x);
            },
            Ex::Array(rows) => {
                lemma_prim_array(t, i, rows);
            },
            _ => {
                lemma_prim_word(t, i, x);
            },
        }
    }
}

/// One step through the members of a list: a comma, then a member.
pub proof fn lemma_tail_step(t: Seq<Tok>, items: Seq<Ex>, m: int, j: int)
    requires
        0 <= m < items.len(),
        reads(t, j, lx_tail(items, m)),
    ensures
        0 <= j < t.len() - 1,
        t[j].kind is Comma,
        reads(t, j + 1, lexemes(items[m]) + lx_tail(items, m + 1)),
        j + 1 + (lexemes(items[m]) + lx_tail(items, m + 1)).len() == j + lx_tail(items, m).len(),
{
    let lm = lexemes(items[m]);
    let rest = lx_tail(items, m + 1);
    let c = seq![punct(Kind::Comma)];
    assert(lx_tail(items, m) == c + spaced(lm) + rest);
    assert(lx_tail(items, m) =~= c + (spaced(lm) + rest));
    lemma_reads_split(t, j, c, spaced(lm) + rest);
    lemma_reads_one(t, j, lx_tail(items, m), 0);
    lemma_reads_spaced(t, j + 1, lm, rest);
}

/// A member of a list, then what follows it: a comma before the next
/// member, or the closing parenthesis after the last.
pub proof fn lemma_member_step(t: Seq<Tok>, items: Seq<Ex>, m: int, j: int)
    requires
        0 <= m < items.len(),
        reads(t, j, lexemes(items[m]) + lx_tail(items, m + 1)),
        t[j + (lexemes(items[m]) + lx_tail(items, m + 1)).len()].kind is RParen,
    ensures
        reads(t, j, lexemes(items[m])),
        reads(t, j + lexemes(items[m]).len(), lx_tail(items, m + 1)),
        m + 1 < items.len() ==> t[j + lexemes(items[m]).len()].kind is Comma,
        m + 1 == items.len() ==> t[j + lexemes(items[m]).len()].kind is RParen,
        m + 1 == items.len() ==> lx_tail(items, m + 1).len() == 0,
{
    let lm = lexemes(items[m]);
    let rest = lx_tail(items, m + 1);
    lemma_reads_split(t, j, lm, rest);
    if m + 1 < items.len() {
        assert(rest == seq![punct(Kind::Comma)] + spaced(lexemes(items[m + 1])) + lx_tail(items, m + 2));
        lemma_reads_one(t, j + lm.len(), rest, 0);
    }
}

/// One member of a list, up to the comma or parenthesis after it.
#[verifier::spinoff_prover]
pub proof fn lemma_member(t: Seq<Tok>, j: int, x: Ex)
    requires
        wf(x),
        reads(t, j, lexemes(x)),
        t[j + lexemes(x).len()].kind is Comma || t[j + lexemes(x).len()].kind is RParen,
    ensures
        p_expr(t, j) == PResult::Ok((x, j + lexemes(x).len())),
        j < j + lexemes(x).len(),
    decreases x, 0int, 33int, 0int,
{
    lemma_precedence_range(x);
    lemma_lxw_shape(x, false);
    lemma_level(t, j, x, false, 1);
}

/// A union: its members in parentheses.
#[verifier::spinoff_prover]
#[verifier::rlimit(100)]
pub proof fn lemma_prim_union(t: Seq<Tok>, i: int, x: Ex)
    requires
        x is Union,
        wf(x),
        reads(t, i, lexemes(x)),
    ensures
        p_primary(t, i) == PResult::Ok((x, i + lexemes(x).len())),
    decreases x, 0int, 3int, 0int,
{
    match x {
        Ex::Union(items) => {
            let body = lx_list(items);
            lemma_reads_paren(t, i, body);
            lemma_lx_list_front(items);
            lemma_member_step(t, items, 0, i + 1);
            let j = i + 1 + lexemes(items[0]).len();
            lemma_wf_list(items, 0);
            lemma_member(t, i + 1, items[0]);
            assert(items.take(1) =~= seq![items[0]]);
            lemma_union_items(t, x, items, 1, j);
            let j2 = j + lx_tail(items, 1).len();
            assert(j2 == i + 1 + body.len());
            assert(t[i].kind is LParen);
            assert(t[j].kind is Comma);
            assert(p_expr(t, i + 1) == PResult::Ok((items[0], j)));
            assert(union_items(t, seq![items[0]], j) == LResult::Ok((items, j2)));
            assert(expect(t, j2, Kind::RParen) == Ok::<int, crate::lexer::Failure>(j2 + 1));
        },
        _ => {},
    }
}

/// The members of a union after the first `m`, each read after a comma.
#[verifier::spinoff_prover]
#[verifier::rlimit(40)]
pub proof fn lemma_union_items(t: Seq<Tok>, e: Ex, items: Seq<Ex>, m: int, j: int)
    requires
        e == Ex::Union(items),
        wf(e),
        1 <= m <= items.len(),
        reads(t, j, lx_tail(items, m)),
        t[j + lx_tail(items, m).len()].kind is RParen,
    ensures
        union_items(t, items.take(m), j) == LResult::Ok((items, j + lx_tail(items, m).len())),
    decreases e, 0int, 2int, items.len() - m,
{
    if m == items.len() {
        assert(items.take(m) =~= items);
    } else {
        lemma_tail_step(t, items, m, j);
        lemma_member_step(t, items, m, j + 1);
        let j2 = j + 1 + lexemes(items[m]).len();
        lemma_wf_list(items, m);
        lemma_precedence_range(items[m]);
        lemma_lxw_shape(items[m], false);
        lemma_member(t, j + 1, items[m]);
        assert(items.take(m).push(items[m]) =~= items.take(m + 1));
        lemma_union_items(t, e, items, m + 1, j2);
    }
}

/// Function arguments from the `m`-th on.
#[verifier::spinoff_prover]
#[verifier::rlimit(40)]
pub proof fn lemma_call_args(t: Seq<Tok>, e: Ex, items: Seq<Ex>, m: int, j: int)
    requires
        e matches Ex::Call(_, args) && args == items,
        wf(e),
        0 <= m < items.len(),
        reads(t, j, lexemes(items[m]) + lx_tail(items, m + 1)),
        t[j + (lexemes(items[m]) + lx_tail(items, m + 1)).len()].kind is RParen,
    ensures
        call_args(t, items.take(m), j) == LResult::Ok(
            (items, j + (lexemes(items[m]) + lx_tail(items, m + 1)).len()),
        ),
    decreases e, 0int, 2int, items.len() - m,
{
    lemma_member_step(t, items, m, j);
    let j2 = j + lexemes(items[m]).len();
    lemma_wf_list(items, m);
    lemma_member(t, j, items[m]);
    assert(items.take(m).push(items[m]) =~= items.take(m + 1));
    if m + 1 < items.len() {
        lemma_tail_step(t, items, m + 1, j2);
        lemma_call_args(t, e, items, m + 1, j2 + 1);
    } else {
        assert(items.take(m + 1) =~= items);
    }
}

/// A function call.
#[verifier::spinoff_prover]
#[verifier::rlimit(40)]
pub proof fn lemma_prim_call(t: Seq<Tok>, i: int, x: Ex)
    requires
        x is Call,
        wf(x),
        reads(t, i, lexemes(x)),
    ensures
        p_primary(t, i) == PResult::Ok((x, i + lexemes(x).len())),
    decreases x, 0int, 3int, 0int,
{
    match x {
        Ex::Call(name, args) => {
            let nm = upper(name);
            let head = seq![crate::lexemes::lx(Kind::Ident(nm), nm), punct(Kind::LParen)];
            let body = lx_list(args);
            let close = seq![punct(Kind::RParen)];
            assert(lexemes(x) == head + body + close);
            lemma_reads_split(t, i, head + body, close);
            lemma_reads_split(t, i, head, body);
            lemma_reads_one(t, i, lexemes(x), 0);
            lemma_reads_one(t, i, lexemes(x), 1);
            let j = i + 2 + body.len();
            lemma_reads_one(t, i, lexemes(x), (2 + body.len()) as int);
            assert(upper(nm) == name);
            if args.len() == 0 {
                assert(args =~= Seq::<Ex>::empty());
            } else {
                lemma_lx_list_front(args);
                lemma_wf_list(args, 0);
                lemma_lxw_shape(args[0], false);
                lemma_reads_one(t, i + 2, body, 0);
                assert(args.take(0) =~= Seq::<Ex>::empty());
                lemma_call_args(t, x, args, 0, i + 2);
            }
        },
        _ => {},
    }
}


/// Booleans, names and cell references: an identifier, for a reference
/// with a sheet the sheet, `!` and the identifier.
#[verifier::spinoff_prover]
pub proof fn lemma_prim_word(t: Seq<Tok>, i: int, x: Ex)
    requires
        x is Boolean || x is Name || x is Reference,
        wf(x),
        reads(t, i, lexemes(x)),
        follows(lexemes(x), t[i + lexemes(x).len()]),
    ensures
        p_primary(t, i) == PResult::Ok((x, i + lexemes(x).len())),
{
    lemma_reads_one(t, i, lexemes(x), 0);
    assert(upper(true_text()) =~= true_text());
    assert(upper(false_text()) =~= false_text());
    assert(true_text() =~= seq!['T', 'R', 'U', 'E']);
    assert(false_text() =~= seq!['F', 'A', 'L', 'S', 'E']);
    assert(lexemes(x).len() >= 1);
    match x {
        Ex::Reference(c) => {
            lemma_cell_ref_text(c);
            lemma_cell_text_not_word(c);
            let ct = cell_text(c);
            match c.sheet {
                Some(sh) => {
                    lemma_reads_one(t, i, lexemes(x), 1);
                    lemma_reads_one(t, i, lexemes(x), 2);
                },
                None => {
                    assert(c == Cell {
                        sheet: None,
                        col_absolute: c.col_absolute,
                        column: c.column,
                        row_absolute: c.row_absolute,
                        row: c.row,
                    });
                },
            }
        },
        _ => {},
    }
}

/// One constant of an array literal.
pub proof fn lemma_array_item(t: Seq<Tok>, j: int, x: Ex)
    requires
        is_constant(x),
        reads(t, j, lexemes(x)),
    ensures
        p_array_item(t, j) == PResult::Ok((x, j + lexemes(x).len())),
{
    lemma_reads_one(t, j, lexemes(x), 0);
    assert(upper(true_text()) =~= true_text());
    assert(upper(false_text()) =~= false_text());
    assert(true_text() =~= seq!['T', 'R', 'U', 'E']);
    assert(false_text() =~= seq!['F', 'A', 'L', 'S', 'E']);
    match x {
        Ex::Unary(op, a) => {
            assert(op == UnaryOp::Neg);
            match *a {
                Ex::Number(d) => {
                    assert(precedence(*a) == 10);
                    assert(lexemes(*a) == seq![
                        crate::lexemes::lx(Kind::Number(d), crate::number::render_decimal(d)),
                    ]);
                    assert(lexemes(x) =~= seq![
                        punct(Kind::Minus),
                        crate::lexemes::lx(Kind::Number(d), crate::number::render_decimal(d)),
                    ]);
                },
                _ => {},
            }
            lemma_reads_one(t, j, lexemes(x), 1);
        },
        _ => {},
    }
}

/// The constants of one row from the `m`-th on.
pub proof fn lemma_array_row(t: Seq<Tok>, items: Seq<Ex>, m: int, j: int)
    requires
        forall|k: int| 0 <= k < items.len() ==> is_constant(#[trigger] items[k]),
        0 <= m < items.len(),
        reads(t, j, lexemes(items[m]) + row_tail(items, m + 1)),
        !(t[j + (lexemes(items[m]) + row_tail(items, m + 1)).len()].kind is Comma),
    ensures
        array_row(t, items.take(m), j) == LResult::Ok(
            (items, j + (lexemes(items[m]) + row_tail(items, m + 1)).len()),
        ),
    decreases items.len() - m,
{
    let lm = lexemes(items[m]);
    let rest = row_tail(items, m + 1);
    lemma_reads_split(t, j, lm, rest);
    let j2 = j + lm.len();
    lemma_constant_wf(items[m]);
    lemma_first_lexeme(items[m]);
    lemma_array_item(t, j, items[m]);
    assert(items.take(m).push(items[m]) =~= items.take(m + 1));
    if m + 1 < items.len() {
        let ln = lexemes(items[m + 1]);
        let rest2 = row_tail(items, m + 2);
        let c = seq![punct(Kind::Comma)];
        assert(rest == c + ln + rest2);
        assert(rest =~= c + (ln + rest2));
        lemma_reads_one(t, j2, rest, 0);
        lemma_reads_split(t, j2, c, ln + rest2);
        lemma_array_row(t, items, m + 1, j2 + 1);
    } else {
        assert(items.take(m + 1) =~= items);
    }
}

/// The rows of an array literal from the `m`-th on.
pub proof fn lemma_array_rows(t: Seq<Tok>, rows: Seq<Seq<Ex>>, m: int, j: int)
    requires
        wf_rows(rows),
        0 <= m < rows.len(),
        reads(t, j, lx_row(rows[m]) + rows_tail(rows, m + 1)),
        t[j + (lx_row(rows[m]) + rows_tail(rows, m + 1)).len()].kind is RBrace,
    ensures
        array_rows(t, rows.take(m), j) == PResult::Ok(
            (Ex::Array(rows), j + (lx_row(rows[m]) + rows_tail(rows, m + 1)).len() + 1),
        ),
    decreases rows.len() - m,
{
    let row = rows[m];
    let lm = lx_row(row);
    let rest = rows_tail(rows, m + 1);
    lemma_reads_split(t, j, lm, rest);
    let j2 = j + lm.len();
    assert(row.len() >= 1);
    lemma_lx_row_split(row, 1);
    assert(row.take(1).len() == 1);
    assert(row.take(1)[0] == row[0]);
    assert(lm == lexemes(row[0]) + row_tail(row, 1));
    lemma_constant_wf(row[0]);
    lemma_first_lexeme(row[0]);
    assert(forall|k: int| 0 <= k < row.len() ==> is_constant(#[trigger] row[k]));
    assert(row.take(0) =~= Seq::<Ex>::empty());
    assert(rows.take(m).push(row) =~= rows.take(m + 1));
    if m + 1 < rows.len() {
        let ln = lx_row(rows[m + 1]);
        let rest2 = rows_tail(rows, m + 2);
        let c = seq![punct(Kind::Semicolon)];
        assert(rest == c + ln + rest2);
        assert(rest =~= c + (ln + rest2));
        lemma_reads_one(t, j2, rest, 0);
        lemma_array_row(t, row, 0, j);
        lemma_reads_split(t, j2, c, ln + rest2);
        lemma_array_rows(t, rows, m + 1, j2 + 1);
    } else {
        assert(rows.take(m + 1) =~= rows);
        lemma_array_row(t, row, 0, j);
    }
}

/// An array literal.
pub proof fn lemma_prim_array(t: Seq<Tok>, i: int, rows: Seq<Seq<Ex>>)
    requires
        wf(Ex::Array(rows)),
        reads(t, i, lexemes(Ex::Array(rows))),
    ensures
        p_primary(t, i) == PResult::Ok((Ex::Array(rows), i + lexemes(Ex::Array(rows)).len())),
{
    let x = Ex::Array(rows);
    let open = seq![punct(Kind::LBrace)];
    let body = lx_rows(rows);
    let close = seq![punct(Kind::RBrace)];
    assert(lexemes(x) == open + body + close);
    lemma_reads_split(t, i, open + body, close);
    lemma_reads_split(t, i, open, body);
    lemma_reads_one(t, i, lexemes(x), 0);
    lemma_reads_one(t, i, lexemes(x), (1 + body.len()) as int);
    lemma_lx_rows_split(rows, 1);
    assert(rows.take(1).len() == 1);
    assert(rows.take(1)[0] == rows[0]);
    assert(body == lx_row(rows[0]) + rows_tail(rows, 1));
    assert(rows.take(0) =~= Seq::<Seq<Ex>>::empty());
    lemma_array_rows(t, rows, 0, i + 1);
}

} // verus!
