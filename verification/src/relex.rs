//! The lexer reads canonical text back as its lexemes' tokens.
//!
//! Each lexeme of a well-formed tree is read as its own token provided the
//! character after it cannot continue it (`joins`); every pair of adjacent
//! lexemes in canonical text meets that condition.

use vstd::prelude::*;
use crate::chars::{spec_is_whitespace, is_ascii_digit, upper, upper_char};
use crate::number::{
    decimal_wf, render_decimal, number_value, number_end, starts_number, scan_digits, skip_zeros,
    trim_zeros_end, normalize, has_point, has_exponent, exp_value,
};
use crate::lexer::{
    Kind, Tok, is_ident_start, is_ident_char, quoted, ident_end, error_literal, literal_at,
    find_error_literal, lex_token, lex_from, skip_ws, punct as punct_at,
};
use crate::parser::{Ex, UnaryOp};
use crate::printer::{precedence, binary_precedence, double_quotes};
use crate::lexemes::{
    Lx, wf, wf_list, wf_rows, is_constant, lexemes, lx_list, lx_row, lx_rows, lx_paren_if, spaced,
    punct, binary_kind, ref_lx, lx, lx_ok, all_ok, is_punct, starts_expr, flat, lemma_lexemes_ok,
    lemma_lx_ok_chars, lemma_first_lexeme, lemma_wf_list, lemma_constant_wf, lemma_describe_punct,
    lemma_all_ok_paren_if,
};
use crate::reparse::{isect_wrap_left, isect_wrap_right, lemma_isect_shape, lxw, lemma_lxw_shape};

verus! {

// ---------------------------------------------------------------------------
// Adjacent lexemes.
// ---------------------------------------------------------------------------

/// The character that the lexer sees right after the lexeme before `y`.
pub open spec fn lead(y: Lx) -> char {
    if y.space {
        ' '
    } else {
        y.text[0]
    }
}

/// The character `c` cannot continue the lexeme `x`.
pub open spec fn ends_before(x: Lx, c: char) -> bool {
    &&& x.kind is Ident ==> !is_ident_char(c)
    &&& x.kind is Number ==> !is_ascii_digit(c) && c != '.' && c != 'e' && c != 'E'
    &&& x.kind is Text ==> c != '"'
    &&& x.kind is SheetName ==> c != '\''
    &&& x.kind is Lt ==> c != '=' && c != '>'
    &&& x.kind is Gt ==> c != '='
}

pub open spec fn joins(x: Lx, y: Lx) -> bool {
    ends_before(x, lead(y))
}

/// Every lexeme ends where the next one begins.
pub open spec fn chain_ok(ls: Seq<Lx>) -> bool {
    forall|k: int| 0 <= k < ls.len() - 1 ==> joins(#[trigger] ls[k], ls[k + 1])
}

/// The kinds of token an expression can end with.
pub open spec fn ends_expr(k: Kind) -> bool {
    ||| k is Number
    ||| k is Text
    ||| k is Ident
    ||| k is Error
    ||| k is RParen
    ||| k is RBrace
    ||| k is Percent
}

pub proof fn lemma_chain_append(a: Seq<Lx>, b: Seq<Lx>)
    requires
        chain_ok(a),
        chain_ok(b),
        a.len() > 0 && b.len() > 0 ==> joins(a.last(), b[0]),
    ensures
        chain_ok(a + b),
{
    let s = a + b;
    assert forall|k: int| 0 <= k < s.len() - 1 implies joins(#[trigger] s[k], s[k + 1]) by {
        if k < a.len() - 1 {
            assert(s[k] == a[k] && s[k + 1] == a[k + 1]);
        } else if k == a.len() - 1 {
            assert(s[k] == a.last() && s[k + 1] == b[0]);
        } else {
            assert(s[k] == b[k - a.len()] && s[k + 1] == b[k - a.len() + 1]);
        }
    }
}

pub proof fn lemma_chain_spaced(ls: Seq<Lx>)
    requires
        chain_ok(ls),
    ensures
        chain_ok(spaced(ls)),
{
    let s = spaced(ls);
    assert forall|k: int| 0 <= k < s.len() - 1 implies joins(#[trigger] s[k], s[k + 1]) by {
        assert(joins(ls[k], ls[k + 1]));
        assert(s[k + 1] == ls[k + 1]);
        assert(s[k].kind == ls[k].kind);
    }
}

/// A space ends every lexeme.
pub proof fn lemma_join_space(x: Lx, y: Lx)
    requires
        y.space,
    ensures
        joins(x, y),
{
}

/// An operator or punctuation mark ends the lexeme an expression ends with.
pub proof fn lemma_join_end_punct(x: Lx, k: Kind)
    requires
        ends_expr(x.kind),
        is_punct(k),
    ensures
        joins(x, punct(k)),
{
    lemma_describe_punct(k);
}

/// An expression's first lexeme ends an operator or punctuation mark.
pub proof fn lemma_join_punct_start(k: Kind, y: Lx)
    requires
        is_punct(k),
        starts_expr(y.kind),
        lx_ok(y),
    ensures
        joins(punct(k), y),
{
    lemma_lx_ok_chars(y);
    match y.kind {
        Kind::Number(d) => {
            crate::lexemes::lemma_render_decimal_ends(d);
        },
        Kind::Error(s) => {
            crate::lexemes::lemma_error_literal_chars(s);
        },
        _ => {},
    }
}

pub proof fn lemma_chain_paren_if(b: bool, ls: Seq<Lx>)
    requires
        chain_ok(ls),
        all_ok(ls),
        ls.len() > 0,
        starts_expr(ls[0].kind),
        ends_expr(ls.last().kind),
    ensures
        chain_ok(lx_paren_if(b, ls)),
        lx_paren_if(b, ls).len() > 0,
        starts_expr(lx_paren_if(b, ls)[0].kind),
        ends_expr(lx_paren_if(b, ls).last().kind),
{
    if b {
        let o = seq![punct(Kind::LParen)];
        let c = seq![punct(Kind::RParen)];
        assert(lx_ok(ls[0]));
        lemma_join_punct_start(Kind::LParen, ls[0]);
        lemma_join_end_punct(ls.last(), Kind::RParen);
        lemma_chain_append(o, ls);
        lemma_chain_append(o + ls, c);
    }
}

pub proof fn lemma_last_lexeme(e: Ex)
    requires
        wf(e),
    ensures
        ends_expr(lexemes(e).last().kind),
    decreases e,
{
    match e {
        Ex::Reference(c) => {
            match c.sheet {
                Some(_) => {},
                None => {},
            }
        },
        Ex::Range(a, b) => {
            lemma_last_lexeme(*b);
            lemma_first_lexeme(*b);
        },
        Ex::Intersect(a, b) => {
            lemma_isect_shape(*a, *b);
            lemma_last_lexeme(*b);
            lemma_lxw_shape(*b, isect_wrap_right(*b));
            let rl = lxw(*b, isect_wrap_right(*b));
            assert(spaced(rl).last().kind == rl.last().kind);
        },
        Ex::Unary(op, a) => {
            lemma_last_lexeme(*a);
            lemma_first_lexeme(*a);
        },
        Ex::Binary(op, a, b) => {
            lemma_last_lexeme(*b);
            lemma_first_lexeme(*b);
        },
        _ => {},
    }
}


/// The lexemes of an expression: each matches its token, adjacent ones
/// join, and they start and end as expressions do.
pub open spec fn good(ls: Seq<Lx>) -> bool {
    &&& chain_ok(ls)
    &&& all_ok(ls)
    &&& ls.len() > 0
    &&& starts_expr(ls[0].kind)
    &&& ends_expr(ls.last().kind)
    &&& !ls[0].space
}

pub proof fn lemma_good_paren_if(b: bool, ls: Seq<Lx>)
    requires
        good(ls),
    ensures
        good(lx_paren_if(b, ls)),
{
    lemma_chain_paren_if(b, ls);
    lemma_all_ok_paren_if(b, ls);
}

/// `a`, an operator or punctuation mark, then `b`.
pub proof fn lemma_good_infix(a: Seq<Lx>, k: Kind, b: Seq<Lx>)
    requires
        good(a),
        good(b),
        is_punct(k),
    ensures
        good(a + seq![punct(k)] + b),
{
    let o = seq![punct(k)];
    lemma_join_end_punct(a.last(), k);
    assert(lx_ok(b[0]));
    lemma_join_punct_start(k, b[0]);
    lemma_chain_append(a, o);
    lemma_chain_append(a + o, b);
    crate::lexemes::lemma_all_ok_punct(k);
    crate::lexemes::lemma_all_ok_append(a, o);
    crate::lexemes::lemma_all_ok_append(a + o, b);
}

/// `a`, a space, then `b`.
pub proof fn lemma_good_spaced(a: Seq<Lx>, b: Seq<Lx>)
    requires
        good(a),
        good(b),
    ensures
        good(a + spaced(b)),
{
    lemma_chain_spaced(b);
    lemma_join_space(a.last(), spaced(b)[0]);
    lemma_chain_append(a, spaced(b));
    crate::lexemes::lemma_all_ok_spaced(b);
    crate::lexemes::lemma_all_ok_append(a, spaced(b));
    assert(spaced(b).last().kind == b.last().kind);
}

/// `a`, a comma, a space, then `b`.
pub proof fn lemma_good_comma_spaced(a: Seq<Lx>, b: Seq<Lx>)
    requires
        good(a),
        good(b),
    ensures
        good(a + seq![punct(Kind::Comma)] + spaced(b)),
{
    let o = seq![punct(Kind::Comma)];
    lemma_join_end_punct(a.last(), Kind::Comma);
    lemma_chain_spaced(b);
    lemma_join_space(punct(Kind::Comma), spaced(b)[0]);
    lemma_chain_append(a, o);
    lemma_chain_append(a + o, spaced(b));
    crate::lexemes::lemma_all_ok_punct(Kind::Comma);
    crate::lexemes::lemma_all_ok_spaced(b);
    crate::lexemes::lemma_all_ok_append(a, o);
    crate::lexemes::lemma_all_ok_append(a + o, spaced(b));
    assert(spaced(b).last().kind == b.last().kind);
}

/// A prefix mark, then `b`.
pub proof fn lemma_good_prefix(k: Kind, b: Seq<Lx>)
    requires
        good(b),
        is_punct(k),
        starts_expr(k),
    ensures
        good(seq![punct(k)] + b),
{
    let o = seq![punct(k)];
    assert(lx_ok(b[0]));
    lemma_join_punct_start(k, b[0]);
    lemma_chain_append(o, b);
    crate::lexemes::lemma_all_ok_punct(k);
    crate::lexemes::lemma_all_ok_append(o, b);
}

/// `a`, then a closing mark.
pub proof fn lemma_good_suffix(a: Seq<Lx>, k: Kind)
    requires
        good(a),
        is_punct(k),
        ends_expr(k),
    ensures
        good(a + seq![punct(k)]),
{
    let o = seq![punct(k)];
    lemma_join_end_punct(a.last(), k);
    lemma_chain_append(a, o);
    crate::lexemes::lemma_all_ok_punct(k);
    crate::lexemes::lemma_all_ok_append(a, o);
}

pub proof fn lemma_good_lexemes(e: Ex)
    requires
        wf(e),
    ensures
        good(lexemes(e)),
    decreases e,
{
    match e {
        Ex::Reference(c) => {
            lemma_good_reference(e);
        },
        Ex::Range(a, b) => {
            lemma_good_lexemes(*a);
            lemma_good_lexemes(*b);
            lemma_good_range(*a, *b);
        },
        Ex::Intersect(a, b) => {
            lemma_good_lexemes(*a);
            lemma_good_lexemes(*b);
            lemma_good_intersect(*a, *b);
        },
        Ex::Union(items) => {
            lemma_good_list(items);
            lemma_good_paren_if(true, lx_list(items));
        },
        Ex::Array(rows) => {
            lemma_good_rows(rows);
            lemma_good_prefix(Kind::LBrace, lx_rows(rows));
            lemma_good_suffix(seq![punct(Kind::LBrace)] + lx_rows(rows), Kind::RBrace);
        },
        Ex::Unary(op, a) => {
            lemma_good_lexemes(*a);
            lemma_good_unary(op, *a);
        },
        Ex::Binary(op, a, b) => {
            lemma_good_lexemes(*a);
            lemma_good_lexemes(*b);
            lemma_good_binary(op, *a, *b);
        },
        Ex::Call(name, args) => {
            lemma_good_list(args);
            lemma_good_call(name, args);
        },
        _ => {
            lemma_lexemes_ok(e);
            lemma_first_lexeme(e);
            lemma_last_lexeme(e);
        },
    }
}

proof fn lemma_good_reference(e: Ex)
    requires
        e is Reference,
        wf(e),
    ensures
        good(lexemes(e)),
{
    lemma_lexemes_ok(e);
    lemma_first_lexeme(e);
    lemma_last_lexeme(e);
    match e {
        Ex::Reference(c) => {
            match c.sheet {
                Some(sh) => {
                    let ls = ref_lx(c);
                    lemma_describe_punct(Kind::Bang);
                    assert(joins(ls[0], ls[1]));
                    assert(joins(ls[1], ls[2]));
                    assert(chain_ok(ls));
                },
                None => {},
            }
        },
        _ => {},
    }
}

proof fn lemma_good_range(a: Ex, b: Ex)
    requires
        good(lexemes(a)),
        good(lexemes(b)),
    ensures
        good(lexemes(Ex::Range(Box::new(a), Box::new(b)))),
{
    lemma_good_paren_if(precedence(a) < 10, lexemes(a));
    lemma_good_paren_if(precedence(b) < 10, lexemes(b));
    lemma_good_infix(
        lx_paren_if(precedence(a) < 10, lexemes(a)),
        Kind::Colon,
        lx_paren_if(precedence(b) < 10, lexemes(b)),
    );
}

proof fn lemma_good_intersect(a: Ex, b: Ex)
    requires
        wf(Ex::Intersect(Box::new(a), Box::new(b))),
        good(lexemes(a)),
        good(lexemes(b)),
    ensures
        good(lexemes(Ex::Intersect(Box::new(a), Box::new(b)))),
{
    lemma_isect_shape(a, b);
    lemma_good_paren_if(isect_wrap_left(a, b), lexemes(a));
    lemma_good_paren_if(isect_wrap_right(b), lexemes(b));
    lemma_good_spaced(lxw(a, isect_wrap_left(a, b)), lxw(b, isect_wrap_right(b)));
}

proof fn lemma_good_unary(op: UnaryOp, a: Ex)
    requires
        good(lexemes(a)),
    ensures
        good(lexemes(Ex::Unary(op, Box::new(a)))),
{
    lemma_good_paren_if(precedence(a) < 7, lexemes(a));
    lemma_good_paren_if(precedence(a) < 6, lexemes(a));
    match op {
        UnaryOp::Neg => {
            lemma_good_prefix(Kind::Minus, lx_paren_if(precedence(a) < 7, lexemes(a)));
        },
        UnaryOp::Pos => {
            lemma_good_prefix(Kind::Plus, lx_paren_if(precedence(a) < 7, lexemes(a)));
        },
        UnaryOp::Percent => {
            lemma_good_suffix(lx_paren_if(precedence(a) < 6, lexemes(a)), Kind::Percent);
        },
    }
}

proof fn lemma_good_binary(op: crate::parser::BinaryOp, a: Ex, b: Ex)
    requires
        good(lexemes(a)),
        good(lexemes(b)),
    ensures
        good(lexemes(Ex::Binary(op, Box::new(a), Box::new(b)))),
{
    let p = binary_precedence(op);
    lemma_good_paren_if(precedence(a) < p, lexemes(a));
    lemma_good_paren_if(precedence(b) <= p, lexemes(b));
    lemma_good_infix(
        lx_paren_if(precedence(a) < p, lexemes(a)),
        binary_kind(op),
        lx_paren_if(precedence(b) <= p, lexemes(b)),
    );
}

proof fn lemma_good_call(name: Seq<char>, args: Seq<Ex>)
    requires
        wf(Ex::Call(name, args)),
        args.len() > 0 ==> good(lx_list(args)),
        args.len() == 0 ==> lx_list(args).len() == 0,
    ensures
        good(lexemes(Ex::Call(name, args))),
{
    let e = Ex::Call(name, args);
    lemma_lexemes_ok(e);
    lemma_first_lexeme(e);
    lemma_last_lexeme(e);
    let id = lx(Kind::Ident(crate::chars::upper(name)), crate::chars::upper(name));
    let head = seq![id, punct(Kind::LParen)];
    let body = lx_list(args);
    let close = seq![punct(Kind::RParen)];
    assert(lexemes(e) == head + body + close);
    lemma_join_end_punct(id, Kind::LParen);
    assert(chain_ok(head));
    if args.len() > 0 {
        assert(lx_ok(body[0]));
        lemma_join_punct_start(Kind::LParen, body[0]);
        lemma_join_end_punct(body.last(), Kind::RParen);
        lemma_chain_append(head, body);
        lemma_chain_append(head + body, close);
    } else {
        assert(head + body =~= head);
        lemma_describe_punct(Kind::RParen);
        assert(joins(head.last(), close[0]));
        lemma_chain_append(head, close);
    }
}

pub proof fn lemma_good_list(items: Seq<Ex>)
    requires
        wf_list(items),
    ensures
        items.len() > 0 ==> good(lx_list(items)),
        items.len() == 0 ==> lx_list(items).len() == 0,
    decreases items,
{
    if items.len() == 1 {
        lemma_wf_list(items, 0);
        lemma_good_lexemes(items[0]);
    } else if items.len() > 1 {
        lemma_good_list(items.drop_last());
        lemma_wf_list(items, items.len() - 1);
        lemma_good_lexemes(items.last());
        lemma_good_comma_spaced(lx_list(items.drop_last()), lexemes(items.last()));
    }
}

pub proof fn lemma_good_row(items: Seq<Ex>)
    requires
        items.len() > 0,
        forall|j: int| 0 <= j < items.len() ==> is_constant(#[trigger] items[j]),
    ensures
        good(lx_row(items)),
    decreases items,
{
    if items.len() == 1 {
        lemma_constant_wf(items[0]);
        lemma_good_lexemes(items[0]);
    } else {
        lemma_good_row(items.drop_last());
        lemma_constant_wf(items.last());
        lemma_good_lexemes(items.last());
        lemma_good_infix(lx_row(items.drop_last()), Kind::Comma, lexemes(items.last()));
    }
}

pub proof fn lemma_good_rows(rows: Seq<Seq<Ex>>)
    requires
        rows.len() > 0,
        wf_rows(rows),
    ensures
        good(lx_rows(rows)),
    decreases rows,
{
    if rows.len() == 1 {
        assert(rows[0].len() >= 1);
        lemma_good_row(rows[0]);
    } else {
        assert(wf_rows(rows.drop_last()));
        lemma_good_rows(rows.drop_last());
        let last = rows.last();
        assert(rows[rows.len() - 1] == last);
        lemma_good_row(last);
        lemma_good_infix(lx_rows(rows.drop_last()), Kind::Semicolon, lx_row(last));
    }
}


// ---------------------------------------------------------------------------
// Number literals read back.
// ---------------------------------------------------------------------------

proof fn lemma_scan_digits_at(s: Seq<char>, i: int, e: int)
    requires
        0 <= i <= e <= s.len(),
        forall|k: int| i <= k < e ==> is_ascii_digit(#[trigger] s[k]),
        e < s.len() ==> !is_ascii_digit(s[e]),
    ensures
        scan_digits(s, i) == e,
    decreases e - i,
{
    if i < e {
        lemma_scan_digits_at(s, i + 1, e);
    }
}

proof fn lemma_skip_zeros_at(s: Seq<char>, i: int, e: int)
    requires
        0 <= i <= e <= s.len(),
        forall|k: int| i <= k < e ==> #[trigger] s[k] == '0',
        e < s.len() ==> s[e] != '0',
    ensures
        skip_zeros(s, i) == e,
    decreases e - i,
{
    if i < e {
        lemma_skip_zeros_at(s, i + 1, e);
    }
}

proof fn lemma_trim_zeros_at(s: Seq<char>, lo: int, j: int, e: int)
    requires
        0 <= lo <= e <= j <= s.len(),
        forall|k: int| e <= k < j ==> #[trigger] s[k] == '0',
        lo < e ==> s[e - 1] != '0',
    ensures
        trim_zeros_end(s, lo, j) == e,
    decreases j - e,
{
    if e < j {
        lemma_trim_zeros_at(s, lo, j - 1, e);
    }
}

/// What may follow a number literal without running into it.
pub open spec fn number_stops(s: Seq<char>, e: int) -> bool {
    e < s.len() ==> !is_ascii_digit(s[e]) && s[e] != '.' && s[e] != 'e' && s[e] != 'E'
}

/// The plain text of a decimal in normal form reads back as that decimal.
#[verifier::spinoff_prover]
#[verifier::rlimit(80)]
pub proof fn lemma_lex_number(s: Seq<char>, q: int, d: (Seq<char>, int))
    requires
        decimal_wf(d),
        0 <= q,
        q + render_decimal(d).len() <= s.len(),
        s.subrange(q, q + render_decimal(d).len()) == render_decimal(d),
        number_stops(s, q + render_decimal(d).len()),
    ensures
        starts_number(s, q),
        number_end(s, q) == q + render_decimal(d).len(),
        number_value(s, q) == d,
{
    let text = render_decimal(d);
    let big_n = text.len() as int;
    let digits = d.0;
    let x = d.1;
    let n = digits.len() as int;
    let e = q + big_n;
    assert forall|k: int| 0 <= k < big_n implies s[q + k] == #[trigger] text[k] by {
        assert(s.subrange(q, e)[k] == s[q + k]);
    }
    assert(!has_exponent(s, q) ==> exp_value(s, q) == 0);
    if n == 0 {
        assert(text == seq!['0']);
        assert(s[q] == '0');
        lemma_scan_digits_at(s, q, q + 1);
        assert(!has_point(s, q));
        lemma_scan_digits_at(s, q + 1, q + 1);
        assert(!has_exponent(s, q));
        let sig = s.subrange(q, q + 1) + s.subrange(q + 1, q + 1);
        assert(sig =~= seq!['0']);
        lemma_skip_zeros_at(sig, 0, 1);
        assert(number_value(s, q) == normalize(sig, 0));
    } else if x >= 0 {
        let z = Seq::new(x as nat, |i: int| '0');
        assert(text == digits + z);
        assert forall|k: int| q <= k < e implies is_ascii_digit(#[trigger] s[k]) by {
            assert(s[k] == text[k - q]);
            if k - q < n {
                assert(text[k - q] == digits[k - q]);
            } else {
                assert(text[k - q] == z[k - q - n]);
            }
        }
        lemma_scan_digits_at(s, q, e);
        assert(!has_point(s, q));
        lemma_scan_digits_at(s, e, e);
        assert(!has_exponent(s, q));
        let sig = s.subrange(q, e) + s.subrange(e, e);
        assert(sig =~= text);
        assert(text[0] == digits[0]);
        lemma_skip_zeros_at(sig, 0, 0);
        assert forall|k: int| n <= k < big_n implies #[trigger] sig[k] == '0' by {
            assert(text[k] == z[k - n]);
        }
        assert(sig[n - 1] == digits[n - 1]);
        lemma_trim_zeros_at(sig, 0, big_n, n);
        assert(sig.subrange(0, n) =~= digits);
        assert(number_value(s, q) == normalize(sig, 0));
    } else if -x < n {
        let m = n + x;
        assert(text == digits.take(m) + seq!['.'] + digits.skip(m));
        assert(big_n == n + 1);
        assert forall|k: int| q <= k < q + m implies is_ascii_digit(#[trigger] s[k]) by {
            assert(s[k] == text[k - q]);
            assert(text[k - q] == digits[k - q]);
        }
        assert(s[q + m] == text[m]);
        lemma_scan_digits_at(s, q, q + m);
        assert(has_point(s, q));
        assert forall|k: int| q + m + 1 <= k < e implies is_ascii_digit(#[trigger] s[k]) by {
            assert(s[k] == text[k - q]);
            assert(text[k - q] == digits[k - q - 1]);
        }
        lemma_scan_digits_at(s, q + m + 1, e);
        assert(!has_exponent(s, q));
        let sig = s.subrange(q, q + m) + s.subrange(q + m + 1, e);
        assert forall|k: int| 0 <= k < n implies #[trigger] sig[k] == digits[k] by {
            if k < m {
                assert(sig[k] == s[q + k]);
                assert(text[k] == digits[k]);
            } else {
                assert(sig[k] == s[q + k + 1]);
                assert(text[k + 1] == digits[k]);
            }
        }
        assert(sig =~= digits);
        lemma_skip_zeros_at(sig, 0, 0);
        lemma_trim_zeros_at(sig, 0, n, n);
        assert(sig.subrange(0, n) =~= digits);
        assert(number_value(s, q) == normalize(sig, 0 - (e - (q + m + 1))));
    } else {
        let z = Seq::new((-x - n) as nat, |i: int| '0');
        let zl = -x - n;
        assert(text == seq!['0', '.'] + z + digits);
        assert(big_n == 2 + zl + n);
        assert(s[q] == text[0]);
        assert(s[q + 1] == text[1]);
        lemma_scan_digits_at(s, q, q + 1);
        assert(has_point(s, q));
        assert forall|k: int| q + 2 <= k < e implies is_ascii_digit(#[trigger] s[k]) by {
            assert(s[k] == text[k - q]);
            if k - q < 2 + zl {
                assert(text[k - q] == z[k - q - 2]);
            } else {
                assert(text[k - q] == digits[k - q - 2 - zl]);
            }
        }
        lemma_scan_digits_at(s, q + 2, e);
        assert(!has_exponent(s, q));
        let sig = s.subrange(q, q + 1) + s.subrange(q + 2, e);
        assert(sig.len() == 1 + zl + n);
        assert forall|k: int| 0 <= k < 1 + zl implies #[trigger] sig[k] == '0' by {
            if k == 0 {
                assert(sig[0] == s[q]);
            } else {
                assert(sig[k] == s[q + 1 + k]);
                assert(text[k + 1] == z[k - 1]);
            }
        }
        assert forall|k: int| 1 + zl <= k < 1 + zl + n implies #[trigger] sig[k] == digits[k - 1 - zl] by {
            assert(sig[k] == s[q + 1 + k]);
            assert(text[k + 1] == digits[k - 1 - zl]);
        }
        assert(sig[1 + zl] == digits[0]);
        lemma_skip_zeros_at(sig, 0, 1 + zl);
        lemma_trim_zeros_at(sig, 1 + zl, 1 + zl + n, 1 + zl + n);
        assert(sig.subrange(1 + zl, 1 + zl + n) =~= digits);
        assert(number_value(s, q) == normalize(sig, 0 - (e - (q + 2))));
    }
}


// ---------------------------------------------------------------------------
// Quoted literals, identifiers and error values read back.
// ---------------------------------------------------------------------------

/// Doubling quotes, seen from the front.
pub proof fn lemma_double_quotes_front(c: char, rest: Seq<char>, qc: char)
    ensures
        double_quotes(seq![c] + rest, qc) == (if c == qc {
            seq![qc, qc]
        } else {
            seq![c]
        }) + double_quotes(rest, qc),
    decreases rest.len(),
{
    let head: Seq<char> = if c == qc {
        seq![qc, qc]
    } else {
        seq![c]
    };
    if rest.len() == 0 {
        assert(seq![c] + rest =~= seq![c]);
        assert(seq![c].drop_last() =~= Seq::<char>::empty());
        assert(double_quotes(Seq::<char>::empty(), qc) == Seq::<char>::empty());
        assert(double_quotes(seq![c], qc) =~= Seq::<char>::empty() + head);
        assert(head + double_quotes(rest, qc) =~= head);
    } else {
        lemma_double_quotes_front(c, rest.drop_last(), qc);
        let whole = seq![c] + rest;
        assert(whole.drop_last() =~= seq![c] + rest.drop_last());
        assert(whole.last() == rest.last());
        let tail: Seq<char> = if rest.last() == qc {
            seq![qc, qc]
        } else {
            seq![rest.last()]
        };
        assert(double_quotes(whole, qc) == double_quotes(seq![c] + rest.drop_last(), qc) + tail);
        assert(double_quotes(rest, qc) == double_quotes(rest.drop_last(), qc) + tail);
        assert(double_quotes(whole, qc) =~= head + double_quotes(rest, qc));
    }
}

/// A body written with doubled quotes and a closing quote reads back as the
/// body, provided no quote follows.
pub proof fn lemma_lex_quoted(s: Seq<char>, i: int, body: Seq<char>, qc: char)
    requires
        0 <= i,
        i + double_quotes(body, qc).len() < s.len(),
        s.subrange(i, i + double_quotes(body, qc).len()) == double_quotes(body, qc),
        s[i + double_quotes(body, qc).len()] == qc,
        i + double_quotes(body, qc).len() + 1 < s.len() ==> s[i + double_quotes(body, qc).len() + 1]
            != qc,
    ensures
        quoted(s, i, qc) == Some((body, i + double_quotes(body, qc).len() + 1)),
    decreases body.len(),
{
    let dq = double_quotes(body, qc);
    if body.len() == 0 {
        assert(dq.len() == 0);
    } else {
        let c = body[0];
        let rest = body.subrange(1, body.len() as int);
        assert(body =~= seq![c] + rest);
        lemma_double_quotes_front(c, rest, qc);
        let dr = double_quotes(rest, qc);
        if c == qc {
            assert(dq == seq![qc, qc] + dr);
            assert(s[i] == dq[0]);
            assert(s[i + 1] == dq[1]);
            assert forall|k: int| 0 <= k < dr.len() implies s.subrange(i + 2, i + 2 + dr.len())[k]
                == dr[k] by {
                assert(s.subrange(i, i + dq.len())[k + 2] == dq[k + 2]);
            }
            assert(s.subrange(i + 2, i + 2 + dr.len()) =~= dr);
            lemma_lex_quoted(s, i + 2, rest, qc);
            assert(seq![qc] + rest =~= body);
        } else {
            assert(dq == seq![c] + dr);
            assert(s[i] == dq[0]);
            assert forall|k: int| 0 <= k < dr.len() implies s.subrange(i + 1, i + 1 + dr.len())[k]
                == dr[k] by {
                assert(s.subrange(i, i + dq.len())[k + 1] == dq[k + 1]);
            }
            assert(s.subrange(i + 1, i + 1 + dr.len()) =~= dr);
            lemma_lex_quoted(s, i + 1, rest, qc);
            assert(seq![s[i]] + rest =~= body);
        }
    }
}

pub proof fn lemma_ident_end_at(s: Seq<char>, i: int, e: int)
    requires
        0 <= i <= e <= s.len(),
        forall|k: int| i <= k < e ==> is_ident_char(#[trigger] s[k]),
        e < s.len() ==> !is_ident_char(s[e]),
    ensures
        ident_end(s, i) == e,
    decreases e - i,
{
    if i < e {
        lemma_ident_end_at(s, i + 1, e);
    }
}

/// Three characters after the `#` tell the error literals apart.
pub proof fn lemma_error_literals_distinct(k: int, m: int)
    requires
        0 <= k < 8,
        0 <= m < 8,
        error_literal(k)[1] == error_literal(m)[1],
        error_literal(k)[2] == error_literal(m)[2],
        error_literal(k)[3] == error_literal(m)[3],
    ensures
        k == m,
{
}

/// The error literals are written in upper case already.
pub proof fn lemma_error_literal_upper(k: int)
    requires
        0 <= k < 8,
    ensures
        error_literal(k).len() >= 4,
        forall|j: int| 0 <= j < error_literal(k).len() ==> upper_char(#[trigger] error_literal(k)[j]) == error_literal(k)[j],
{
}

/// An error literal, written in any mix of ASCII case, is found as the
/// literal in its canonical spelling.
pub proof fn lemma_lex_error(s: Seq<char>, q: int, k: int)
    requires
        0 <= k < 8,
        0 <= q,
        q + error_literal(k).len() <= s.len(),
        upper(s.subrange(q, q + error_literal(k).len())) == error_literal(k),
    ensures
        find_error_literal(s, q, 0) == Some(error_literal(k)),
{
    let lit = error_literal(k);
    lemma_error_literal_upper(k);
    let u = upper(s.subrange(q, q + lit.len()));
    assert(literal_at(s, q, k));
    assert forall|m: int| 0 <= m < 8 && m != k implies !literal_at(s, q, m) by {
        let lm = error_literal(m);
        lemma_error_literal_upper(m);
        if literal_at(s, q, m) {
            let um = upper(s.subrange(q, q + lm.len()));
            assert(um == lm);
            assert(um[1] == upper_char(s[q + 1]) && u[1] == upper_char(s[q + 1]));
            assert(um[2] == upper_char(s[q + 2]) && u[2] == upper_char(s[q + 2]));
            assert(um[3] == upper_char(s[q + 3]) && u[3] == upper_char(s[q + 3]));
            lemma_error_literals_distinct(k, m);
        }
    }
    lemma_find_from(s, q, 0, k);
}

/// Error literals are matched without regard to ASCII case and come out in
/// their canonical upper-case spelling: where the text from `i` on spells
/// error literal `k` in any case, the lexer reads that literal there.
pub proof fn law_error_literal_any_case(s: Seq<char>, i: int, k: int)
    requires
        0 <= k < 8,
        0 <= i,
        i + error_literal(k).len() <= s.len(),
        upper(s.subrange(i, i + error_literal(k).len())) == error_literal(k),
    ensures
        lex_token(s, i) == Ok::<(Tok, int), crate::lexer::Failure>(
            (
                Tok { kind: Kind::Error(error_literal(k)), pos: i, after_space: false },
                i + error_literal(k).len(),
            ),
        ),
{
    let lit = error_literal(k);
    lemma_error_literal_upper(k);
    let u = upper(s.subrange(i, i + lit.len()));
    assert(u[0] == upper_char(s[i]));
    assert(lit[0] == '#');
    assert(s[i] == '#');
    assert(skip_ws(s, i) == i);
    lemma_lex_error(s, i, k);
}

proof fn lemma_find_from(s: Seq<char>, q: int, j: int, k: int)
    requires
        0 <= j <= k < 8,
        literal_at(s, q, k),
        forall|m: int| 0 <= m < 8 && m != k ==> !literal_at(s, q, m),
    ensures
        find_error_literal(s, q, j) == Some(error_literal(k)),
    decreases k - j,
{
    if j < k {
        lemma_find_from(s, q, j + 1, k);
    }
}


// ---------------------------------------------------------------------------
// One lexeme read as one token.
// ---------------------------------------------------------------------------

/// The characters written for a lexeme: a space if it has one, then its
/// text.
pub open spec fn written(x: Lx) -> Seq<char> {
    (if x.space {
        seq![' ']
    } else {
        Seq::<char>::empty()
    }) + x.text
}

/// `s` holds the lexeme `x` at `p`, and what follows cannot continue it.
pub open spec fn holds_at(s: Seq<char>, p: int, x: Lx) -> bool {
    &&& 0 <= p
    &&& p + written(x).len() <= s.len()
    &&& s.subrange(p, p + written(x).len()) == written(x)
    &&& p + written(x).len() < s.len() ==> ends_before(x, s[p + written(x).len()])
}

/// The token the lexer should find for `x` at `p`.
pub open spec fn token_ok(r: Result<(Tok, int), crate::lexer::Failure>, x: Lx, e: int) -> bool {
    r matches Ok((tk, j)) && tk.kind == x.kind && tk.after_space == x.space && j == e
}

/// Characters that start an identifier are none of the other openers.
pub proof fn lemma_ident_start_char(c: char)
    requires
        is_ident_start(c),
    ensures
        c != '"',
        c != '\'',
        c != '#',
        c != '.',
        !is_ascii_digit(c),
{
}

/// An operator or punctuation mark read back.
#[verifier::spinoff_prover]
pub proof fn lemma_lex_mark(s: Seq<char>, q: int, x: Lx)
    requires
        lx_ok(x),
        is_punct(x.kind),
        0 <= q,
        q + x.text.len() <= s.len(),
        s.subrange(q, q + x.text.len()) == x.text,
        q + x.text.len() < s.len() ==> ends_before(x, s[q + x.text.len()]),
    ensures
        s[q] != '"' && s[q] != '\'' && s[q] != '#',
        !starts_number(s, q),
        !is_ident_start(s[q]),
        punct_at(s, q) == Some((x.kind, q + x.text.len())),
{
    let t = x.text;
    assert forall|k: int| 0 <= k < t.len() implies s[q + k] == #[trigger] t[k] by {
        assert(s.subrange(q, q + t.len())[k] == s[q + k]);
    }
    assert(s[q] == t[0]);
    if t.len() == 2 {
        assert(s[q + 1] == t[1]);
    }
}

/// An identifier read back.
#[verifier::spinoff_prover]
pub proof fn lemma_lex_word(s: Seq<char>, q: int, x: Lx)
    requires
        lx_ok(x),
        x.kind is Ident,
        0 <= q,
        q + x.text.len() <= s.len(),
        s.subrange(q, q + x.text.len()) == x.text,
        q + x.text.len() < s.len() ==> ends_before(x, s[q + x.text.len()]),
    ensures
        s[q] != '"' && s[q] != '\'' && s[q] != '#',
        !starts_number(s, q),
        is_ident_start(s[q]),
        ident_end(s, q + 1) == q + x.text.len(),
        s.subrange(q, q + x.text.len()) == x.text,
{
    let t = x.text;
    assert forall|k: int| 0 <= k < t.len() implies s[q + k] == #[trigger] t[k] by {
        assert(s.subrange(q, q + t.len())[k] == s[q + k]);
    }
    assert(s[q] == t[0]);
    lemma_ident_start_char(t[0]);
    assert forall|k: int| q + 1 <= k < q + t.len() implies is_ident_char(#[trigger] s[k]) by {
        assert(s[k] == t[k - q]);
    }
    lemma_ident_end_at(s, q + 1, q + t.len());
}

/// A lexeme held at `p` is read as its token, and the lexer goes on right
/// after it.
#[verifier::spinoff_prover]
#[verifier::rlimit(80)]
pub proof fn lemma_lex_lexeme(s: Seq<char>, p: int, x: Lx)
    requires
        lx_ok(x),
        holds_at(s, p, x),
    ensures
        token_ok(lex_token(s, p), x, p + written(x).len()),
{
    lemma_lx_ok_chars(x);
    let w = written(x);
    let sp: int = if x.space {
        1
    } else {
        0
    };
    let q = p + sp;
    let t = x.text;
    let e = q + t.len();
    assert(w.len() == sp + t.len());
    assert forall|k: int| 0 <= k < w.len() implies s[p + k] == #[trigger] w[k] by {
        assert(s.subrange(p, p + w.len())[k] == s[p + k]);
    }
    assert forall|k: int| 0 <= k < t.len() implies s[q + k] == #[trigger] t[k] by {
        assert(w[sp + k] == t[k]);
        assert(s[p + (sp + k)] == w[sp + k]);
    }
    assert(s.subrange(q, e) =~= t);
    assert(s[q] == t[0]);
    if x.space {
        assert(s[p] == w[0]);
        assert(spec_is_whitespace(s[p]));
        assert(skip_ws(s, p + 1) == p + 1);
    }
    assert(skip_ws(s, p) == q);
    match x.kind {
        Kind::Number(d) => {
            crate::lexemes::lemma_render_decimal_ends(d);
            lemma_lex_number(s, q, d);
        },
        Kind::Text(body) => {
            let dq = double_quotes(body, '"');
            assert(t == seq!['"'] + dq + seq!['"']);
            assert(s.subrange(q + 1, q + 1 + dq.len()) =~= dq) by {
                assert forall|k: int| 0 <= k < dq.len() implies s.subrange(q + 1, q + 1 + dq.len())[k] == dq[k] by {
                    assert(t[k + 1] == dq[k]);
                }
            }
            assert(s[q + 1 + dq.len()] == t[t.len() - 1]);
            lemma_lex_quoted(s, q + 1, body, '"');
        },
        Kind::SheetName(body) => {
            let dq = double_quotes(body, '\'');
            assert(t == seq!['\''] + dq + seq!['\'']);
            assert(s.subrange(q + 1, q + 1 + dq.len()) =~= dq) by {
                assert forall|k: int| 0 <= k < dq.len() implies s.subrange(q + 1, q + 1 + dq.len())[k] == dq[k] by {
                    assert(t[k + 1] == dq[k]);
                }
            }
            assert(s[q + 1 + dq.len()] == t[t.len() - 1]);
            lemma_lex_quoted(s, q + 1, body, '\'');
        },
        Kind::Error(lit) => {
            crate::lexemes::lemma_error_literal_chars(lit);
            let k = choose|k: int| 0 <= k < 8 && lit == #[trigger] error_literal(k);
            lemma_error_literal_upper(k);
            assert(upper(s.subrange(q, q + lit.len())) =~= lit);
            lemma_lex_error(s, q, k);
        },
        Kind::Ident(name) => {
            lemma_lex_word(s, q, x);
        },
        Kind::Eof => {},
        _ => {
            lemma_lex_mark(s, q, x);
        },
    }
}


// ---------------------------------------------------------------------------
// A whole sequence of lexemes read as its tokens.
// ---------------------------------------------------------------------------

/// `r` holds, in order, the tokens of the lexemes `ls` from the `k`-th on,
/// then the end.
pub open spec fn tokens_of(r: Seq<Tok>, ls: Seq<Lx>, k: int) -> bool {
    &&& r.len() == ls.len() - k + 1
    &&& r.last().kind is Eof
    &&& forall|j: int|
        0 <= j < ls.len() - k ==> (#[trigger] r[j]).kind == ls[k + j].kind && r[j].after_space
            == ls[k + j].space
}

pub proof fn lemma_flat_one_written(x: Lx)
    ensures
        flat(seq![x]) == written(x),
{
    crate::lexemes::lemma_flat_one(x);
}

pub proof fn lemma_flat_lead(y: Lx, rest: Seq<Lx>)
    requires
        y.text.len() > 0,
    ensures
        flat(seq![y] + rest).len() > 0,
        flat(seq![y] + rest)[0] == lead(y),
{
    crate::lexemes::lemma_flat_append(seq![y], rest);
    lemma_flat_one_written(y);
}

#[verifier::spinoff_prover]
#[verifier::rlimit(60)]
pub proof fn lemma_lex_seq(s: Seq<char>, ls: Seq<Lx>, k: int)
    requires
        all_ok(ls),
        chain_ok(ls),
        s == flat(ls),
        0 <= k <= ls.len(),
    ensures
        lex_from(s, flat(ls.take(k)).len() as int) matches Ok(r) && tokens_of(r, ls, k),
    decreases ls.len() - k,
{
    let p = flat(ls.take(k)).len() as int;
    if k == ls.len() {
        assert(ls.take(k) =~= ls);
        assert(skip_ws(s, p) == p);
    } else {
        let x = ls[k];
        let pre = ls.take(k);
        let post = ls.subrange(k + 1, ls.len() as int);
        assert(ls =~= pre + seq![x] + post);
        assert(ls.take(k + 1) =~= pre + seq![x]);
        crate::lexemes::lemma_flat_append(pre + seq![x], post);
        crate::lexemes::lemma_flat_append(pre, seq![x]);
        lemma_flat_one_written(x);
        assert(lx_ok(x));
        lemma_lx_ok_chars(x);
        let w = written(x);
        let fp = flat(pre);
        let fpost = flat(post);
        assert(s == fp + w + fpost);
        assert(s.subrange(p, p + w.len()) =~= w);
        if k + 1 < ls.len() {
            let y = ls[k + 1];
            assert(lx_ok(y));
            lemma_lx_ok_chars(y);
            assert(post =~= seq![y] + post.subrange(1, post.len() as int));
            lemma_flat_lead(y, post.subrange(1, post.len() as int));
            assert(s[p + w.len()] == fpost[0]);
            assert(joins(ls[k], ls[k + 1]));
        } else {
            assert(post.len() == 0);
            assert(fpost.len() == 0);
        }
        assert(holds_at(s, p, x));
        lemma_lex_lexeme(s, p, x);
        assert(flat(ls.take(k + 1)) == fp + w);
        lemma_lex_seq(s, ls, k + 1);
        let r = lex_from(s, p + w.len())->Ok_0;
        assert(tokens_of(r, ls, k + 1));
        let tk = (lex_token(s, p)->Ok_0).0;
        assert(lex_from(s, p) == Ok::<Seq<Tok>, crate::lexer::Failure>(seq![tk] + r));
        assert forall|j: int| 0 <= j < ls.len() - k implies (#[trigger] (seq![tk] + r)[j]).kind
            == ls[k + j].kind && (seq![tk] + r)[j].after_space == ls[k + j].space by {
            if j > 0 {
                assert((seq![tk] + r)[j] == r[j - 1]);
            }
        }
    }
}

} // verus!
