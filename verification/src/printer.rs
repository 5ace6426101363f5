//! Renders a parsed formula back into canonical text, or into JSON.
//!
//! Precedence numbers mirror the parser's levels (a higher number binds
//! tighter). Parentheses are written only where the parser would otherwise
//! build a different tree from the text.

use vstd::prelude::*;
use crate::chars::{upper, push_char, push_chars, chars_of, spec_is_whitespace};
use crate::number::render_decimal;
use crate::lexer::{is_ident_start, is_ident_char};
use crate::parser::{
    Expr, Ex, Cell, CellRef, UnaryOp, BinaryOp, ParseError, view_list, view_rows,
    lemma_view_list_len,
};

verus! {

pub open spec fn binary_precedence(op: BinaryOp) -> int {
    match op {
        BinaryOp::Eq | BinaryOp::Ne | BinaryOp::Lt | BinaryOp::Le | BinaryOp::Gt | BinaryOp::Ge => 1,
        BinaryOp::Concat => 2,
        BinaryOp::Add | BinaryOp::Sub => 3,
        BinaryOp::Mul | BinaryOp::Div => 4,
        BinaryOp::Pow => 5,
    }
}

pub open spec fn precedence(e: Ex) -> int {
    match e {
        Ex::Binary(op, _, _) => binary_precedence(op),
        Ex::Unary(UnaryOp::Percent, _) => 6,
        Ex::Unary(_, _) => 7,
        Ex::Intersect(..) => 8,
        Ex::Range(..) => 9,
        _ => 10,
    }
}

pub open spec fn binary_symbol(op: BinaryOp) -> Seq<char> {
    match op {
        BinaryOp::Add => "+"@,
        BinaryOp::Sub => "-"@,
        BinaryOp::Mul => "*"@,
        BinaryOp::Div => "/"@,
        BinaryOp::Pow => "^"@,
        BinaryOp::Concat => "&"@,
        BinaryOp::Eq => "="@,
        BinaryOp::Ne => "<>"@,
        BinaryOp::Lt => "<"@,
        BinaryOp::Le => "<="@,
        BinaryOp::Gt => ">"@,
        BinaryOp::Ge => ">="@,
    }
}

pub open spec fn binary_op_name(op: BinaryOp) -> Seq<char> {
    match op {
        BinaryOp::Add => "add"@,
        BinaryOp::Sub => "sub"@,
        BinaryOp::Mul => "mul"@,
        BinaryOp::Div => "div"@,
        BinaryOp::Pow => "pow"@,
        BinaryOp::Concat => "concat"@,
        BinaryOp::Eq => "eq"@,
        BinaryOp::Ne => "ne"@,
        BinaryOp::Lt => "lt"@,
        BinaryOp::Le => "le"@,
        BinaryOp::Gt => "gt"@,
        BinaryOp::Ge => "ge"@,
    }
}

/// `s` with every `q` written twice.
pub open spec fn double_quotes(s: Seq<char>, q: char) -> Seq<char>
    decreases s.len(),
{
    if s.len() == 0 {
        Seq::empty()
    } else {
        double_quotes(s.drop_last(), q) + if s.last() == q {
            seq![q, q]
        } else {
            seq![s.last()]
        }
    }
}

/// A sheet name that reads back as one identifier needs no quotes.
pub open spec fn is_bare_sheet(s: Seq<char>) -> bool {
    &&& s.len() > 0
    &&& is_ident_start(s[0])
    &&& !spec_is_whitespace(s[0])
    &&& forall|i: int| 1 <= i < s.len() ==> is_ident_char(#[trigger] s[i])
}

pub open spec fn sheet_text(s: Seq<char>) -> Seq<char> {
    if is_bare_sheet(s) {
        s
    } else {
        seq!['\''] + double_quotes(s, '\'') + seq!['\'']
    }
}

pub open spec fn digit_char(d: int) -> char {
    (('0' as u32) + d) as char
}

/// Decimal digits of a natural number.
pub open spec fn nat_text(n: nat) -> Seq<char>
    decreases n,
{
    if n < 10 {
        seq![digit_char(n as int)]
    } else {
        nat_text(n / 10).push(digit_char((n % 10) as int))
    }
}

pub open spec fn ref_text(c: Cell) -> Seq<char> {
    let sheet = match c.sheet {
        Some(s) => sheet_text(s) + seq!['!'],
        None => Seq::empty(),
    };
    let col_abs = if c.col_absolute {
        seq!['$']
    } else {
        Seq::empty()
    };
    let row_abs = if c.row_absolute {
        seq!['$']
    } else {
        Seq::empty()
    };
    sheet + col_abs + c.column + row_abs + nat_text(c.row as nat)
}

pub open spec fn paren(s: Seq<char>) -> Seq<char> {
    seq!['('] + s + seq![')']
}

pub open spec fn paren_if(b: bool, s: Seq<char>) -> Seq<char> {
    if b {
        paren(s)
    } else {
        s
    }
}

/// Text the parser reads as the start of an intersection's right operand.
pub open spec fn starts_reference_text(s: Seq<char>) -> bool {
    s.len() > 0 && (is_ident_start(s[0]) || s[0] == '\'' || s[0] == '(')
}

/// Whether the text of `e` ends with an identifier that the parser reads as
/// a name, a boolean or a cell reference without a sheet: an opening
/// parenthesis right after such an identifier would make it a function's
/// name.
pub open spec fn ends_in_name(e: Ex) -> bool
    decreases e,
{
    match e {
        Ex::Name(_) | Ex::Boolean(_) => true,
        Ex::Reference(c) => c.sheet is None,
        Ex::Range(_, b) => precedence(*b) == 10 && ends_in_name(*b),
        Ex::Intersect(_, b) => precedence(*b) > 8 && starts_reference_text(spec_render(*b))
            && ends_in_name(*b),
        Ex::Unary(op, a) => op != UnaryOp::Percent && precedence(*a) >= 7 && ends_in_name(*a),
        Ex::Binary(op, _, b) => precedence(*b) > binary_precedence(op) && ends_in_name(*b),
        _ => false,
    }
}

/// The two operands of an intersection, written so that they read back as
/// one: the right one must start like a reference, and a left one that ends
/// in a name must not run into a '(' (which would make a call).
pub open spec fn intersect_text(l: Seq<char>, r: Seq<char>, left_ends_in_name: bool) -> Seq<
    char,
> {
    let r2 = if starts_reference_text(r) {
        r
    } else {
        paren(r)
    };
    let l2 = if r2[0] == '(' && left_ends_in_name {
        paren(l)
    } else {
        l
    };
    l2 + seq![' '] + r2
}

/// The canonical text of an expression.
pub open spec fn spec_render(e: Ex) -> Seq<char>
    decreases e,
{
    match e {
        Ex::Number(d) => render_decimal(d),
        Ex::Text(s) => seq!['"'] + double_quotes(s, '"') + seq!['"'],
        Ex::Boolean(b) => if b {
            "TRUE"@
        } else {
            "FALSE"@
        },
        Ex::Error(s) => s,
        Ex::Name(n) => n,
        Ex::Reference(c) => ref_text(c),
        Ex::Range(a, b) => paren_if(precedence(*a) < 10, spec_render(*a)) + seq![':'] + paren_if(
            precedence(*b) < 10,
            spec_render(*b),
        ),
        Ex::Intersect(a, b) => intersect_text(
            paren_if(precedence(*a) < 8, spec_render(*a)),
            paren_if(precedence(*b) <= 8, spec_render(*b)),
            precedence(*a) >= 8 && ends_in_name(*a),
        ),
        Ex::Union(items) => paren(render_list(items, ", "@)),
        Ex::Array(rows) => seq!['{'] + render_rows(rows) + seq!['}'],
        Ex::Unary(op, a) => match op {
            UnaryOp::Neg => seq!['-'] + paren_if(precedence(*a) < 7, spec_render(*a)),
            UnaryOp::Pos => seq!['+'] + paren_if(precedence(*a) < 7, spec_render(*a)),
            UnaryOp::Percent => paren_if(precedence(*a) < 6, spec_render(*a)) + seq!['%'],
        },
        Ex::Binary(op, a, b) => {
            let p = binary_precedence(op);
            paren_if(precedence(*a) < p, spec_render(*a)) + binary_symbol(op) + paren_if(
                precedence(*b) <= p,
                spec_render(*b),
            )
        },
        Ex::Call(name, args) => upper(name) + seq!['('] + render_list(args, ", "@) + seq![')'],
    }
}

/// The items, rendered and separated by `sep`.
pub open spec fn render_list(items: Seq<Ex>, sep: Seq<char>) -> Seq<char>
    decreases items,
{
    if items.len() == 0 {
        Seq::empty()
    } else if items.len() == 1 {
        spec_render(items[0])
    } else {
        render_list(items.drop_last(), sep) + sep + spec_render(items.last())
    }
}

/// Array rows: items separated by ',', rows by ';'.
pub open spec fn render_rows(rows: Seq<Seq<Ex>>) -> Seq<char>
    decreases rows,
{
    if rows.len() == 0 {
        Seq::empty()
    } else if rows.len() == 1 {
        render_list(rows[0], ","@)
    } else {
        render_rows(rows.drop_last()) + seq![';'] + render_list(rows.last(), ","@)
    }
}

// ---------------------------------------------------------------------------
// Rendering.
// ---------------------------------------------------------------------------

fn append_str(out: &mut Vec<char>, s: &str)
    ensures
        final(out)@ == old(out)@ + s@,
{
    let cs = chars_of(s);
    append_chars(out, &cs);
}

fn append_chars(out: &mut Vec<char>, cs: &Vec<char>)
    ensures
        final(out)@ == old(out)@ + cs@,
{
    let ghost start = out@;
    let mut i: usize = 0;
    while i < cs.len()
        invariant
            i <= cs.len(),
            out@ == start + cs@.take(i as int),
        decreases cs.len() - i,
    {
        out.push(cs[i]);
        i = i + 1;
        assert(cs@.take(i as int) == cs@.take(i - 1).push(cs@[i - 1]));
    }
    assert(cs@.take(i as int) == cs@);
}

fn double_quotes_into(out: &mut Vec<char>, s: &Vec<char>, q: char)
    ensures
        final(out)@ == old(out)@ + double_quotes(s@, q),
{
    let ghost start = out@;
    let mut i: usize = 0;
    while i < s.len()
        invariant
            i <= s.len(),
            out@ == start + double_quotes(s@.take(i as int), q),
        decreases s.len() - i,
    {
        let c = s[i];
        if c == q {
            out.push(q);
            out.push(q);
        } else {
            out.push(c);
        }
        i = i + 1;
        assert(s@.take(i as int).drop_last() == s@.take(i - 1));
    }
    assert(s@.take(i as int) == s@);
}

fn is_bare_sheet_exec(s: &Vec<char>) -> (r: bool)
    ensures
        r == is_bare_sheet(s@),
{
    if s.len() == 0 {
        return false;
    }
    let c = s[0];
    if !(crate::chars::is_alphabetic(c) || c == '_' || c == '$') || crate::chars::is_whitespace(c) {
        return false;
    }
    let mut i: usize = 1;
    while i < s.len()
        invariant
            1 <= i <= s.len(),
            forall|k: int| 1 <= k < i ==> is_ident_char(#[trigger] s@[k]),
        decreases s.len() - i,
    {
        let c = s[i];
        if !(crate::chars::is_alphanumeric(c) || c == '_' || c == '.' || c == '$') {
            return false;
        }
        i = i + 1;
    }
    true
}

fn digit_of(d: u32) -> (c: char)
    requires
        d < 10,
    ensures
        c == digit_char(d as int),
{
    let b: u8 = (48 + d) as u8;
    b as char
}

fn push_nat(out: &mut Vec<char>, n: u32)
    ensures
        final(out)@ == old(out)@ + nat_text(n as nat),
    decreases n,
{
    if n >= 10 {
        push_nat(out, n / 10);
    }
    out.push(digit_of(n % 10));
}

fn sheet_prefix(sheet: &Option<String>) -> (r: Vec<char>)
    ensures
        r@ == match sheet {
            Some(s) => sheet_text(s@) + seq!['!'],
            None => Seq::<char>::empty(),
        },
{
    let mut out: Vec<char> = Vec::new();
    match sheet {
        Some(s) => {
            let cs = chars_of(s.as_str());
            if is_bare_sheet_exec(&cs) {
                append_chars(&mut out, &cs);
            } else {
                out.push('\'');
                double_quotes_into(&mut out, &cs, '\'');
                out.push('\'');
            }
            out.push('!');
            assert(out@ =~= sheet_text(s@) + seq!['!']);
        },
        None => {
            assert(out@ =~= Seq::<char>::empty());
        },
    }
    out
}

fn render_ref_chars(c: &CellRef, out: &mut Vec<char>)
    ensures
        final(out)@ == old(out)@ + ref_text(c@),
{
    let ghost start = out@;
    let mut pre = sheet_prefix(&c.sheet);
    out.append(&mut pre);
    let ghost a = out@;
    if c.col_absolute {
        out.push('$');
    }
    let ghost b = out@;
    assert(b == a + (if c.col_absolute { seq!['$'] } else { Seq::<char>::empty() }));
    append_str(out, c.column.as_str());
    let ghost d = out@;
    if c.row_absolute {
        out.push('$');
    }
    assert(out@ == d + (if c.row_absolute { seq!['$'] } else { Seq::<char>::empty() }));
    push_nat(out, c.row);
    assert(out@ =~= start + ref_text(c@));
}

fn binary_precedence_exec(op: BinaryOp) -> (r: u8)
    ensures
        r as int == binary_precedence(op),
{
    match op {
        BinaryOp::Eq | BinaryOp::Ne | BinaryOp::Lt | BinaryOp::Le | BinaryOp::Gt | BinaryOp::Ge => 1,
        BinaryOp::Concat => 2,
        BinaryOp::Add | BinaryOp::Sub => 3,
        BinaryOp::Mul | BinaryOp::Div => 4,
        BinaryOp::Pow => 5,
    }
}

fn precedence_exec(e: &Expr) -> (r: u8)
    ensures
        r as int == precedence(e@),
{
    match e {
        Expr::Binary(op, _, _) => binary_precedence_exec(*op),
        Expr::Unary(UnaryOp::Percent, _) => 6,
        Expr::Unary(_, _) => 7,
        Expr::Intersect(..) => 8,
        Expr::Range(..) => 9,
        _ => 10,
    }
}

fn binary_symbol_exec(op: BinaryOp) -> (r: &'static str)
    ensures
        r@ == binary_symbol(op),
{
    match op {
        BinaryOp::Add => "+",
        BinaryOp::Sub => "-",
        BinaryOp::Mul => "*",
        BinaryOp::Div => "/",
        BinaryOp::Pow => "^",
        BinaryOp::Concat => "&",
        BinaryOp::Eq => "=",
        BinaryOp::Ne => "<>",
        BinaryOp::Lt => "<",
        BinaryOp::Le => "<=",
        BinaryOp::Gt => ">",
        BinaryOp::Ge => ">=",
    }
}

fn binary_op_name_exec(op: BinaryOp) -> (r: &'static str)
    ensures
        r@ == binary_op_name(op),
{
    match op {
        BinaryOp::Add => "add",
        BinaryOp::Sub => "sub",
        BinaryOp::Mul => "mul",
        BinaryOp::Div => "div",
        BinaryOp::Pow => "pow",
        BinaryOp::Concat => "concat",
        BinaryOp::Eq => "eq",
        BinaryOp::Ne => "ne",
        BinaryOp::Lt => "lt",
        BinaryOp::Le => "le",
        BinaryOp::Gt => "gt",
        BinaryOp::Ge => "ge",
    }
}

/// `text`, in parentheses when `b` holds.
fn paren_if_exec(b: bool, text: Vec<char>) -> (r: Vec<char>)
    ensures
        r@ == paren_if(b, text@),
{
    if b {
        let mut r: Vec<char> = Vec::new();
        r.push('(');
        let mut t = text;
        r.append(&mut t);
        r.push(')');
        assert(r@ =~= paren(text@));
        r
    } else {
        text
    }
}

fn starts_reference_text_exec(s: &Vec<char>) -> (r: bool)
    ensures
        r == starts_reference_text(s@),
{
    if s.len() == 0 {
        return false;
    }
    let c = s[0];
    crate::chars::is_alphabetic(c) || c == '_' || c == '$' || c == '\'' || c == '('
}

fn intersect_exec(l: Vec<char>, r: Vec<char>, left_ends_in_name: bool) -> (out: Vec<char>)
    ensures
        out@ == intersect_text(l@, r@, left_ends_in_name),
{
    let sr = starts_reference_text_exec(&r);
    let r2 = paren_if_exec(!sr, r);
    let opens = r2[0] == '(';
    let mut l2 = paren_if_exec(opens && left_ends_in_name, l);
    l2.push(' ');
    let mut r3 = r2;
    l2.append(&mut r3);
    l2
}

/// Renders an operand, parenthesized when `b` holds.
fn ends_in_name_exec(e: &Expr) -> (r: bool)
    ensures
        r == ends_in_name(e@),
    decreases e, 3int,
{
    match e {
        Expr::Name(_) => true,
        Expr::Boolean(_) => true,
        Expr::Reference(c) => c.sheet.is_none(),
        Expr::Range(_, b) => {
            if precedence_exec(b) == 10 {
                ends_in_name_exec(b)
            } else {
                false
            }
        },
        Expr::Intersect(_, b) => {
            if precedence_exec(b) > 8 {
                let t = render_chars(b);
                if starts_reference_text_exec(&t) {
                    ends_in_name_exec(b)
                } else {
                    false
                }
            } else {
                false
            }
        },
        Expr::Unary(op, a) => {
            if *op != UnaryOp::Percent && precedence_exec(a) >= 7 {
                ends_in_name_exec(a)
            } else {
                false
            }
        },
        Expr::Binary(op, _, b) => {
            if precedence_exec(b) > binary_precedence_exec(*op) {
                ends_in_name_exec(b)
            } else {
                false
            }
        },
        _ => false,
    }
}

fn render_child(e: &Expr, b: bool) -> (r: Vec<char>)
    ensures
        r@ == paren_if(b, spec_render(e@)),
    decreases e, 2int,
{
    let t = render_chars(e);
    paren_if_exec(b, t)
}

/// The canonical text of an expression, as characters.
pub fn render_chars(e: &Expr) -> (r: Vec<char>)
    ensures
        r@ == spec_render(e@),
    decreases e, 1int,
{
    let mut out: Vec<char> = Vec::new();
    match e {
        Expr::Number(d) => {
            let s = d.render();
            append_str(&mut out, s.as_str());
        },
        Expr::Text(s) => {
            out.push('"');
            let cs = chars_of(s.as_str());
            double_quotes_into(&mut out, &cs, '"');
            out.push('"');
        },
        Expr::Boolean(b) => {
            if *b {
                append_str(&mut out, "TRUE");
            } else {
                append_str(&mut out, "FALSE");
            }
        },
        Expr::Error(s) => {
            append_str(&mut out, s.as_str());
        },
        Expr::Name(n) => {
            append_str(&mut out, n.as_str());
        },
        Expr::Reference(c) => {
            render_ref_chars(c, &mut out);
        },
        Expr::Range(a, b) => {
            let mut l = render_child(a, precedence_exec(a) < 10);
            let mut r = render_child(b, precedence_exec(b) < 10);
            out.append(&mut l);
            out.push(':');
            out.append(&mut r);
        },
        Expr::Intersect(a, b) => {
            let l = render_child(a, precedence_exec(a) < 8);
            let r = render_child(b, precedence_exec(b) <= 8);
            let named = precedence_exec(a) >= 8 && ends_in_name_exec(a);
            out = intersect_exec(l, r, named);
        },
        Expr::Union(items) => {
            out.push('(');
            let mut body = render_items(items, ", ");
            out.append(&mut body);
            out.push(')');
        },
        Expr::Array(rows) => {
            out.push('{');
            let mut body = render_rows_exec(rows);
            out.append(&mut body);
            out.push('}');
        },
        Expr::Unary(op, a) => {
            match op {
                UnaryOp::Neg => {
                    out.push('-');
                    let mut t = render_child(a, precedence_exec(a) < 7);
                    out.append(&mut t);
                },
                UnaryOp::Pos => {
                    out.push('+');
                    let mut t = render_child(a, precedence_exec(a) < 7);
                    out.append(&mut t);
                },
                UnaryOp::Percent => {
                    let mut t = render_child(a, precedence_exec(a) < 6);
                    out.append(&mut t);
                    out.push('%');
                },
            }
        },
        Expr::Binary(op, a, b) => {
            let p = binary_precedence_exec(*op);
            let mut l = render_child(a, precedence_exec(a) < p);
            let mut r = render_child(b, precedence_exec(b) <= p);
            out.append(&mut l);
            append_str(&mut out, binary_symbol_exec(*op));
            out.append(&mut r);
        },
        Expr::Call(name, args) => {
            let cs = chars_of(name.as_str());
            let mut up = crate::chars::upper_vec(&cs);
            out.append(&mut up);
            out.push('(');
            let mut body = render_items(args, ", ");
            out.append(&mut body);
            out.push(')');
        },
    }
    assert(out@ =~= spec_render(e@));
    out
}

proof fn lemma_render_list_step(items: Seq<Ex>, sep: Seq<char>, k: int)
    requires
        1 <= k < items.len(),
    ensures
        render_list(items.take(k + 1), sep) == render_list(items.take(k), sep) + sep + spec_render(
            items[k],
        ),
{
    assert(items.take(k + 1).drop_last() =~= items.take(k));
}

/// The items, rendered and separated by `sep`.
fn render_items(items: &Vec<Expr>, sep: &str) -> (r: Vec<char>)
    ensures
        r@ == render_list(view_list(items@), sep@),
    decreases items, 0int,
{
    proof {
        lemma_view_list_len(items@);
    }
    let ghost vs = view_list(items@);
    let mut out: Vec<char> = Vec::new();
    let mut k: usize = 0;
    while k < items.len()
        invariant
            k <= items.len(),
            vs == view_list(items@),
            vs.len() == items@.len(),
            forall|i: int| 0 <= i < items@.len() ==> #[trigger] vs[i] == items@[i]@,
            out@ == render_list(vs.take(k as int), sep@),
        decreases items.len() - k,
    {
        let mut t = render_chars(&items[k]);
        if k > 0 {
            append_str(&mut out, sep);
            proof {
                lemma_render_list_step(vs, sep@, k as int);
            }
        } else {
            assert(vs.take(1) =~= seq![vs[0]]);
        }
        out.append(&mut t);
        k = k + 1;
    }
    assert(vs.take(items.len() as int) =~= vs);
    out
}

proof fn lemma_view_rows_len(s: Seq<Vec<Expr>>)
    ensures
        view_rows(s).len() == s.len(),
        forall|i: int| 0 <= i < s.len() ==> #[trigger] view_rows(s)[i] == view_list(s[i]@),
    decreases s.len(),
{
    if s.len() > 0 {
        lemma_view_rows_len(s.drop_last());
    }
}

fn render_rows_exec(rows: &Vec<Vec<Expr>>) -> (r: Vec<char>)
    ensures
        r@ == render_rows(view_rows(rows@)),
    decreases rows, 0int,
{
    proof {
        lemma_view_rows_len(rows@);
    }
    let ghost vs = view_rows(rows@);
    let mut out: Vec<char> = Vec::new();
    let mut k: usize = 0;
    while k < rows.len()
        invariant
            k <= rows.len(),
            vs == view_rows(rows@),
            vs.len() == rows@.len(),
            forall|i: int| 0 <= i < rows@.len() ==> #[trigger] vs[i] == view_list(rows@[i]@),
            out@ == render_rows(vs.take(k as int)),
        decreases rows.len() - k,
    {
        let mut t = render_items(&rows[k], ",");
        if k > 0 {
            out.push(';');
            assert(vs.take(k + 1).drop_last() =~= vs.take(k as int));
        } else {
            assert(vs.take(1) =~= seq![vs[0]]);
        }
        out.append(&mut t);
        k = k + 1;
    }
    assert(vs.take(rows.len() as int) =~= vs);
    out
}

/// The canonical text of an expression.
pub fn render(expr: &Expr) -> (r: String)
    ensures
        r@ == spec_render(expr@),
{
    let cs = render_chars(expr);
    let mut out = String::new();
    push_chars(&mut out, &cs);
    out
}


// ---------------------------------------------------------------------------
// JSON.
// ---------------------------------------------------------------------------

pub open spec fn hex_digit(d: int) -> char {
    if d < 10 {
        (('0' as u32) + d) as char
    } else {
        (('a' as u32) + d - 10) as char
    }
}

/// How one character is written inside a JSON string.
pub open spec fn json_escape_char(c: char) -> Seq<char> {
    let u = c as u32;
    if c == '"' {
        seq!['\\', '"']
    } else if c == '\\' {
        seq!['\\', '\\']
    } else if c == '\n' {
        seq!['\\', 'n']
    } else if c == '\r' {
        seq!['\\', 'r']
    } else if c == '\t' {
        seq!['\\', 't']
    } else if u < 0x20 {
        seq!['\\', 'u', '0', '0', hex_digit((u / 16) as int), hex_digit((u % 16) as int)]
    } else {
        seq![c]
    }
}

pub open spec fn json_escape(s: Seq<char>) -> Seq<char>
    decreases s.len(),
{
    if s.len() == 0 {
        Seq::empty()
    } else {
        json_escape(s.drop_last()) + json_escape_char(s.last())
    }
}

/// A JSON string literal holding `s`.
pub open spec fn json_string(s: Seq<char>) -> Seq<char> {
    seq!['"'] + json_escape(s) + seq!['"']
}

pub open spec fn json_bool(b: bool) -> Seq<char> {
    if b {
        "true"@
    } else {
        "false"@
    }
}

pub open spec fn unary_op_name(op: UnaryOp) -> Seq<char> {
    match op {
        UnaryOp::Neg => "neg"@,
        UnaryOp::Pos => "pos"@,
        UnaryOp::Percent => "percent"@,
    }
}

pub open spec fn json_ref(c: Cell) -> Seq<char> {
    "{\"type\":\"reference\",\"sheet\":"@ + match c.sheet {
        Some(s) => json_string(s),
        None => "null"@,
    } + ",\"column\":"@ + json_string(c.column) + ",\"row\":"@ + nat_text(c.row as nat)
        + ",\"colAbsolute\":"@ + json_bool(c.col_absolute) + ",\"rowAbsolute\":"@ + json_bool(
        c.row_absolute,
    ) + "}"@
}

/// The JSON form of an expression tree.
pub open spec fn spec_json(e: Ex) -> Seq<char>
    decreases e,
{
    match e {
        Ex::Number(d) => "{\"type\":\"number\",\"value\":"@ + render_decimal(d) + "}"@,
        Ex::Text(s) => "{\"type\":\"text\",\"value\":"@ + json_string(s) + "}"@,
        Ex::Boolean(b) => "{\"type\":\"boolean\",\"value\":"@ + json_bool(b) + "}"@,
        Ex::Error(s) => "{\"type\":\"error\",\"value\":"@ + json_string(s) + "}"@,
        Ex::Name(n) => "{\"type\":\"name\",\"value\":"@ + json_string(n) + "}"@,
        Ex::Reference(c) => json_ref(c),
        Ex::Range(a, b) => "{\"type\":\"range\",\"start\":"@ + spec_json(*a) + ",\"end\":"@
            + spec_json(*b) + "}"@,
        Ex::Intersect(a, b) => "{\"type\":\"intersect\",\"left\":"@ + spec_json(*a)
            + ",\"right\":"@ + spec_json(*b) + "}"@,
        Ex::Union(items) => "{\"type\":\"union\",\"items\":["@ + json_list(items) + "]}"@,
        Ex::Array(rows) => "{\"type\":\"array\",\"rows\":["@ + json_rows(rows) + "]}"@,
        Ex::Unary(op, a) => "{\"type\":\"unary\",\"op\":\""@ + unary_op_name(op)
            + "\",\"operand\":"@ + spec_json(*a) + "}"@,
        Ex::Binary(op, a, b) => "{\"type\":\"binary\",\"op\":\""@ + binary_op_name(op)
            + "\",\"left\":"@ + spec_json(*a) + ",\"right\":"@ + spec_json(*b) + "}"@,
        Ex::Call(name, args) => "{\"type\":\"call\",\"name\":"@ + json_string(name)
            + ",\"args\":["@ + json_list(args) + "]}"@,
    }
}

/// JSON forms of the items, separated by commas.
pub open spec fn json_list(items: Seq<Ex>) -> Seq<char>
    decreases items,
{
    if items.len() == 0 {
        Seq::empty()
    } else if items.len() == 1 {
        spec_json(items[0])
    } else {
        json_list(items.drop_last()) + seq![','] + spec_json(items.last())
    }
}

/// JSON arrays of the rows' items, separated by commas.
pub open spec fn json_rows(rows: Seq<Seq<Ex>>) -> Seq<char>
    decreases rows,
{
    if rows.len() == 0 {
        Seq::empty()
    } else if rows.len() == 1 {
        seq!['['] + json_list(rows[0]) + seq![']']
    } else {
        json_rows(rows.drop_last()) + seq![',', '['] + json_list(rows.last()) + seq![']']
    }
}

fn hex_digit_exec(d: u32) -> (c: char)
    requires
        d < 16,
    ensures
        c == hex_digit(d as int),
{
    if d < 10 {
        let b: u8 = (48 + d) as u8;
        b as char
    } else {
        let b: u8 = (87 + d) as u8;
        b as char
    }
}

/// Appends `s` as a JSON string literal: quotes, backslashes and control
/// characters escaped.
pub fn push_json_string(out: &mut String, s: &str)
    ensures
        final(out)@ == old(out)@ + json_string(s@),
{
    let ghost start = out@;
    let cs = chars_of(s);
    push_char(out, '"');
    let mut i: usize = 0;
    while i < cs.len()
        invariant
            i <= cs.len(),
            cs@ == s@,
            out@ == start + seq!['"'] + json_escape(cs@.take(i as int)),
        decreases cs.len() - i,
    {
        let c = cs[i];
        let u = c as u32;
        let ghost before = out@;
        if c == '"' {
            push_char(out, '\\');
            push_char(out, '"');
        } else if c == '\\' {
            push_char(out, '\\');
            push_char(out, '\\');
        } else if c == '\n' {
            push_char(out, '\\');
            push_char(out, 'n');
        } else if c == '\r' {
            push_char(out, '\\');
            push_char(out, 'r');
        } else if c == '\t' {
            push_char(out, '\\');
            push_char(out, 't');
        } else if u < 0x20 {
            push_char(out, '\\');
            push_char(out, 'u');
            push_char(out, '0');
            push_char(out, '0');
            push_char(out, hex_digit_exec(u / 16));
            push_char(out, hex_digit_exec(u % 16));
        } else {
            push_char(out, c);
        }
        assert(out@ =~= before + json_escape_char(c));
        i = i + 1;
        assert(cs@.take(i as int).drop_last() =~= cs@.take(i - 1));
    }
    assert(cs@.take(i as int) =~= cs@);
    push_char(out, '"');
    assert(out@ =~= start + json_string(s@));
}

fn push_json_bool(out: &mut String, b: bool)
    ensures
        final(out)@ == old(out)@ + json_bool(b),
{
    if b {
        out.append("true");
    } else {
        out.append("false");
    }
}

fn push_nat_string(out: &mut String, n: u32)
    ensures
        final(out)@ == old(out)@ + nat_text(n as nat),
{
    let mut v: Vec<char> = Vec::new();
    push_nat(&mut v, n);
    push_chars(out, &v);
}

fn write_json_ref(c: &CellRef, out: &mut String)
    ensures
        final(out)@ == old(out)@ + json_ref(c@),
{
    let ghost start = out@;
    out.append("{\"type\":\"reference\",\"sheet\":");
    match &c.sheet {
        Some(s) => push_json_string(out, s.as_str()),
        None => out.append("null"),
    }
    out.append(",\"column\":");
    push_json_string(out, c.column.as_str());
    out.append(",\"row\":");
    push_nat_string(out, c.row);
    out.append(",\"colAbsolute\":");
    push_json_bool(out, c.col_absolute);
    out.append(",\"rowAbsolute\":");
    push_json_bool(out, c.row_absolute);
    out.append("}");
    assert(out@ =~= start + json_ref(c@));
}

fn unary_op_name_exec(op: UnaryOp) -> (r: &'static str)
    ensures
        r@ == unary_op_name(op),
{
    match op {
        UnaryOp::Neg => "neg",
        UnaryOp::Pos => "pos",
        UnaryOp::Percent => "percent",
    }
}

/// Appends the JSON form of `e` to `out`, keeping what `out` held.
pub fn write_json(e: &Expr, out: &mut String)
    ensures
        final(out)@ == old(out)@ + spec_json(e@),
    decreases e, 1int,
{
    let ghost start = out@;
    match e {
        Expr::Number(d) => {
            out.append("{\"type\":\"number\",\"value\":");
            let t = d.render();
            out.append(t.as_str());
            out.append("}");
        },
        Expr::Text(s) => {
            out.append("{\"type\":\"text\",\"value\":");
            push_json_string(out, s.as_str());
            out.append("}");
        },
        Expr::Boolean(b) => {
            out.append("{\"type\":\"boolean\",\"value\":");
            push_json_bool(out, *b);
            out.append("}");
        },
        Expr::Error(s) => {
            out.append("{\"type\":\"error\",\"value\":");
            push_json_string(out, s.as_str());
            out.append("}");
        },
        Expr::Name(n) => {
            out.append("{\"type\":\"name\",\"value\":");
            push_json_string(out, n.as_str());
            out.append("}");
        },
        Expr::Reference(c) => {
            write_json_ref(c, out);
        },
        Expr::Range(a, b) => {
            out.append("{\"type\":\"range\",\"start\":");
            write_json(a, out);
            out.append(",\"end\":");
            write_json(b, out);
            out.append("}");
        },
        Expr::Intersect(a, b) => {
            out.append("{\"type\":\"intersect\",\"left\":");
            write_json(a, out);
            out.append(",\"right\":");
            write_json(b, out);
            out.append("}");
        },
        Expr::Union(items) => {
            out.append("{\"type\":\"union\",\"items\":[");
            write_json_list(items, out);
            out.append("]}");
        },
        Expr::Array(rows) => {
            out.append("{\"type\":\"array\",\"rows\":[");
            write_json_rows(rows, out);
            out.append("]}");
        },
        Expr::Unary(op, a) => {
            out.append("{\"type\":\"unary\",\"op\":\"");
            out.append(unary_op_name_exec(*op));
            out.append("\",\"operand\":");
            write_json(a, out);
            out.append("}");
        },
        Expr::Binary(op, a, b) => {
            out.append("{\"type\":\"binary\",\"op\":\"");
            out.append(binary_op_name_exec(*op));
            out.append("\",\"left\":");
            write_json(a, out);
            out.append(",\"right\":");
            write_json(b, out);
            out.append("}");
        },
        Expr::Call(name, args) => {
            out.append("{\"type\":\"call\",\"name\":");
            push_json_string(out, name.as_str());
            out.append(",\"args\":[");
            write_json_list(args, out);
            out.append("]}");
        },
    }
    assert(out@ =~= start + spec_json(e@));
}

fn write_json_list(items: &Vec<Expr>, out: &mut String)
    ensures
        final(out)@ == old(out)@ + json_list(view_list(items@)),
    decreases items, 0int,
{
    proof {
        lemma_view_list_len(items@);
    }
    let ghost vs = view_list(items@);
    let ghost start = out@;
    let mut k: usize = 0;
    while k < items.len()
        invariant
            k <= items.len(),
            vs == view_list(items@),
            vs.len() == items@.len(),
            forall|i: int| 0 <= i < items@.len() ==> #[trigger] vs[i] == items@[i]@,
            out@ == start + json_list(vs.take(k as int)),
        decreases items.len() - k,
    {
        let ghost before = out@;
        if k > 0 {
            push_char(out, ',');
            assert(vs.take(k + 1).drop_last() =~= vs.take(k as int));
        } else {
            assert(vs.take(1) =~= seq![vs[0]]);
        }
        write_json(&items[k], out);
        k = k + 1;
    }
    assert(vs.take(items.len() as int) =~= vs);
}

fn write_json_rows(rows: &Vec<Vec<Expr>>, out: &mut String)
    ensures
        final(out)@ == old(out)@ + json_rows(view_rows(rows@)),
    decreases rows, 0int,
{
    proof {
        lemma_view_rows_len(rows@);
    }
    let ghost vs = view_rows(rows@);
    let ghost start = out@;
    let mut k: usize = 0;
    while k < rows.len()
        invariant
            k <= rows.len(),
            vs == view_rows(rows@),
            vs.len() == rows@.len(),
            forall|i: int| 0 <= i < rows@.len() ==> #[trigger] vs[i] == view_list(rows@[i]@),
            out@ == start + json_rows(vs.take(k as int)),
        decreases rows.len() - k,
    {
        if k > 0 {
            push_char(out, ',');
            assert(vs.take(k + 1).drop_last() =~= vs.take(k as int));
        } else {
            assert(vs.take(1) =~= seq![vs[0]]);
        }
        push_char(out, '[');
        write_json_list(&rows[k], out);
        push_char(out, ']');
        k = k + 1;
    }
    assert(vs.take(rows.len() as int) =~= vs);
}

/// The JSON form of an expression tree.
pub fn to_json(expr: &Expr) -> (r: String)
    ensures
        r@ == spec_json(expr@),
{
    let mut out = String::new();
    write_json(expr, &mut out);
    out
}


fn push_count(out: &mut Vec<char>, n: usize)
    ensures
        final(out)@ == old(out)@ + nat_text(n as nat),
    decreases n,
{
    if n >= 10 {
        push_count(out, n / 10);
    }
    let d: u32 = (n % 10) as u32;
    out.push(digit_of(d));
}

/// The JSON report on formula text that did not parse: the text, the error
/// message and the error's position.
pub fn json_error_report(input: &str, err: &ParseError) -> (r: String)
    ensures
        r@ == "{\"valid\":false,\"input\":"@ + json_string(input@) + ",\"error\":"@ + json_string(
            err.message@,
        ) + ",\"position\":"@ + nat_text(err.pos as nat) + "}"@,
{
    let mut out = String::from_str("{\"valid\":false,\"input\":");
    push_json_string(&mut out, input);
    out.append(",\"error\":");
    push_json_string(&mut out, err.message.as_str());
    out.append(",\"position\":");
    let mut digits: Vec<char> = Vec::new();
    push_count(&mut digits, err.pos);
    push_chars(&mut out, &digits);
    out.append("}");
    out
}

/// The opening of the JSON report on formula text that parsed: the text,
/// its canonical form (with the leading `=`) and its tree. Further members
/// and the closing brace are the caller's.
pub fn json_report_head(input: &str, expr: &Expr) -> (r: String)
    ensures
        r@ == "{\"valid\":true,\"input\":"@ + json_string(input@) + ",\"canonical\":"@
            + json_string(seq!['='] + spec_render(expr@)) + ",\"ast\":"@ + spec_json(expr@),
{
    let mut out = String::from_str("{\"valid\":true,\"input\":");
    push_json_string(&mut out, input);
    out.append(",\"canonical\":");
    let mut canonical = String::from_str("=");
    proof {
        reveal_strlit("=");
        assert("="@ =~= seq!['=']);
    }
    canonical.append(render(expr).as_str());
    push_json_string(&mut out, canonical.as_str());
    out.append(",\"ast\":");
    out.append(to_json(expr).as_str());
    out
}

} // verus!
