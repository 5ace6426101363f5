//! What the evaluation helpers and the JSON writer mean, stated over all
//! inputs: how texts are ordered, which error an operation hands on, what a
//! literal evaluates to, and how values and operators are named in JSON.

use vstd::prelude::*;
use crate::chars::upper;
use crate::eval::{Val, seq_order, spec_compare, spec_first_error, spec_resolve, value_json};
use crate::parser::{Ex, BinaryOp};
use crate::printer::{binary_symbol, binary_op_name, spec_json};
use crate::workbook::CellAt;

verus! {

// ---------------------------------------------------------------------------
// The order of texts.
// ---------------------------------------------------------------------------

/// Past a common prefix, two sequences compare as what follows it.
proof fn lemma_seq_order_skip(a: Seq<char>, b: Seq<char>, i: int)
    requires
        0 <= i <= a.len(),
        i <= b.len(),
        a.take(i) == b.take(i),
    ensures
        seq_order(a, b) == seq_order(a.skip(i), b.skip(i)),
    decreases i,
{
    if i > 0 {
        assert(a[0] == a.take(i)[0]);
        assert(b[0] == b.take(i)[0]);
        assert(a.drop_first().take(i - 1) =~= a.take(i).drop_first());
        assert(b.drop_first().take(i - 1) =~= b.take(i).drop_first());
        lemma_seq_order_skip(a.drop_first(), b.drop_first(), i - 1);
        assert(a.drop_first().skip(i - 1) =~= a.skip(i));
        assert(b.drop_first().skip(i - 1) =~= b.skip(i));
    } else {
        assert(a.skip(0) =~= a);
        assert(b.skip(0) =~= b);
    }
}

/// Two texts compare by their first differing character once upper-cased
/// (by code point), whatever their lengths.
pub proof fn law_text_order_first_difference(a: Seq<char>, b: Seq<char>, i: int)
    requires
        0 <= i < upper(a).len(),
        i < upper(b).len(),
        upper(a).take(i) == upper(b).take(i),
        upper(a)[i] != upper(b)[i],
    ensures
        spec_compare(Val::Text(a), Val::Text(b)) == (if (upper(a)[i] as u32) < (upper(b)[i] as u32) {
            -1int
        } else {
            1int
        }),
{
    let ua = upper(a);
    let ub = upper(b);
    lemma_seq_order_skip(ua, ub, i);
    assert(ua.skip(i)[0] == ua[i]);
    assert(ub.skip(i)[0] == ub[i]);
}

/// A text that is, once upper-cased, a proper prefix of another sorts
/// before it; texts equal once upper-cased compare equal.
pub proof fn law_text_order_prefix(a: Seq<char>, b: Seq<char>)
    requires
        upper(a).len() <= upper(b).len(),
        upper(b).take(upper(a).len() as int) == upper(a),
    ensures
        spec_compare(Val::Text(a), Val::Text(b)) == (if upper(a).len() < upper(b).len() {
            -1int
        } else {
            0int
        }),
        spec_compare(Val::Text(b), Val::Text(a)) == (if upper(a).len() < upper(b).len() {
            1int
        } else {
            0int
        }),
{
    let ua = upper(a);
    let ub = upper(b);
    let n = ua.len() as int;
    assert(ua.take(n) =~= ua);
    lemma_seq_order_skip(ua, ub, n);
    lemma_seq_order_skip(ub, ua, n);
    assert(ua.skip(n).len() == 0);
}

// ---------------------------------------------------------------------------
// Errors hand themselves on.
// ---------------------------------------------------------------------------

/// An error operand short-circuits an operation: a left error is the
/// result whatever the right operand is; otherwise a right error is; with
/// no error operand nothing is handed on.
pub proof fn law_error_operand_is_the_result(l: Val, r: Val)
    ensures
        l is Error ==> spec_first_error(l, r) == Some(l),
        !(l is Error) && r is Error ==> spec_first_error(l, r) == Some(r),
        !(l is Error) && !(r is Error) ==> spec_first_error(l, r) is None,
{
}

// ---------------------------------------------------------------------------
// Literals stand for themselves.
// ---------------------------------------------------------------------------

/// A text, boolean or error literal evaluates to that same value, whatever
/// the workbook holds, and the value's JSON is the literal's JSON.
pub proof fn law_literal_is_its_value(
    e: Ex,
    cells: Map<CellAt, Val>,
    names: Map<Seq<char>, Val>,
    number: Seq<char>,
)
    requires
        e is Text || e is Boolean || e is Error,
    ensures
        e matches Ex::Boolean(b) ==> spec_resolve(e, cells, names) == Ok::<Val, Seq<char>>(
            Val::Boolean(b),
        ),
        e matches Ex::Text(s) ==> spec_resolve(e, cells, names) == Ok::<Val, Seq<char>>(
            Val::Text(s),
        ),
        e matches Ex::Error(s) ==> spec_resolve(e, cells, names) == Ok::<Val, Seq<char>>(
            Val::Error(s),
        ),
        spec_resolve(e, cells, names) matches Ok(v) && value_json(v, number) == spec_json(e),
{
}

// ---------------------------------------------------------------------------
// JSON names.
// ---------------------------------------------------------------------------

/// The JSON of a boolean value carries that boolean as `true` or `false`,
/// and the two booleans are written differently.
pub proof fn law_boolean_value_json(b: bool, number: Seq<char>)
    ensures
        value_json(Val::Boolean(b), number) == "{\"type\":\"boolean\",\"value\":"@ + (if b {
            "true"@
        } else {
            "false"@
        }) + "}"@,
        value_json(Val::Boolean(true), number) != value_json(Val::Boolean(false), number),
{
    reveal_strlit("true");
    reveal_strlit("false");
    let p = "{\"type\":\"boolean\",\"value\":"@;
    let t = value_json(Val::Boolean(true), number);
    let f = value_json(Val::Boolean(false), number);
    assert(t[p.len() as int] == 't');
    assert(f[p.len() as int] == 'f');
}

/// The name JSON gives an operator written with `sym`: the names follow the
/// symbols, `<` being "lt" and `>` being "gt".
pub open spec fn json_name_of_symbol(sym: Seq<char>) -> Seq<char> {
    if sym.len() == 1 {
        let c = sym[0];
        if c == '+' {
            "add"@
        } else if c == '-' {
            "sub"@
        } else if c == '*' {
            "mul"@
        } else if c == '/' {
            "div"@
        } else if c == '^' {
            "pow"@
        } else if c == '&' {
            "concat"@
        } else if c == '=' {
            "eq"@
        } else if c == '<' {
            "lt"@
        } else {
            "gt"@
        }
    } else if sym[1] == '>' {
        "ne"@
    } else if sym[0] == '<' {
        "le"@
    } else {
        "ge"@
    }
}

/// The JSON of a binary operation names its operator after the symbol the
/// operation is written (and parsed) with.
pub proof fn law_binary_json_names_the_symbol(op: BinaryOp, a: Ex, b: Ex)
    ensures
        binary_op_name(op) == json_name_of_symbol(binary_symbol(op)),
        spec_json(Ex::Binary(op, Box::new(a), Box::new(b))) == "{\"type\":\"binary\",\"op\":\""@
            + json_name_of_symbol(binary_symbol(op)) + "\",\"left\":"@ + spec_json(a)
            + ",\"right\":"@ + spec_json(b) + "}"@,
{
    reveal_strlit("+");
    reveal_strlit("-");
    reveal_strlit("*");
    reveal_strlit("/");
    reveal_strlit("^");
    reveal_strlit("&");
    reveal_strlit("=");
    reveal_strlit("<>");
    reveal_strlit("<");
    reveal_strlit("<=");
    reveal_strlit(">");
    reveal_strlit(">=");
    match op {
        BinaryOp::Add => assert(binary_symbol(op) =~= seq!['+']),
        BinaryOp::Sub => assert(binary_symbol(op) =~= seq!['-']),
        BinaryOp::Mul => assert(binary_symbol(op) =~= seq!['*']),
        BinaryOp::Div => assert(binary_symbol(op) =~= seq!['/']),
        BinaryOp::Pow => assert(binary_symbol(op) =~= seq!['^']),
        BinaryOp::Concat => assert(binary_symbol(op) =~= seq!['&']),
        BinaryOp::Eq => assert(binary_symbol(op) =~= seq!['=']),
        BinaryOp::Ne => assert(binary_symbol(op) =~= seq!['<', '>']),
        BinaryOp::Lt => assert(binary_symbol(op) =~= seq!['<']),
        BinaryOp::Le => assert(binary_symbol(op) =~= seq!['<', '=']),
        BinaryOp::Gt => assert(binary_symbol(op) =~= seq!['>']),
        BinaryOp::Ge => assert(binary_symbol(op) =~= seq!['>', '=']),
    }
}

} // verus!
