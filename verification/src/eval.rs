//! Scalar values and the parts of evaluation that do not compute with
//! floating point: the value of a tree that needs no arithmetic (a literal
//! other than a number, a reference or a name read from the workbook, or a
//! refusal), how an error operand is handed on, the order of two values
//! other than two numbers, and the JSON form of a value.
//!
//! A number is held as the bit pattern of an IEEE 754 double (`f64::to_bits`);
//! the arithmetic on it is done by the caller.

use vstd::prelude::*;
use crate::chars::{upper, upper_vec, chars_of};
use crate::parser::{Expr, Ex};
use crate::workbook::{Workbook, CellAt, cell_at, read_cell, read_name};
use crate::printer::{json_string, json_bool, push_json_string};

verus! {

#[derive(Debug, Clone, PartialEq)]
pub enum Value {
    Number(u64),
    Text(String),
    Boolean(bool),
    Error(String),
}

/// The content of a value.
pub enum Val {
    Number(u64),
    Text(Seq<char>),
    Boolean(bool),
    Error(Seq<char>),
}

impl View for Value {
    type V = Val;

    open spec fn view(&self) -> Val {
        match self {
            Value::Number(n) => Val::Number(*n),
            Value::Text(s) => Val::Text(s@),
            Value::Boolean(b) => Val::Boolean(*b),
            Value::Error(s) => Val::Error(s@),
        }
    }
}

impl Value {
    /// A field-by-field copy.
    pub fn copy(&self) -> (r: Value)
        ensures
            r@ == self@,
    {
        match self {
            Value::Number(n) => Value::Number(*n),
            Value::Text(s) => Value::Text(s.clone()),
            Value::Boolean(b) => Value::Boolean(*b),
            Value::Error(s) => Value::Error(s.clone()),
        }
    }
}

/// What an evaluation could not handle (ranges, function calls, ...).
#[derive(Debug, Clone, PartialEq)]
pub struct Unsupported(pub &'static str);

impl Unsupported {
    pub fn message(&self) -> (r: String)
        ensures
            r@ == "evaluation of "@ + self.0@ + " is not supported yet"@,
    {
        let mut m = String::from_str("evaluation of ");
        m.append(self.0);
        m.append(" is not supported yet");
        m
    }
}

/// Lexicographic order of two character sequences (by code point):
/// -1, 0 or 1.
pub open spec fn seq_order(a: Seq<char>, b: Seq<char>) -> int
    decreases a.len(),
{
    if a.len() == 0 {
        if b.len() == 0 {
            0
        } else {
            -1
        }
    } else if b.len() == 0 {
        1
    } else if a[0] < b[0] {
        -1
    } else if a[0] > b[0] {
        1
    } else {
        seq_order(a.drop_first(), b.drop_first())
    }
}

/// The order of two values, as -1, 0 or 1, when it does not come from
/// comparing two numbers: texts compare case-insensitively, `FALSE` sorts
/// before `TRUE`, every number before every text and every text before
/// every boolean; error values compare equal to everything but numbers.
pub open spec fn spec_compare(l: Val, r: Val) -> int {
    match (l, r) {
        (Val::Text(a), Val::Text(b)) => seq_order(upper(a), upper(b)),
        (Val::Boolean(a), Val::Boolean(b)) => if a == b {
            0
        } else if !a {
            -1
        } else {
            1
        },
        (Val::Number(_), _) => -1,
        (_, Val::Number(_)) => 1,
        (Val::Text(_), Val::Boolean(_)) => -1,
        (Val::Boolean(_), Val::Text(_)) => 1,
        _ => 0,
    }
}

fn seq_order_exec(a: &Vec<char>, b: &Vec<char>) -> (r: i8)
    ensures
        r as int == seq_order(a@, b@),
{
    let mut i: usize = 0;
    assert(a@.skip(0) =~= a@);
    assert(b@.skip(0) =~= b@);
    while i < a.len() && i < b.len() && a[i] == b[i]
        invariant
            i <= a.len(),
            i <= b.len(),
            seq_order(a@, b@) == seq_order(a@.skip(i as int), b@.skip(i as int)),
        decreases a.len() - i,
    {
        assert(a@.skip(i as int).drop_first() =~= a@.skip(i + 1));
        assert(b@.skip(i as int).drop_first() =~= b@.skip(i + 1));
        i = i + 1;
    }
    if i == a.len() {
        if i == b.len() {
            0
        } else {
            -1
        }
    } else if i == b.len() {
        1
    } else if a[i] < b[i] {
        -1
    } else {
        1
    }
}

/// The order of two values (-1, 0 or 1), or `None` when both are numbers,
/// whose order is the caller's to decide.
pub fn compare_non_numeric(l: &Value, r: &Value) -> (res: Option<i8>)
    ensures
        res is None <==> (l@ is Number && r@ is Number),
        res matches Some(o) ==> o as int == spec_compare(l@, r@),
{
    match (l, r) {
        (Value::Number(_), Value::Number(_)) => None,
        (Value::Text(a), Value::Text(b)) => {
            let ua = upper_vec(&chars_of(a.as_str()));
            let ub = upper_vec(&chars_of(b.as_str()));
            Some(seq_order_exec(&ua, &ub))
        },
        (Value::Boolean(a), Value::Boolean(b)) => {
            if *a == *b {
                Some(0)
            } else if !*a {
                Some(-1)
            } else {
                Some(1)
            }
        },
        (Value::Number(_), _) => Some(-1),
        (_, Value::Number(_)) => Some(1),
        (Value::Text(_), Value::Boolean(_)) => Some(-1),
        (Value::Boolean(_), Value::Text(_)) => Some(1),
        _ => Some(0),
    }
}


/// The value of a tree whose evaluation needs no arithmetic, or what it is
/// that cannot be evaluated: texts, booleans and error values stand for
/// themselves, a reference reads its cell, a name reads its value (an unset
/// name is refused), and ranges, the reference operators, array literals and
/// function calls are refused.
pub open spec fn spec_resolve(e: Ex, cells: Map<CellAt, Val>, names: Map<Seq<char>, Val>) -> Result<
    Val,
    Seq<char>,
> {
    match e {
        Ex::Text(s) => Ok(Val::Text(s)),
        Ex::Boolean(b) => Ok(Val::Boolean(b)),
        Ex::Error(s) => Ok(Val::Error(s)),
        Ex::Name(n) => match read_name(names, n) {
            Some(v) => Ok(v),
            None => Err("defined names"@),
        },
        Ex::Reference(c) => Ok(read_cell(cells, cell_at(c.sheet, c.column, c.row as u32))),
        Ex::Range(..) => Err("ranges"@),
        Ex::Intersect(..) => Err("the intersect operator"@),
        Ex::Union(_) => Err("the union operator"@),
        Ex::Array(_) => Err("array literals"@),
        Ex::Call(..) => Err("function calls"@),
        Ex::Number(_) | Ex::Unary(..) | Ex::Binary(..) => Err("arithmetic"@),
    }
}

/// Evaluates a tree that needs no arithmetic (anything but a number, a unary
/// or a binary operation).
pub fn resolve(expr: &Expr, workbook: &Workbook) -> (r: Result<Value, Unsupported>)
    requires
        !(expr@ is Number || expr@ is Unary || expr@ is Binary),
    ensures
        match r {
            Ok(v) => spec_resolve(expr@, workbook.cells(), workbook.names()) == Ok::<
                Val,
                Seq<char>,
            >(v@),
            Err(u) => spec_resolve(expr@, workbook.cells(), workbook.names()) == Err::<
                Val,
                Seq<char>,
            >(u.0@),
        },
{
    match expr {
        Expr::Text(s) => Ok(Value::Text(s.clone())),
        Expr::Boolean(b) => Ok(Value::Boolean(*b)),
        Expr::Error(e) => Ok(Value::Error(e.clone())),
        Expr::Name(name) => match workbook.get_name(name.as_str()) {
            Some(v) => Ok(v),
            None => Err(Unsupported("defined names")),
        },
        Expr::Reference(cell) => {
            let v = match &cell.sheet {
                Some(sh) => workbook.get_cell(Some(sh.as_str()), cell.column.as_str(), cell.row),
                None => workbook.get_cell(None, cell.column.as_str(), cell.row),
            };
            Ok(v)
        },
        Expr::Range(..) => Err(Unsupported("ranges")),
        Expr::Intersect(..) => Err(Unsupported("the intersect operator")),
        Expr::Union(..) => Err(Unsupported("the union operator")),
        Expr::Array(..) => Err(Unsupported("array literals")),
        Expr::Call(..) => Err(Unsupported("function calls")),
        Expr::Number(_) | Expr::Unary(..) | Expr::Binary(..) => Err(Unsupported("arithmetic")),
    }
}

/// The error value an operation with operands `l` and `r` hands on
/// unchanged: the left operand if it is an error, else the right one if it
/// is; `None` when neither is.
pub open spec fn spec_first_error(l: Val, r: Val) -> Option<Val> {
    if l is Error {
        Some(l)
    } else if r is Error {
        Some(r)
    } else {
        None
    }
}

/// An error operand short-circuits an operation: it is the result.
pub fn first_error(l: &Value, r: &Value) -> (res: Option<Value>)
    ensures
        match res {
            Some(v) => spec_first_error(l@, r@) == Some(v@),
            None => spec_first_error(l@, r@) is None,
        },
{
    match l {
        Value::Error(_) => Some(l.copy()),
        _ => match r {
            Value::Error(_) => Some(r.copy()),
            _ => None,
        },
    }
}

/// The JSON form of a value, with `number` as the text of a number's value.
pub open spec fn value_json(v: Val, number: Seq<char>) -> Seq<char> {
    match v {
        Val::Number(_) => "{\"type\":\"number\",\"value\":"@ + number + "}"@,
        Val::Text(s) => "{\"type\":\"text\",\"value\":"@ + json_string(s) + "}"@,
        Val::Boolean(b) => "{\"type\":\"boolean\",\"value\":"@ + json_bool(b) + "}"@,
        Val::Error(e) => "{\"type\":\"error\",\"value\":"@ + json_string(e) + "}"@,
    }
}

/// The JSON form of a value. A number's value is written as `number`, the
/// text the caller made of the double it holds.
pub fn to_json(v: &Value, number: &str) -> (r: String)
    ensures
        r@ == value_json(v@, number@),
{
    let mut out = String::new();
    match v {
        Value::Number(_) => {
            out.append("{\"type\":\"number\",\"value\":");
            out.append(number);
        },
        Value::Text(s) => {
            out.append("{\"type\":\"text\",\"value\":");
            push_json_string(&mut out, s.as_str());
        },
        Value::Boolean(b) => {
            out.append("{\"type\":\"boolean\",\"value\":");
            if *b {
                out.append("true");
            } else {
                out.append("false");
            }
        },
        Value::Error(e) => {
            out.append("{\"type\":\"error\",\"value\":");
            push_json_string(&mut out, e.as_str());
        },
    }
    out.append("}");
    out
}

} // verus!
