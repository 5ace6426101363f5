//! Character classes and small text helpers shared by the lexer, the parser
//! and the printer.

use vstd::prelude::*;

verus! {

/// The characters that Unicode gives the `White_Space` property, which is the
/// set that `char::is_whitespace` accepts.
pub open spec fn spec_is_whitespace(c: char) -> bool {
    let u = c as u32;
    ||| 0x09 <= u <= 0x0d
    ||| u == 0x20
    ||| u == 0x85
    ||| u == 0xa0
    ||| u == 0x1680
    ||| 0x2000 <= u <= 0x200a
    ||| u == 0x2028
    ||| u == 0x2029
    ||| u == 0x202f
    ||| u == 0x205f
    ||| u == 0x3000
}

pub fn is_whitespace(c: char) -> (r: bool)
    ensures
        r == spec_is_whitespace(c),
{
    let u = c as u32;
    (0x09 <= u && u <= 0x0d) || u == 0x20 || u == 0x85 || u == 0xa0 || u == 0x1680 || (0x2000
        <= u && u <= 0x200a) || u == 0x2028 || u == 0x2029 || u == 0x202f || u == 0x205f || u
        == 0x3000
}

pub open spec fn is_ascii_digit(c: char) -> bool {
    '0' <= c && c <= '9'
}

pub open spec fn is_ascii_upper(c: char) -> bool {
    'A' <= c && c <= 'Z'
}

pub open spec fn is_ascii_lower(c: char) -> bool {
    'a' <= c && c <= 'z'
}

pub open spec fn is_ascii_letter(c: char) -> bool {
    is_ascii_upper(c) || is_ascii_lower(c)
}

pub open spec fn is_ascii(c: char) -> bool {
    (c as u32) < 0x80
}

/// What `char::is_alphabetic` returns for `c` (the Unicode `Alphabetic`
/// property).
pub uninterp spec fn unicode_alphabetic(c: char) -> bool;

/// What `char::is_alphanumeric` returns for `c` (`Alphabetic` or `Numeric`).
pub uninterp spec fn unicode_alphanumeric(c: char) -> bool;

/// Calls `char::is_alphabetic`; the contract names its result and says no
/// more about it.
#[verifier::external_body]
fn std_is_alphabetic(c: char) -> (r: bool)
    ensures
        r == unicode_alphabetic(c),
{
    c.is_alphabetic()
}

/// Calls `char::is_alphanumeric`; the contract names its result and says no
/// more about it.
#[verifier::external_body]
fn std_is_alphanumeric(c: char) -> (r: bool)
    ensures
        r == unicode_alphanumeric(c),
{
    c.is_alphanumeric()
}

/// Alphabetic characters: ASCII is decided here (the ASCII letters), other
/// characters by the Unicode `Alphabetic` property.
pub open spec fn spec_is_alphabetic(c: char) -> bool {
    if is_ascii(c) {
        is_ascii_letter(c)
    } else {
        unicode_alphabetic(c)
    }
}

/// Alphanumeric characters: ASCII letters and digits, other characters by
/// the Unicode `Alphabetic` or `Numeric` properties.
pub open spec fn spec_is_alphanumeric(c: char) -> bool {
    if is_ascii(c) {
        is_ascii_letter(c) || is_ascii_digit(c)
    } else {
        unicode_alphanumeric(c)
    }
}

pub fn is_alphabetic(c: char) -> (r: bool)
    ensures
        r == spec_is_alphabetic(c),
{
    if (c as u32) < 0x80 {
        ('A' <= c && c <= 'Z') || ('a' <= c && c <= 'z')
    } else {
        std_is_alphabetic(c)
    }
}

pub fn is_alphanumeric(c: char) -> (r: bool)
    ensures
        r == spec_is_alphanumeric(c),
{
    if (c as u32) < 0x80 {
        ('A' <= c && c <= 'Z') || ('a' <= c && c <= 'z') || ('0' <= c && c <= '9')
    } else {
        std_is_alphanumeric(c)
    }
}

/// ASCII upper-casing of one character; every other character is kept.
pub open spec fn upper_char(c: char) -> char {
    if is_ascii_lower(c) {
        ((c as u32) - 32) as char
    } else {
        c
    }
}

pub open spec fn upper(s: Seq<char>) -> Seq<char> {
    Seq::new(s.len(), |i: int| upper_char(s[i]))
}

pub fn to_upper_char(c: char) -> (r: char)
    ensures
        r == upper_char(c),
{
    if 'a' <= c && c <= 'z' {
        let u: u32 = (c as u32) - 32;
        assert(0x41 <= u <= 0x5a);
        char_from_ascii(u)
    } else {
        c
    }
}

/// The character with the given ASCII code.
fn char_from_ascii(u: u32) -> (c: char)
    requires
        u < 0x80,
    ensures
        c == u as char,
        c as u32 == u,
{
    let b: u8 = u as u8;
    b as char
}

/// Appends one character to a `String` (`String::push`).
#[verifier::external_body]
pub(crate) fn push_char(s: &mut String, c: char)
    ensures
        final(s)@ == old(s)@.push(c),
{
    s.push(c);
}

/// Appends a sequence of characters to a `String`.
pub fn push_chars(s: &mut String, cs: &Vec<char>)
    ensures
        final(s)@ == old(s)@ + cs@,
{
    let ghost start = s@;
    let mut i: usize = 0;
    while i < cs.len()
        invariant
            i <= cs.len(),
            s@ == start + cs@.take(i as int),
        decreases cs.len() - i,
    {
        push_char(s, cs[i]);
        i = i + 1;
        assert(cs@.take(i as int) == cs@.take(i - 1).push(cs@[i - 1]));
    }
    assert(cs@.take(i as int) == cs@);
}

/// The characters of a string slice, in order.
pub fn chars_of(s: &str) -> (v: Vec<char>)
    ensures
        v@ == s@,
{
    let mut v: Vec<char> = Vec::new();
    for c in it: s.chars()
        invariant
            v@ == it.seq().take(it.index() as int),
            it.seq() == s@,
    {
        v.push(c);
    }
    v
}

/// ASCII upper-casing of a character sequence.
pub fn upper_vec(s: &Vec<char>) -> (r: Vec<char>)
    ensures
        r@ == upper(s@),
{
    let mut r: Vec<char> = Vec::new();
    let mut i: usize = 0;
    while i < s.len()
        invariant
            i <= s.len(),
            r@ == upper(s@.take(i as int)),
        decreases s.len() - i,
    {
        let c = to_upper_char(s[i]);
        r.push(c);
        i = i + 1;
        assert(upper(s@.take(i as int)) == upper(s@.take(i - 1)).push(c));
    }
    assert(s@.take(i as int) == s@);
    r
}

/// ASCII upper-casing of a string (`str::to_ascii_uppercase`).
pub fn upper_string(s: &str) -> (r: String)
    ensures
        r@ == upper(s@),
{
    let cs = chars_of(s);
    let u = upper_vec(&cs);
    let mut r = String::new();
    push_chars(&mut r, &u);
    r
}

/// Whether two character sequences are equal.
pub fn chars_eq(a: &Vec<char>, b: &Vec<char>) -> (r: bool)
    ensures
        r == (a@ == b@),
{
    if a.len() != b.len() {
        return false;
    }
    let mut i: usize = 0;
    while i < a.len()
        invariant
            i <= a.len(),
            a.len() == b.len(),
            forall|k: int| 0 <= k < i ==> a@[k] == b@[k],
        decreases a.len() - i,
    {
        if a[i] != b[i] {
            return false;
        }
        i = i + 1;
    }
    assert(a@ =~= b@);
    true
}

} // verus!
