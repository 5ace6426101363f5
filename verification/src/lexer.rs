//! Tokenizer for spreadsheet formula text (the part after the leading '=').
//! Positions are character offsets into the input, used for error messages.

use vstd::prelude::*;
use crate::chars::{
    spec_is_whitespace, spec_is_alphabetic, spec_is_alphanumeric, upper, is_whitespace,
    is_alphabetic, is_alphanumeric, to_upper_char, chars_of, push_char,
};
use crate::number::{Decimal, number_value, number_end, starts_number};

verus! {

#[derive(Debug, PartialEq)]
pub enum TokenKind {
    Number(Decimal),
    Text(String),
    Ident(String),
    SheetName(String),
    Error(String),
    Plus,
    Minus,
    Star,
    Slash,
    Caret,
    Ampersand,
    Percent,
    Eq,
    Ne,
    Lt,
    Le,
    Gt,
    Ge,
    LParen,
    RParen,
    LBrace,
    RBrace,
    Comma,
    Semicolon,
    Colon,
    Bang,
    Eof,
}

/// The mathematical content of a token kind.
pub enum Kind {
    Number((Seq<char>, int)),
    Text(Seq<char>),
    Ident(Seq<char>),
    SheetName(Seq<char>),
    Error(Seq<char>),
    Plus,
    Minus,
    Star,
    Slash,
    Caret,
    Ampersand,
    Percent,
    Eq,
    Ne,
    Lt,
    Le,
    Gt,
    Ge,
    LParen,
    RParen,
    LBrace,
    RBrace,
    Comma,
    Semicolon,
    Colon,
    Bang,
    Eof,
}

impl View for TokenKind {
    type V = Kind;

    open spec fn view(&self) -> Kind {
        match self {
            TokenKind::Number(d) => Kind::Number(d@),
            TokenKind::Text(s) => Kind::Text(s@),
            TokenKind::Ident(s) => Kind::Ident(s@),
            TokenKind::SheetName(s) => Kind::SheetName(s@),
            TokenKind::Error(s) => Kind::Error(s@),
            TokenKind::Plus => Kind::Plus,
            TokenKind::Minus => Kind::Minus,
            TokenKind::Star => Kind::Star,
            TokenKind::Slash => Kind::Slash,
            TokenKind::Caret => Kind::Caret,
            TokenKind::Ampersand => Kind::Ampersand,
            TokenKind::Percent => Kind::Percent,
            TokenKind::Eq => Kind::Eq,
            TokenKind::Ne => Kind::Ne,
            TokenKind::Lt => Kind::Lt,
            TokenKind::Le => Kind::Le,
            TokenKind::Gt => Kind::Gt,
            TokenKind::Ge => Kind::Ge,
            TokenKind::LParen => Kind::LParen,
            TokenKind::RParen => Kind::RParen,
            TokenKind::LBrace => Kind::LBrace,
            TokenKind::RBrace => Kind::RBrace,
            TokenKind::Comma => Kind::Comma,
            TokenKind::Semicolon => Kind::Semicolon,
            TokenKind::Colon => Kind::Colon,
            TokenKind::Bang => Kind::Bang,
            TokenKind::Eof => Kind::Eof,
        }
    }
}

/// A token, the character offset where it starts, and whether whitespace
/// comes right before it (which is what the intersect operator is made of).
#[derive(Debug)]
pub struct Token {
    pub kind: TokenKind,
    pub pos: usize,
    pub after_space: bool,
}

pub struct Tok {
    pub kind: Kind,
    pub pos: int,
    pub after_space: bool,
}

impl View for Token {
    type V = Tok;

    open spec fn view(&self) -> Tok {
        Tok { kind: self.kind@, pos: self.pos as int, after_space: self.after_space }
    }
}

pub open spec fn view_tokens(ts: Seq<Token>) -> Seq<Tok> {
    Seq::new(ts.len(), |i: int| ts[i]@)
}

#[derive(Debug)]
pub struct LexError {
    pub message: String,
    pub pos: usize,
}

/// An error: its message and its character offset.
pub type Failure = (Seq<char>, int);

impl View for LexError {
    type V = Failure;

    open spec fn view(&self) -> Failure {
        (self.message@, self.pos as int)
    }
}

pub struct Lexer {
    chars: Vec<char>,
    pos: usize,
}

pub open spec fn is_ident_start(c: char) -> bool {
    spec_is_alphabetic(c) || c == '_' || c == '$'
}

pub open spec fn is_ident_char(c: char) -> bool {
    spec_is_alphanumeric(c) || c == '_' || c == '.' || c == '$'
}

/// First index at or after `i` that does not hold whitespace.
pub open spec fn skip_ws(s: Seq<char>, i: int) -> int
    decreases s.len() - i,
{
    if 0 <= i < s.len() && spec_is_whitespace(s[i]) {
        skip_ws(s, i + 1)
    } else {
        i
    }
}

/// First index at or after `i` that does not hold an identifier character.
pub open spec fn ident_end(s: Seq<char>, i: int) -> int
    decreases s.len() - i,
{
    if 0 <= i < s.len() && is_ident_char(s[i]) {
        ident_end(s, i + 1)
    } else {
        i
    }
}

/// The body of a literal quoted with `q`, read from `i` (just after the
/// opening quote) up to the closing quote, a doubled quote standing for one
/// quote character; with the index just past the closing quote. `None` when
/// the input ends first.
pub open spec fn quoted(s: Seq<char>, i: int, q: char) -> Option<(Seq<char>, int)>
    decreases s.len() - i,
{
    if i < 0 || i >= s.len() {
        None
    } else if s[i] == q {
        if i + 1 < s.len() && s[i + 1] == q {
            match quoted(s, i + 2, q) {
                Some((body, e)) => Some((seq![q] + body, e)),
                None => None,
            }
        } else {
            Some((Seq::empty(), i + 1))
        }
    } else {
        match quoted(s, i + 1, q) {
            Some((body, e)) => Some((seq![s[i]] + body, e)),
            None => None,
        }
    }
}

/// The error literals, in canonical (upper-case) spelling.
pub open spec fn error_literal(k: int) -> Seq<char> {
    if k == 0 {
        seq!['#', 'N', 'U', 'L', 'L', '!']
    } else if k == 1 {
        seq!['#', 'D', 'I', 'V', '/', '0', '!']
    } else if k == 2 {
        seq!['#', 'V', 'A', 'L', 'U', 'E', '!']
    } else if k == 3 {
        seq!['#', 'R', 'E', 'F', '!']
    } else if k == 4 {
        seq!['#', 'N', 'A', 'M', 'E', '?']
    } else if k == 5 {
        seq!['#', 'N', '/', 'A']
    } else if k == 6 {
        seq!['#', 'N', 'U', 'M', '!']
    } else {
        seq!['#', 'G', 'E', 'T', 'T', 'I', 'N', 'G', '_', 'D', 'A', 'T', 'A', '!']
    }
}

pub const N_ERROR_LITERALS: usize = 8;

/// Whether error literal `k` is spelled at `i`, ignoring ASCII case.
pub open spec fn literal_at(s: Seq<char>, i: int, k: int) -> bool {
    let lit = error_literal(k);
    0 <= i && i + lit.len() <= s.len() && upper(s.subrange(i, i + lit.len())) == lit
}

/// The first error literal (from `k` on) spelled at `i`.
pub open spec fn find_error_literal(s: Seq<char>, i: int, k: int) -> Option<Seq<char>>
    decreases 8 - k,
{
    if k >= 8 || k < 0 {
        None
    } else if literal_at(s, i, k) {
        Some(error_literal(k))
    } else {
        find_error_literal(s, i, k + 1)
    }
}

/// Single-character and two-character operators and punctuation starting at
/// `i`: the kind and the index past it.
pub open spec fn punct(s: Seq<char>, i: int) -> Option<(Kind, int)> {
    let c = s[i];
    let next = if i + 1 < s.len() {
        Some(s[i + 1])
    } else {
        None
    };
    if c == '+' {
        Some((Kind::Plus, i + 1))
    } else if c == '-' {
        Some((Kind::Minus, i + 1))
    } else if c == '*' {
        Some((Kind::Star, i + 1))
    } else if c == '/' {
        Some((Kind::Slash, i + 1))
    } else if c == '^' {
        Some((Kind::Caret, i + 1))
    } else if c == '&' {
        Some((Kind::Ampersand, i + 1))
    } else if c == '%' {
        Some((Kind::Percent, i + 1))
    } else if c == '(' {
        Some((Kind::LParen, i + 1))
    } else if c == ')' {
        Some((Kind::RParen, i + 1))
    } else if c == '{' {
        Some((Kind::LBrace, i + 1))
    } else if c == '}' {
        Some((Kind::RBrace, i + 1))
    } else if c == ',' {
        Some((Kind::Comma, i + 1))
    } else if c == ';' {
        Some((Kind::Semicolon, i + 1))
    } else if c == ':' {
        Some((Kind::Colon, i + 1))
    } else if c == '!' {
        Some((Kind::Bang, i + 1))
    } else if c == '=' {
        Some((Kind::Eq, i + 1))
    } else if c == '<' {
        if next == Some('=') {
            Some((Kind::Le, i + 2))
        } else if next == Some('>') {
            Some((Kind::Ne, i + 2))
        } else {
            Some((Kind::Lt, i + 1))
        }
    } else if c == '>' {
        if next == Some('=') {
            Some((Kind::Ge, i + 2))
        } else {
            Some((Kind::Gt, i + 1))
        }
    } else {
        None
    }
}

pub open spec fn msg_unexpected(c: char) -> Seq<char> {
    "unexpected character '"@ + seq![c] + "'"@
}

/// The token that starts at or after `i` (after whitespace), and the index
/// just past it.
pub open spec fn lex_token(s: Seq<char>, i: int) -> Result<(Tok, int), Failure> {
    let st = skip_ws(s, i);
    let sp = st > i;
    if st >= s.len() {
        Ok((Tok { kind: Kind::Eof, pos: st, after_space: sp }, st))
    } else {
        let c = s[st];
        if c == '"' {
            match quoted(s, st + 1, '"') {
                Some((body, e)) => Ok((Tok { kind: Kind::Text(body), pos: st, after_space: sp }, e)),
                None => Err(("unterminated string literal"@, st)),
            }
        } else if c == '\'' {
            match quoted(s, st + 1, '\'') {
                Some((body, e)) => Ok(
                    (Tok { kind: Kind::SheetName(body), pos: st, after_space: sp }, e),
                ),
                None => Err(("unterminated sheet name"@, st)),
            }
        } else if c == '#' {
            match find_error_literal(s, st, 0) {
                Some(lit) => Ok(
                    (Tok { kind: Kind::Error(lit), pos: st, after_space: sp }, st + lit.len()),
                ),
                None => Err((msg_unexpected(c), st)),
            }
        } else if starts_number(s, st) {
            Ok(
                (
                    Tok { kind: Kind::Number(number_value(s, st)), pos: st, after_space: sp },
                    number_end(s, st),
                ),
            )
        } else if is_ident_start(c) {
            let e = ident_end(s, st + 1);
            Ok((Tok { kind: Kind::Ident(s.subrange(st, e)), pos: st, after_space: sp }, e))
        } else {
            match punct(s, st) {
                Some((k, e)) => Ok((Tok { kind: k, pos: st, after_space: sp }, e)),
                None => Err((msg_unexpected(c), st)),
            }
        }
    }
}

/// All tokens from `i` on, ending with `Eof`, or the first error.
pub open spec fn lex_from(s: Seq<char>, i: int) -> Result<Seq<Tok>, Failure>
    decreases s.len() - i,
{
    match lex_token(s, i) {
        Err(e) => Err(e),
        Ok((t, j)) => if t.kind is Eof {
            Ok(seq![t])
        } else if i < j <= s.len() {
            match lex_from(s, j) {
                Ok(rest) => Ok(seq![t] + rest),
                Err(e) => Err(e),
            }
        } else {
            Err((Seq::empty(), j))
        },
    }
}

/// The tokens of a whole formula text.
pub open spec fn lex(s: Seq<char>) -> Result<Seq<Tok>, Failure> {
    lex_from(s, 0)
}

pub proof fn lemma_skip_ws(s: Seq<char>, i: int)
    requires
        0 <= i <= s.len(),
    ensures
        i <= skip_ws(s, i) <= s.len(),
        forall|k: int| i <= k < skip_ws(s, i) ==> spec_is_whitespace(#[trigger] s[k]),
        skip_ws(s, i) < s.len() ==> !spec_is_whitespace(s[skip_ws(s, i)]),
    decreases s.len() - i,
{
    if i < s.len() && spec_is_whitespace(s[i]) {
        lemma_skip_ws(s, i + 1);
    }
}

pub proof fn lemma_ident_end(s: Seq<char>, i: int)
    requires
        0 <= i <= s.len(),
    ensures
        i <= ident_end(s, i) <= s.len(),
        forall|k: int| i <= k < ident_end(s, i) ==> is_ident_char(#[trigger] s[k]),
        ident_end(s, i) < s.len() ==> !is_ident_char(s[ident_end(s, i)]),
    decreases s.len() - i,
{
    if i < s.len() && is_ident_char(s[i]) {
        lemma_ident_end(s, i + 1);
    }
}

pub proof fn lemma_quoted(s: Seq<char>, i: int, q: char)
    requires
        0 <= i,
    ensures
        quoted(s, i, q) matches Some((_, e)) ==> i < e <= s.len(),
    decreases s.len() - i,
{
    if 0 <= i < s.len() {
        if s[i] == q {
            if i + 1 < s.len() && s[i + 1] == q {
                lemma_quoted(s, i + 2, q);
            }
        } else {
            lemma_quoted(s, i + 1, q);
        }
    }
}

pub proof fn lemma_find_error_literal(s: Seq<char>, i: int, k: int)
    requires
        0 <= k,
    ensures
        find_error_literal(s, i, k) matches Some(lit) ==> lit.len() > 0 && i + lit.len()
            <= s.len(),
    decreases 8 - k,
{
    if k < 8 && !literal_at(s, i, k) {
        lemma_find_error_literal(s, i, k + 1);
    }
}

/// A token other than `Eof` ends after the point where scanning started.
pub proof fn lemma_lex_token_advances(s: Seq<char>, i: int)
    requires
        0 <= i <= s.len(),
    ensures
        lex_token(s, i) matches Ok((t, j)) ==> {
            &&& i <= t.pos
            &&& t.pos <= j <= s.len()
            &&& !(t.kind is Eof) ==> t.pos < j
            &&& t.kind is Eof ==> j == s.len() && t.pos == s.len()
        },
        lex_token(s, i) matches Err(e) ==> i <= e.1 < s.len(),
{
    lemma_skip_ws(s, i);
    let st = skip_ws(s, i);
    if st < s.len() {
        lemma_quoted(s, st + 1, '"');
        lemma_quoted(s, st + 1, '\'');
        lemma_find_error_literal(s, st, 0);
        lemma_ident_end(s, st + 1);
        if starts_number(s, st) {
            crate::number::lemma_number_end(s, st);
        }
    }
}

impl Lexer {
    /// The position never passes the end of the text.
    #[verifier::type_invariant]
    spec fn inv(&self) -> bool {
        self.pos <= self.chars.len()
    }

    pub closed spec fn spec_chars(&self) -> Seq<char> {
        self.chars@
    }

    pub closed spec fn spec_pos(&self) -> int {
        self.pos as int
    }

    pub fn new(input: &str) -> (r: Self)
        ensures
            r.spec_chars() == input@,
            r.spec_pos() == 0,
    {
        Lexer { chars: chars_of(input), pos: 0 }
    }

    /// The whole token list, ending with `Eof`, or the first lexical error.
    pub fn tokenize(self) -> (r: Result<Vec<Token>, LexError>)
        ensures
            match r {
                Ok(ts) => lex_from(self.spec_chars(), self.spec_pos()) == Ok::<Seq<Tok>, Failure>(
                    view_tokens(ts@),
                ),
                Err(e) => lex_from(self.spec_chars(), self.spec_pos()) == Err::<Seq<Tok>, Failure>(
                    e@,
                ),
            },
    {
        proof {
            use_type_invariant(&self);
        }
        let mut lexer = self;
        let ghost s = lexer.chars@;
        let ghost p0 = lexer.pos as int;
        let mut tokens: Vec<Token> = Vec::new();
        loop
            invariant
                lexer.chars@ == s,
                s == self.chars@,
                p0 == self.pos,
                p0 <= lexer.pos <= lexer.chars.len(),
                lex_from(s, p0) == match lex_from(s, lexer.pos as int) {
                    Ok(rest) => Ok::<Seq<Tok>, Failure>(view_tokens(tokens@) + rest),
                    Err(e) => Err(e),
                },
            decreases lexer.chars.len() - lexer.pos,
        {
            let ghost before = lexer.pos as int;
            proof {
                lemma_lex_token_advances(s, before);
            }
            let token = match lexer.next_token() {
                Ok(t) => t,
                Err(e) => {
                    return Err(e);
                },
            };
            let is_eof = match token.kind {
                TokenKind::Eof => true,
                _ => false,
            };
            let ghost old_tokens = view_tokens(tokens@);
            tokens.push(token);
            assert(view_tokens(tokens@) =~= old_tokens.push(token@));
            if is_eof {
                assert(lex_from(s, before) == Ok::<Seq<Tok>, Failure>(seq![token@]));
                assert(old_tokens + seq![token@] =~= view_tokens(tokens@));
                return Ok(tokens);
            }
            proof {
                let rest = lex_from(s, lexer.pos as int);
                if let Ok(r) = rest {
                    assert(old_tokens + (seq![token@] + r) =~= view_tokens(tokens@) + r);
                }
            }
        }
    }

    fn peek(&self) -> (r: Option<char>)
        ensures
            r == (if self.pos < self.chars.len() {
                Some(self.chars@[self.pos as int])
            } else {
                None::<char>
            }),
    {
        if self.pos < self.chars.len() {
            Some(self.chars[self.pos])
        } else {
            None
        }
    }

    fn peek_at(&self, offset: usize) -> (r: Option<char>)
        ensures
            r == (if self.pos + offset < self.chars.len() {
                Some(self.chars@[self.pos + offset])
            } else {
                None::<char>
            }),
    {
        if offset < self.chars.len() && self.pos < self.chars.len() - offset {
            Some(self.chars[self.pos + offset])
        } else {
            None
        }
    }

    fn advance(&mut self) -> (r: Option<char>)
        requires
            old(self).pos <= old(self).chars.len(),
        ensures
            final(self).chars@ == old(self).chars@,
            r == (if old(self).pos < old(self).chars.len() {
                Some(old(self).chars@[old(self).pos as int])
            } else {
                None::<char>
            }),
            final(self).pos == (if old(self).pos < old(self).chars.len() {
                old(self).pos + 1
            } else {
                old(self).pos as int
            }),
    {
        let c = self.peek();
        if c.is_some() {
            self.pos = self.pos + 1;
        }
        c
    }

    /// Lexes one token: on success the position moves past it. The token,
    /// or the error, is placed at the first character after the whitespace
    /// at the current position; the end comes exactly where only whitespace
    /// is left.
    pub fn next_token(&mut self) -> (r: Result<Token, LexError>)
        ensures
            final(self).spec_chars() == old(self).spec_chars(),
            final(self).spec_pos() <= final(self).spec_chars().len(),
            match lex_token(old(self).spec_chars(), old(self).spec_pos()) {
                Ok((t, j)) => r matches Ok(tok) && tok@ == t && final(self).spec_pos() == j,
                Err(e) => r matches Err(err) && err@ == e,
            },
            r matches Ok(tok) ==> {
                &&& tok@.pos == skip_ws(old(self).spec_chars(), old(self).spec_pos())
                &&& (tok@.kind is Eof <==> tok@.pos == old(self).spec_chars().len())
                &&& !(tok@.kind is Eof) ==> tok@.pos < final(self).spec_pos()
                &&& tok@.kind is Eof ==> final(self).spec_pos() == old(self).spec_chars().len()
            },
            r matches Err(err) ==> err@.1 == skip_ws(old(self).spec_chars(), old(self).spec_pos()),
    {
        proof {
            use_type_invariant(&*self);
            lemma_lex_token_advances(self.chars@, self.pos as int);
            lemma_skip_ws(self.chars@, self.pos as int);
        }
        let ghost s = self.chars@;
        let ghost i = self.pos as int;
        proof {
            lemma_skip_ws(s, i);
        }
        let i0 = self.pos;
        while self.pos < self.chars.len() && is_whitespace(self.chars[self.pos])
            invariant
                self.chars@ == s,
                s == old(self).chars@,
                i <= self.pos <= self.chars.len(),
                skip_ws(s, self.pos as int) == skip_ws(s, i),
            decreases self.chars.len() - self.pos,
        {
            self.pos = self.pos + 1;
        }
        let start = self.pos;
        let sp = start > i0;
        let c = match self.peek() {
            None => {
                return Ok(Token { kind: TokenKind::Eof, pos: start, after_space: sp });
            },
            Some(c) => c,
        };
        if c == '"' {
            return self.lex_quoted(start, sp, '"');
        }
        if c == '\'' {
            return self.lex_quoted(start, sp, '\'');
        }
        if c == '#' {
            return self.lex_error_literal(start, sp);
        }
        if ('0' <= c && c <= '9') || (c == '.' && match self.peek_at(1) {
            Some(d) => '0' <= d && d <= '9',
            None => false,
        }) {
            let (d, e) = Decimal::scan(&self.chars, start);
            self.pos = e;
            return Ok(Token { kind: TokenKind::Number(d), pos: start, after_space: sp });
        }
        if is_alphabetic(c) || c == '_' || c == '$' {
            return self.lex_ident(start, sp);
        }
        self.pos = self.pos + 1;
        let kind = if c == '+' {
            TokenKind::Plus
        } else if c == '-' {
            TokenKind::Minus
        } else if c == '*' {
            TokenKind::Star
        } else if c == '/' {
            TokenKind::Slash
        } else if c == '^' {
            TokenKind::Caret
        } else if c == '&' {
            TokenKind::Ampersand
        } else if c == '%' {
            TokenKind::Percent
        } else if c == '(' {
            TokenKind::LParen
        } else if c == ')' {
            TokenKind::RParen
        } else if c == '{' {
            TokenKind::LBrace
        } else if c == '}' {
            TokenKind::RBrace
        } else if c == ',' {
            TokenKind::Comma
        } else if c == ';' {
            TokenKind::Semicolon
        } else if c == ':' {
            TokenKind::Colon
        } else if c == '!' {
            TokenKind::Bang
        } else if c == '=' {
            TokenKind::Eq
        } else if c == '<' {
            if self.peek() == Some('=') {
                self.pos = self.pos + 1;
                TokenKind::Le
            } else if self.peek() == Some('>') {
                self.pos = self.pos + 1;
                TokenKind::Ne
            } else {
                TokenKind::Lt
            }
        } else if c == '>' {
            if self.peek() == Some('=') {
                self.pos = self.pos + 1;
                TokenKind::Ge
            } else {
                TokenKind::Gt
            }
        } else {
            let mut message = String::from_str("unexpected character '");
            push_char(&mut message, c);
            message.append("'");
            return Err(LexError { message, pos: start });
        };
        Ok(Token { kind, pos: start, after_space: sp })
    }

    /// A quoted text literal (`q` is '"') or sheet name (`q` is '\'') whose
    /// opening quote is at `start`.
    fn lex_quoted(&mut self, start: usize, sp: bool, q: char) -> (r: Result<Token, LexError>)
        requires
            start < old(self).chars.len(),
            old(self).pos == start,
            old(self).chars@[start as int] == q,
            q == '"' || q == '\'',
        ensures
            final(self).chars@ == old(self).chars@,
            final(self).pos <= final(self).chars.len(),
            match quoted(old(self).chars@, start + 1, q) {
                Some((body, e)) => r matches Ok(tok) && final(self).pos == e && tok@ == (Tok {
                    kind: if q == '"' {
                        Kind::Text(body)
                    } else {
                        Kind::SheetName(body)
                    },
                    pos: start as int,
                    after_space: sp,
                }),
                None => r matches Err(err) && err@ == (if q == '"' {
                    "unterminated string literal"@
                } else {
                    "unterminated sheet name"@
                }, start as int),
            },
    {
        let ghost s = self.chars@;
        self.pos = start + 1;
        let mut value = String::new();
        loop
            invariant
                self.chars@ == s,
                s == old(self).chars@,
                start < self.pos <= self.chars.len(),
                quoted(s, start + 1, q) == match quoted(s, self.pos as int, q) {
                    Some((body, e)) => Some((value@ + body, e)),
                    None => None,
                },
            decreases self.chars.len() - self.pos,
        {
            let ghost at = self.pos as int;
            match self.advance() {
                None => {
                    let message = if q == '"' {
                        String::from_str("unterminated string literal")
                    } else {
                        String::from_str("unterminated sheet name")
                    };
                    return Err(LexError { message, pos: start });
                },
                Some(c) => {
                    if c == q {
                        if self.peek() == Some(q) {
                            proof {
                                if let Some((body, e)) = quoted(s, at + 2, q) {
                                    assert(value@ + (seq![q] + body) =~= value@.push(q) + body);
                                }
                            }
                            push_char(&mut value, q);
                            self.pos = self.pos + 1;
                        } else {
                            assert(value@ + Seq::<char>::empty() =~= value@);
                            let kind = if q == '"' {
                                TokenKind::Text(value)
                            } else {
                                TokenKind::SheetName(value)
                            };
                            return Ok(Token { kind, pos: start, after_space: sp });
                        }
                    } else {
                        proof {
                            if let Some((body, e)) = quoted(s, at + 1, q) {
                                assert(value@ + (seq![c] + body) =~= value@.push(c) + body);
                            }
                        }
                        push_char(&mut value, c);
                    }
                },
            }
        }
    }

    /// An error literal starting with the '#' at `start`.
    fn lex_error_literal(&mut self, start: usize, sp: bool) -> (r: Result<Token, LexError>)
        requires
            start < old(self).chars.len(),
            old(self).pos == start,
            old(self).chars@[start as int] == '#',
        ensures
            final(self).chars@ == old(self).chars@,
            final(self).pos <= final(self).chars.len(),
            match find_error_literal(old(self).chars@, start as int, 0) {
                Some(lit) => r matches Ok(tok) && final(self).pos == start + lit.len() && tok@ == (Tok {
                    kind: Kind::Error(lit),
                    pos: start as int,
                    after_space: sp,
                }),
                None => r matches Err(err) && err@ == (msg_unexpected('#'), start as int),
            },
    {
        let ghost s = self.chars@;
        let mut k: usize = 0;
        while k < N_ERROR_LITERALS
            invariant
                self.chars@ == s,
                s == old(self).chars@,
                self.pos == start,
                start < self.chars.len(),
                k <= 8,
                find_error_literal(s, start as int, 0) == find_error_literal(s, start as int, k as int),
            decreases 8 - k,
        {
            let lit = error_literal_chars(k);
            if literal_matches(&self.chars, start, &lit) {
                let mut text = String::new();
                crate::chars::push_chars(&mut text, &lit);
                self.pos = start + lit.len();
                return Ok(Token { kind: TokenKind::Error(text), pos: start, after_space: sp });
            }
            k = k + 1;
        }
        let mut message = String::from_str("unexpected character '");
        push_char(&mut message, '#');
        message.append("'");
        Err(LexError { message, pos: start })
    }

    fn at_ident_char(&self) -> (r: bool)
        ensures
            r == (self.pos < self.chars.len() && is_ident_char(self.chars@[self.pos as int])),
    {
        match self.peek() {
            Some(c) => is_alphanumeric(c) || c == '_' || c == '.' || c == '$',
            None => false,
        }
    }

    /// An identifier whose first character is at `start`.
    fn lex_ident(&mut self, start: usize, sp: bool) -> (r: Result<Token, LexError>)
        requires
            start < old(self).chars.len(),
            old(self).pos == start,
        ensures
            final(self).chars@ == old(self).chars@,
            final(self).pos == ident_end(old(self).chars@, start + 1),
            start < final(self).pos <= final(self).chars.len(),
            r matches Ok(tok) && tok@ == (Tok {
                kind: Kind::Ident(
                    old(self).chars@.subrange(start as int, ident_end(old(self).chars@, start + 1)),
                ),
                pos: start as int,
                after_space: sp,
            }),
    {
        let ghost s = self.chars@;
        proof {
            lemma_ident_end(s, start + 1);
        }
        let mut text = String::new();
        push_char(&mut text, self.chars[start]);
        self.pos = start + 1;
        assert(text@ =~= s.subrange(start as int, start + 1));
        while self.at_ident_char()
            invariant
                self.chars@ == s,
                s == old(self).chars@,
                start < self.pos <= self.chars.len(),
                ident_end(s, self.pos as int) == ident_end(s, start + 1),
                text@ == s.subrange(start as int, self.pos as int),
            decreases self.chars.len() - self.pos,
        {
            let c = self.chars[self.pos];
            push_char(&mut text, c);
            self.pos = self.pos + 1;
            assert(s.subrange(start as int, self.pos as int) =~= s.subrange(
                start as int,
                self.pos - 1,
            ).push(c));
        }
        Ok(Token { kind: TokenKind::Ident(text), pos: start, after_space: sp })
    }
}

fn error_literal_chars(k: usize) -> (r: Vec<char>)
    requires
        k < 8,
    ensures
        r@ == error_literal(k as int),
{
    let r = if k == 0 {
        vec!['#', 'N', 'U', 'L', 'L', '!']
    } else if k == 1 {
        vec!['#', 'D', 'I', 'V', '/', '0', '!']
    } else if k == 2 {
        vec!['#', 'V', 'A', 'L', 'U', 'E', '!']
    } else if k == 3 {
        vec!['#', 'R', 'E', 'F', '!']
    } else if k == 4 {
        vec!['#', 'N', 'A', 'M', 'E', '?']
    } else if k == 5 {
        vec!['#', 'N', '/', 'A']
    } else if k == 6 {
        vec!['#', 'N', 'U', 'M', '!']
    } else {
        vec!['#', 'G', 'E', 'T', 'T', 'I', 'N', 'G', '_', 'D', 'A', 'T', 'A', '!']
    };
    assert(r@ =~= error_literal(k as int));
    r
}

/// Whether `lit` is spelled at `i` in `s`, ignoring ASCII case.
fn literal_matches(s: &Vec<char>, i: usize, lit: &Vec<char>) -> (r: bool)
    ensures
        r == (i + lit@.len() <= s@.len() && upper(s@.subrange(i as int, i + lit@.len())) == lit@),
{
    if lit.len() > s.len() || i > s.len() - lit.len() {
        return false;
    }
    let mut k: usize = 0;
    while k < lit.len()
        invariant
            k <= lit.len(),
            i + lit.len() <= s.len(),
            forall|m: int| 0 <= m < k ==> crate::chars::upper_char(#[trigger] s@[i + m]) == lit@[m],
        decreases lit.len() - k,
    {
        if to_upper_char(s[i + k]) != lit[k] {
            assert(upper(s@.subrange(i as int, i + lit@.len()))[k as int] != lit@[k as int]);
            return false;
        }
        k = k + 1;
    }
    assert forall|m: int| 0 <= m < lit@.len() implies upper(
        s@.subrange(i as int, i + lit@.len()),
    )[m] == lit@[m] by {
        assert(s@.subrange(i as int, i + lit@.len())[m] == s@[i + m]);
    }
    assert(upper(s@.subrange(i as int, i + lit@.len())) =~= lit@);
    true
}

} // verus!
