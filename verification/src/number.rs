//! Number literals.
//!
//! A literal is kept as the decimal it denotes: a significand (its decimal
//! digits, without leading or trailing zeros) times a power of ten. The
//! value is exact as long as the power of ten stays within `EXP_LIMIT` either
//! way; beyond that the exponent saturates at the limit (so `1e100001` is
//! read as `1e100000`). The printer writes it back in plain positional
//! notation.

use vstd::prelude::*;
use crate::chars::{is_ascii_digit, chars_of, push_char, push_chars};

verus! {

/// Exponents (of a literal's `e` part and of the stored value) saturate at
/// this magnitude.
pub const EXP_LIMIT: i64 = 100000;

pub open spec fn clamp_exp(x: int) -> int {
    if x > EXP_LIMIT {
        EXP_LIMIT as int
    } else if x < -EXP_LIMIT {
        -EXP_LIMIT
    } else {
        x
    }
}

/// A non-negative decimal number: `digits` (most significant first) times ten
/// to the power `exponent`. Zero has no digits.
#[derive(Debug, PartialEq)]
pub struct Decimal {
    digits: Vec<char>,
    exponent: i64,
}

impl View for Decimal {
    type V = (Seq<char>, int);

    open spec fn view(&self) -> (Seq<char>, int) {
        (self.spec_digits(), self.spec_exponent())
    }
}

pub open spec fn all_digits(s: Seq<char>) -> bool {
    forall|i: int| 0 <= i < s.len() ==> is_ascii_digit(#[trigger] s[i])
}

/// The normal form of a decimal: digits only, no leading or trailing zero,
/// zero written with no digits and exponent 0, exponent within the limit.
pub open spec fn decimal_wf(d: (Seq<char>, int)) -> bool {
    &&& all_digits(d.0)
    &&& d.0.len() > 0 ==> d.0[0] != '0' && d.0.last() != '0'
    &&& d.0.len() == 0 ==> d.1 == 0
    &&& -EXP_LIMIT <= d.1 <= EXP_LIMIT
}

/// First index at or after `i` that does not hold the digit zero.
pub open spec fn skip_zeros(s: Seq<char>, i: int) -> int
    decreases s.len() - i,
{
    if 0 <= i < s.len() && s[i] == '0' {
        skip_zeros(s, i + 1)
    } else {
        i
    }
}

/// The end of `s.subrange(lo, j)` once its trailing zeros are dropped.
pub open spec fn trim_zeros_end(s: Seq<char>, lo: int, j: int) -> int
    decreases j - lo,
{
    if lo < j && s[j - 1] == '0' {
        trim_zeros_end(s, lo, j - 1)
    } else {
        j
    }
}

/// The normal form of `sig * 10^exp`.
pub open spec fn normalize(sig: Seq<char>, exp: int) -> (Seq<char>, int) {
    let lo = skip_zeros(sig, 0);
    if lo >= sig.len() {
        (Seq::empty(), 0)
    } else {
        let hi = trim_zeros_end(sig, lo, sig.len() as int);
        (sig.subrange(lo, hi), clamp_exp(exp + (sig.len() - hi)))
    }
}

/// First index at or after `i` that is not an ASCII digit.
pub open spec fn scan_digits(s: Seq<char>, i: int) -> int
    decreases s.len() - i,
{
    if 0 <= i < s.len() && is_ascii_digit(s[i]) {
        scan_digits(s, i + 1)
    } else {
        i
    }
}

pub open spec fn digit_value(c: char) -> int {
    (c as u32) - ('0' as u32)
}

/// The value of the digits `s[lo..hi]`, saturated at `EXP_LIMIT`.
pub open spec fn sat_value(s: Seq<char>, lo: int, hi: int) -> int
    decreases hi - lo,
{
    if hi <= lo {
        0
    } else {
        let v = 10 * sat_value(s, lo, hi - 1) + digit_value(s[hi - 1]);
        if v > EXP_LIMIT {
            EXP_LIMIT as int
        } else {
            v
        }
    }
}

/// Where a number literal may start: a digit, or a '.' followed by a digit.
pub open spec fn starts_number(s: Seq<char>, i: int) -> bool {
    0 <= i < s.len() && (is_ascii_digit(s[i]) || (s[i] == '.' && i + 1 < s.len() && is_ascii_digit(
        s[i + 1],
    )))
}

/// The end of the integer part of a literal starting at `start`.
pub open spec fn int_end(s: Seq<char>, start: int) -> int {
    scan_digits(s, start)
}

pub open spec fn has_point(s: Seq<char>, start: int) -> bool {
    let e = int_end(s, start);
    e < s.len() && s[e] == '.'
}

pub open spec fn frac_start(s: Seq<char>, start: int) -> int {
    if has_point(s, start) {
        int_end(s, start) + 1
    } else {
        int_end(s, start)
    }
}

pub open spec fn frac_end(s: Seq<char>, start: int) -> int {
    scan_digits(s, frac_start(s, start))
}

/// Where the exponent's digits would start, after `e`/`E` and a sign.
pub open spec fn exp_digits_start(s: Seq<char>, start: int) -> int {
    let k = frac_end(s, start) + 1;
    if k < s.len() && (s[k] == '+' || s[k] == '-') {
        k + 1
    } else {
        k
    }
}

/// Whether the mantissa is followed by an exponent: `e` or `E`, an optional
/// sign, and at least one digit.
pub open spec fn has_exponent(s: Seq<char>, start: int) -> bool {
    let f = frac_end(s, start);
    let k = exp_digits_start(s, start);
    &&& f < s.len()
    &&& (s[f] == 'e' || s[f] == 'E')
    &&& k < s.len()
    &&& is_ascii_digit(s[k])
}

pub open spec fn exp_negative(s: Seq<char>, start: int) -> bool {
    s[frac_end(s, start) + 1] == '-'
}

/// The end of the number literal starting at `start`.
pub open spec fn number_end(s: Seq<char>, start: int) -> int {
    if has_exponent(s, start) {
        scan_digits(s, exp_digits_start(s, start))
    } else {
        frac_end(s, start)
    }
}

/// The signed value of the exponent part (0 when there is none).
pub open spec fn exp_value(s: Seq<char>, start: int) -> int {
    if has_exponent(s, start) {
        let k = exp_digits_start(s, start);
        let v = sat_value(s, k, scan_digits(s, k));
        if exp_negative(s, start) {
            -v
        } else {
            v
        }
    } else {
        0
    }
}

/// The decimal denoted by the number literal starting at `start`.
pub open spec fn number_value(s: Seq<char>, start: int) -> (Seq<char>, int) {
    let ie = int_end(s, start);
    let fs = frac_start(s, start);
    let fe = frac_end(s, start);
    normalize(s.subrange(start, ie) + s.subrange(fs, fe), exp_value(s, start) - (fe - fs))
}

/// Plain positional notation for `digits * 10^exp`.
pub open spec fn render_decimal(d: (Seq<char>, int)) -> Seq<char> {
    let digits = d.0;
    let x = d.1;
    let n = digits.len() as int;
    if n == 0 {
        seq!['0']
    } else if x >= 0 {
        digits + Seq::new(x as nat, |i: int| '0')
    } else if -x < n {
        digits.take(n + x) + seq!['.'] + digits.skip(n + x)
    } else {
        seq!['0', '.'] + Seq::new((-x - n) as nat, |i: int| '0') + digits
    }
}

pub proof fn lemma_scan_digits(s: Seq<char>, i: int)
    requires
        0 <= i <= s.len(),
    ensures
        i <= scan_digits(s, i) <= s.len(),
        forall|k: int| i <= k < scan_digits(s, i) ==> is_ascii_digit(#[trigger] s[k]),
        scan_digits(s, i) < s.len() ==> !is_ascii_digit(s[scan_digits(s, i)]),
    decreases s.len() - i,
{
    if i < s.len() && is_ascii_digit(s[i]) {
        lemma_scan_digits(s, i + 1);
    }
}

pub proof fn lemma_skip_zeros(s: Seq<char>, i: int)
    requires
        0 <= i <= s.len(),
    ensures
        i <= skip_zeros(s, i) <= s.len(),
        forall|k: int| i <= k < skip_zeros(s, i) ==> #[trigger] s[k] == '0',
        skip_zeros(s, i) < s.len() ==> s[skip_zeros(s, i)] != '0',
    decreases s.len() - i,
{
    if i < s.len() && s[i] == '0' {
        lemma_skip_zeros(s, i + 1);
    }
}

pub proof fn lemma_trim_zeros_end(s: Seq<char>, lo: int, j: int)
    requires
        0 <= lo <= j <= s.len(),
    ensures
        lo <= trim_zeros_end(s, lo, j) <= j,
        forall|k: int| trim_zeros_end(s, lo, j) <= k < j ==> #[trigger] s[k] == '0',
        lo < trim_zeros_end(s, lo, j) ==> s[trim_zeros_end(s, lo, j) - 1] != '0',
    decreases j - lo,
{
    if lo < j && s[j - 1] == '0' {
        lemma_trim_zeros_end(s, lo, j - 1);
    }
}

pub proof fn lemma_normalize_wf(sig: Seq<char>, exp: int)
    requires
        all_digits(sig),
    ensures
        decimal_wf(normalize(sig, exp)),
{
    lemma_skip_zeros(sig, 0);
    let lo = skip_zeros(sig, 0);
    if lo < sig.len() {
        lemma_trim_zeros_end(sig, lo, sig.len() as int);
    }
}

pub proof fn lemma_number_end(s: Seq<char>, start: int)
    requires
        starts_number(s, start),
    ensures
        start < number_end(s, start) <= s.len(),
{
    lemma_scan_digits(s, start);
    let ie = int_end(s, start);
    lemma_scan_digits(s, frac_start(s, start));
    if has_exponent(s, start) {
        lemma_scan_digits(s, exp_digits_start(s, start));
    }
}

/// `scan_digits` run as a loop.
pub fn exec_scan_digits(s: &Vec<char>, i: usize) -> (r: usize)
    requires
        i <= s.len(),
    ensures
        r == scan_digits(s@, i as int),
        i <= r <= s.len(),
{
    proof {
        lemma_scan_digits(s@, i as int);
    }
    let mut k = i;
    while k < s.len() && '0' <= s[k] && s[k] <= '9'
        invariant
            i <= k <= s.len(),
            scan_digits(s@, k as int) == scan_digits(s@, i as int),
        decreases s.len() - k,
    {
        k = k + 1;
    }
    k
}

proof fn lemma_sat_step(s: Seq<char>, lo: int, hi: int)
    requires
        lo < hi,
    ensures
        sat_value(s, lo, hi) == (if 10 * sat_value(s, lo, hi - 1) + digit_value(s[hi - 1])
            > EXP_LIMIT {
            EXP_LIMIT as int
        } else {
            10 * sat_value(s, lo, hi - 1) + digit_value(s[hi - 1])
        }),
{
}

proof fn lemma_sat_range(s: Seq<char>, lo: int, hi: int)
    requires
        forall|k: int| lo <= k < hi ==> is_ascii_digit(#[trigger] s[k]),
    ensures
        0 <= sat_value(s, lo, hi) <= EXP_LIMIT,
    decreases hi - lo,
{
    if lo < hi {
        lemma_sat_range(s, lo, hi - 1);
    }
}

/// The saturated value of the digits `s[lo..hi]`.
fn exec_sat_value(s: &Vec<char>, lo: usize, hi: usize) -> (r: i64)
    requires
        lo <= hi <= s.len(),
        forall|k: int| lo <= k < hi ==> is_ascii_digit(#[trigger] s@[k]),
    ensures
        r == sat_value(s@, lo as int, hi as int),
        0 <= r <= EXP_LIMIT,
{
    let mut acc: i64 = 0;
    let mut k = lo;
    while k < hi
        invariant
            lo <= k <= hi <= s.len(),
            forall|m: int| lo <= m < hi ==> is_ascii_digit(#[trigger] s@[m]),
            acc == sat_value(s@, lo as int, k as int),
            0 <= acc <= EXP_LIMIT,
        decreases hi - k,
    {
        let c = s[k];
        assert(is_ascii_digit(s@[k as int]));
        let d: i64 = ((c as u32) - ('0' as u32)) as i64;
        let v: i64 = 10 * acc + d;
        proof {
            lemma_sat_step(s@, lo as int, k + 1);
        }
        if v > EXP_LIMIT {
            acc = EXP_LIMIT;
        } else {
            acc = v;
        }
        k = k + 1;
    }
    acc
}

impl Decimal {
    #[verifier::type_invariant]
    spec fn inv(self) -> bool {
        decimal_wf((self.digits@, self.exponent as int))
    }

    pub closed spec fn spec_digits(&self) -> Seq<char> {
        self.digits@
    }

    pub closed spec fn spec_exponent(&self) -> int {
        self.exponent as int
    }

    /// A field-by-field copy.
    pub fn copy(&self) -> (r: Decimal)
        ensures
            r@ == self@,
    {
        proof {
            use_type_invariant(self);
        }
        let mut d: Vec<char> = Vec::new();
        let mut i: usize = 0;
        while i < self.digits.len()
            invariant
                i <= self.digits.len(),
                d@ == self.digits@.take(i as int),
            decreases self.digits.len() - i,
        {
            d.push(self.digits[i]);
            i = i + 1;
            assert(self.digits@.take(i as int) == self.digits@.take(i - 1).push(
                self.digits@[i - 1],
            ));
        }
        assert(self.digits@.take(i as int) == self.digits@);
        Decimal { digits: d, exponent: self.exponent }
    }

    /// The normal form of the significand `sig` (digits only) times
    /// `10^exp`.
    pub fn normalized(sig: &Vec<char>, exp: i128) -> (r: Decimal)
        requires
            all_digits(sig@),
            -0x40_0000_0000_0000_0000 <= exp <= 0x40_0000_0000_0000_0000,
        ensures
            r@ == normalize(sig@, exp as int),
            decimal_wf(r@),
    {
        proof {
            lemma_skip_zeros(sig@, 0);
            lemma_normalize_wf(sig@, exp as int);
        }
        let mut lo: usize = 0;
        while lo < sig.len() && sig[lo] == '0'
            invariant
                lo <= sig.len(),
                skip_zeros(sig@, lo as int) == skip_zeros(sig@, 0),
            decreases sig.len() - lo,
        {
            lo = lo + 1;
        }
        if lo >= sig.len() {
            return Decimal { digits: Vec::new(), exponent: 0 };
        }
        proof {
            lemma_trim_zeros_end(sig@, lo as int, sig@.len() as int);
        }
        let mut hi: usize = sig.len();
        while lo < hi && sig[hi - 1] == '0'
            invariant
                lo <= hi <= sig.len(),
                trim_zeros_end(sig@, lo as int, hi as int) == trim_zeros_end(
                    sig@,
                    lo as int,
                    sig@.len() as int,
                ),
            decreases hi - lo,
        {
            hi = hi - 1;
        }
        let mut d: Vec<char> = Vec::new();
        let mut k = lo;
        while k < hi
            invariant
                lo <= k <= hi <= sig.len(),
                d@ == sig@.subrange(lo as int, k as int),
            decreases hi - k,
        {
            d.push(sig[k]);
            k = k + 1;
            assert(sig@.subrange(lo as int, k as int) == sig@.subrange(lo as int, k - 1).push(
                sig@[k - 1],
            ));
        }
        let raw: i128 = exp + ((sig.len() - hi) as i128);
        let e: i64 = if raw > EXP_LIMIT as i128 {
            EXP_LIMIT
        } else if raw < -(EXP_LIMIT as i128) {
            -EXP_LIMIT
        } else {
            raw as i64
        };
        Decimal { digits: d, exponent: e }
    }

    /// The number literal that starts at `start` (where `starts_number`
    /// holds), and the index just past it.
    pub fn scan(s: &Vec<char>, start: usize) -> (r: (Decimal, usize))
        requires
            start < s.len(),
        ensures
            r.0@ == number_value(s@, start as int),
            r.1 == number_end(s@, start as int),
            decimal_wf(r.0@),
            start <= r.1 <= s.len(),
    {
        let ss = Ghost(s@);
        let st = Ghost(start as int);
        proof {
            lemma_scan_digits(s@, start as int);
        }
        let ie = exec_scan_digits(s, start);
        let fs: usize = if ie < s.len() && s[ie] == '.' {
            ie + 1
        } else {
            ie
        };
        proof {
            lemma_scan_digits(s@, fs as int);
        }
        let fe = exec_scan_digits(s, fs);
        let mut end = fe;
        let mut e: i64 = 0;
        if fe < s.len() && (s[fe] == 'e' || s[fe] == 'E') {
            let mut k = fe + 1;
            let mut neg = false;
            if k < s.len() && (s[k] == '+' || s[k] == '-') {
                neg = s[k] == '-';
                k = k + 1;
            }
            assert(k == exp_digits_start(s@, start as int));
            if k < s.len() && '0' <= s[k] && s[k] <= '9' {
                proof {
                    lemma_scan_digits(s@, k as int);
                }
                let ke = exec_scan_digits(s, k);
                let v = exec_sat_value(s, k, ke);
                e = if neg {
                    -v
                } else {
                    v
                };
                end = ke;
            }
        }
        let mut sig: Vec<char> = Vec::new();
        let mut i = start;
        while i < ie
            invariant
                start <= i <= ie <= s.len(),
                sig@ == s@.subrange(start as int, i as int),
            decreases ie - i,
        {
            sig.push(s[i]);
            i = i + 1;
            assert(s@.subrange(start as int, i as int) == s@.subrange(start as int, i - 1).push(
                s@[i - 1],
            ));
        }
        let mut j = fs;
        while j < fe
            invariant
                fs <= j <= fe <= s.len(),
                sig@ == s@.subrange(start as int, ie as int) + s@.subrange(fs as int, j as int),
            decreases fe - j,
        {
            sig.push(s[j]);
            j = j + 1;
            assert(s@.subrange(fs as int, j as int) == s@.subrange(fs as int, j - 1).push(
                s@[j - 1],
            ));
        }
        assert(all_digits(sig@));
        let exp: i128 = (e as i128) - ((fe - fs) as i128);
        let d = Decimal::normalized(&sig, exp);
        (d, end)
    }

    /// The decimal that `text` spells, when `text` is exactly one number
    /// literal (digits, an optional fraction, an optional exponent).
    pub fn from_literal(text: &str) -> (r: Option<Decimal>)
        ensures
            r is Some <==> (starts_number(text@, 0) && number_end(text@, 0) == text@.len()),
            r matches Some(d) ==> d@ == number_value(text@, 0) && decimal_wf(d@),
    {
        let s = chars_of(text);
        if s.len() == 0 {
            return None;
        }
        let ok = ('0' <= s[0] && s[0] <= '9') || (s[0] == '.' && 1 < s.len() && '0' <= s[1] && s[1]
            <= '9');
        if !ok {
            return None;
        }
        let (d, end) = Decimal::scan(&s, 0);
        if end == s.len() {
            Some(d)
        } else {
            None
        }
    }

    /// Appends the plain positional notation of this number.
    pub fn render_into(&self, out: &mut String)
        ensures
            final(out)@ == old(out)@ + render_decimal(self@),
    {
        proof {
            use_type_invariant(self);
        }
        let n = self.digits.len();
        let x = self.exponent;
        let ghost start = out@;
        if n == 0 {
            push_char(out, '0');
            assert(render_decimal(self@) =~= seq!['0']);
        } else if x >= 0 {
            push_chars(out, &self.digits);
            let mut k: i64 = 0;
            while k < x
                invariant
                    0 <= k <= x,
                    out@ == start + self.digits@ + Seq::new(k as nat, |i: int| '0'),
                decreases x - k,
            {
                push_char(out, '0');
                k = k + 1;
                assert(Seq::new(k as nat, |i: int| '0') =~= Seq::new((k - 1) as nat, |i: int| '0').push('0'));
            }
        } else if ((-x) as usize) < n {
            let cut: usize = n - ((-x) as usize);
            let mut i: usize = 0;
            while i < n
                invariant
                    i <= n,
                    n == self.digits.len(),
                    cut < n,
                    i <= cut ==> out@ == start + self.digits@.take(i as int),
                    i > cut ==> out@ == start + self.digits@.take(cut as int) + seq!['.']
                        + self.digits@.subrange(cut as int, i as int),
                decreases n - i,
            {
                if i == cut {
                    push_char(out, '.');
                }
                push_char(out, self.digits[i]);
                i = i + 1;
                assert(self.digits@.take(i as int) == self.digits@.take(i - 1).push(self.digits@[i - 1]));
                if i > cut {
                    assert(self.digits@.subrange(cut as int, i as int) =~= self.digits@.subrange(
                        cut as int,
                        i - 1,
                    ).push(self.digits@[i - 1]));
                } else if i == cut {
                    assert(self.digits@.subrange(cut as int, i as int) =~= Seq::<char>::empty());
                }
            }
            assert(render_decimal(self@) =~= self.digits@.take(cut as int) + seq!['.']
                + self.digits@.subrange(cut as int, n as int));
        } else {
            push_char(out, '0');
            push_char(out, '.');
            let zeros: i64 = -x - (n as i64);
            let mut k: i64 = 0;
            while k < zeros
                invariant
                    0 <= k <= zeros,
                    out@ == start + seq!['0', '.'] + Seq::new(k as nat, |i: int| '0'),
                decreases zeros - k,
            {
                push_char(out, '0');
                k = k + 1;
                assert(Seq::new(k as nat, |i: int| '0') =~= Seq::new((k - 1) as nat, |i: int| '0').push('0'));
            }
            push_chars(out, &self.digits);
        }
    }

    /// The plain positional notation of this number.
    pub fn render(&self) -> (r: String)
        ensures
            r@ == render_decimal(self@),
    {
        let mut out = String::new();
        self.render_into(&mut out);
        out
    }
}

} // verus!
