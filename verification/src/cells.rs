//! Which texts are cell references: an optional `$`, one to three ASCII
//! letters, an optional `$`, then decimal digits whose value is a row from 1
//! up to `u32::MAX`, and nothing else.

use vstd::prelude::*;
use crate::chars::is_ascii_letter;
use crate::number::{all_digits, lemma_scan_digits};
use crate::parser::{Cell, spec_cell_ref, digits_value, scan_letters};
use crate::chars::upper;
use crate::reparse::{lemma_scan_letters_to, lemma_scan_digits_to_end, lemma_digits_value_at};
use crate::parsed::{lemma_scan_letters_range, lemma_digits_value_nonneg};

verus! {

/// `$` where `b` holds, else nothing.
pub open spec fn dollar_if(b: bool) -> Seq<char> {
    if b {
        seq!['$']
    } else {
        Seq::empty()
    }
}

pub open spec fn all_letters(s: Seq<char>) -> bool {
    forall|i: int| 0 <= i < s.len() ==> is_ascii_letter(#[trigger] s[i])
}

/// The parts of a cell reference's text: whether the column is absolute,
/// the column letters, whether the row is absolute, and the row digits.
pub open spec fn is_cell_pattern(col_abs: bool, letters: Seq<char>, row_abs: bool, digits: Seq<
    char,
>) -> bool {
    &&& 1 <= letters.len() <= 3
    &&& all_letters(letters)
    &&& digits.len() >= 1
    &&& all_digits(digits)
    &&& 1 <= digits_value(digits, 0, digits.len() as int) <= u32::MAX
}

pub open spec fn cell_pattern_text(col_abs: bool, letters: Seq<char>, row_abs: bool, digits: Seq<
    char,
>) -> Seq<char> {
    dollar_if(col_abs) + letters + dollar_if(row_abs) + digits
}

/// Text made of the parts of a cell reference is that reference: the
/// column in upper case, the row the value of the digits, no sheet.
pub proof fn law_cell_pattern_is_reference(
    col_abs: bool,
    letters: Seq<char>,
    row_abs: bool,
    digits: Seq<char>,
)
    requires
        is_cell_pattern(col_abs, letters, row_abs, digits),
    ensures
        spec_cell_ref(cell_pattern_text(col_abs, letters, row_abs, digits)) == Some(
            Cell {
                sheet: None,
                col_absolute: col_abs,
                column: upper(letters),
                row_absolute: row_abs,
                row: digits_value(digits, 0, digits.len() as int),
            },
        ),
{
    let s = cell_pattern_text(col_abs, letters, row_abs, digits);
    let ca = dollar_if(col_abs);
    let ra = dollar_if(row_abs);
    let c0 = ca.len() as int;
    let c1 = c0 + letters.len();
    let r0 = c1 + ra.len();
    assert(s.len() == r0 + digits.len());
    assert((s.len() > 0 && s[0] == '$') == col_abs) by {
        if !col_abs {
            assert(s[0] == letters[0]);
            assert(is_ascii_letter(letters[0]));
        }
    }
    assert forall|k: int| c0 <= k < c1 implies is_ascii_letter(#[trigger] s[k]) by {
        assert(s[k] == letters[k - c0]);
    }
    assert(!is_ascii_letter(s[c1])) by {
        if row_abs {
            assert(s[c1] == '$');
        } else {
            assert(s[c1] == digits[0]);
            assert(crate::chars::is_ascii_digit(digits[0]));
        }
    }
    lemma_scan_letters_to(s, c0, c1);
    assert((c1 < s.len() && s[c1] == '$') == row_abs) by {
        if !row_abs {
            assert(s[c1] == digits[0]);
            assert(crate::chars::is_ascii_digit(digits[0]));
        }
    }
    assert forall|k: int| r0 <= k < s.len() implies crate::chars::is_ascii_digit(#[trigger] s[k]) by {
        assert(s[k] == digits[k - r0]);
    }
    lemma_scan_digits_to_end(s, r0);
    assert forall|m: int| 0 <= m < digits.len() implies s[r0 + m] == digits[m] by {}
    lemma_digits_value_at(s, digits, r0, digits.len() as int);
    assert(s.subrange(c0, c1) =~= letters);
}

/// Every cell reference's text is made of such parts.
pub proof fn law_reference_is_cell_pattern(s: Seq<char>)
    requires
        spec_cell_ref(s) is Some,
    ensures
        exists|col_abs: bool, letters: Seq<char>, row_abs: bool, digits: Seq<char>|
            is_cell_pattern(col_abs, letters, row_abs, digits) && s == #[trigger] cell_pattern_text(
                col_abs,
                letters,
                row_abs,
                digits,
            ),
{
    let col_abs = s.len() > 0 && s[0] == '$';
    let c0: int = if col_abs {
        1
    } else {
        0
    };
    lemma_scan_letters_range(s, c0);
    let c1 = scan_letters(s, c0);
    let row_abs = c1 < s.len() && s[c1] == '$';
    let r0: int = if row_abs {
        c1 + 1
    } else {
        c1
    };
    lemma_scan_digits(s, r0);
    let r1 = crate::number::scan_digits(s, r0);
    let letters = s.subrange(c0, c1);
    let digits = s.subrange(r0, r1);
    assert(all_letters(letters)) by {
        assert forall|i: int| 0 <= i < letters.len() implies is_ascii_letter(#[trigger] letters[i]) by {
            assert(letters[i] == s[c0 + i]);
        }
    }
    assert(all_digits(digits)) by {
        assert forall|i: int| 0 <= i < digits.len() implies crate::chars::is_ascii_digit(#[trigger] digits[i]) by {
            assert(digits[i] == s[r0 + i]);
        }
    }
    assert forall|m: int| 0 <= m < digits.len() implies s[r0 + m] == digits[m] by {}
    lemma_digits_value_at(s, digits, r0, digits.len() as int);
    lemma_digits_value_nonneg(s, r0, r1);
    assert(c0 < c1 <= c0 + 3 && r0 < r1 && r1 == s.len());
    assert(1 <= digits_value(s, r0, r1) <= u32::MAX);
    assert(s =~= cell_pattern_text(col_abs, letters, row_abs, digits));
    assert(is_cell_pattern(col_abs, letters, row_abs, digits));
}

} // verus!
