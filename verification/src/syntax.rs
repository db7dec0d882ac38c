//! Field syntax for the record codec: decimal number texts (as the
//! cost, amount and score columns hold) and canonical UUID texts (as
//! the identifier columns hold).

use vstd::prelude::*;
use crate::text::{is_digit_char, is_digit};

verus! {

/// Index of the first non-digit at or after `i`.
pub open spec fn skip_digits(s: Seq<char>, i: int) -> int
    decreases s.len() - i,
{
    if 0 <= i < s.len() && is_digit_char(s[i]) {
        skip_digits(s, i + 1)
    } else {
        i
    }
}

pub proof fn lemma_skip_digits_bounds(s: Seq<char>, i: int)
    requires
        0 <= i <= s.len(),
    ensures
        i <= skip_digits(s, i) <= s.len(),
    decreases s.len() - i,
{
    if i < s.len() && is_digit_char(s[i]) {
        lemma_skip_digits_bounds(s, i + 1);
    }
}

/// End position of a decimal number text starting at the front of
/// `s`, or -1 if `s` does not start with one. The grammar is an
/// optional minus sign, one or more digits, an optional fraction
/// (a dot and one or more digits) and an optional exponent (`e` or
/// `E`, an optional sign, one or more digits).
pub open spec fn number_text_end(s: Seq<char>) -> int {
    let i0: int = if s.len() > 0 && s[0] == '-' {
        1
    } else {
        0
    };
    let i1 = skip_digits(s, i0);
    if i1 == i0 {
        -1
    } else {
        let i2: int = if i1 < s.len() && s[i1] == '.' {
            let j = skip_digits(s, i1 + 1);
            if j == i1 + 1 {
                -1
            } else {
                j
            }
        } else {
            i1
        };
        if i2 < 0 {
            -1
        } else {
            if i2 < s.len() && (s[i2] == 'e' || s[i2] == 'E') {
                let k: int = if i2 + 1 < s.len() && (s[i2 + 1] == '+' || s[i2 + 1] == '-') {
                    i2 + 2
                } else {
                    i2 + 1
                };
                let m = skip_digits(s, k);
                if m == k {
                    -1
                } else {
                    m
                }
            } else {
                i2
            }
        }
    }
}

/// `s` is exactly one decimal number text.
pub open spec fn is_number_text(s: Seq<char>) -> bool {
    number_text_end(s) == s.len()
}

/// A number text is never empty, so an empty column never reads as a
/// number.
pub proof fn lemma_number_text_nonempty(s: Seq<char>)
    requires
        is_number_text(s),
    ensures
        s.len() > 0,
{
}

/// Executable counterpart of `skip_digits`.
pub fn skip_digits_exec(s: &Vec<char>, i: usize) -> (r: usize)
    requires
        i <= s.len(),
    ensures
        r as int == skip_digits(s@, i as int),
        i <= r <= s.len(),
{
    let n = s.len();
    let mut j: usize = i;
    while j < n && is_digit_char_at(s, j)
        invariant
            i <= j <= n,
            n == s@.len(),
            skip_digits(s@, i as int) == skip_digits(s@, j as int),
        decreases n - j,
    {
        j = j + 1;
    }
    j
}

/// Digit test at an index, split out so the loop condition stays a
/// plain expression.
fn is_digit_char_at(s: &Vec<char>, j: usize) -> (r: bool)
    requires
        j < s.len(),
    ensures
        r == is_digit_char(s@[j as int]),
{
    is_digit(s[j])
}

/// Decides whether `s` is a decimal number text.
pub fn is_number(s: &Vec<char>) -> (r: bool)
    ensures
        r == is_number_text(s@),
{
    let n = s.len();
    let i0: usize = if n > 0 && s[0] == '-' {
        1
    } else {
        0
    };
    let i1 = skip_digits_exec(s, i0);
    if i1 == i0 {
        return false;
    }
    let i2: usize = if i1 < n && s[i1] == '.' {
        let j = skip_digits_exec(s, i1 + 1);
        if j == i1 + 1 {
            return false;
        }
        j
    } else {
        i1
    };
    if i2 < n && (s[i2] == 'e' || s[i2] == 'E') {
        let k: usize = if i2 + 1 < n && (s[i2 + 1] == '+' || s[i2 + 1] == '-') {
            i2 + 2
        } else {
            i2 + 1
        };
        proof {
            lemma_skip_digits_bounds(s@, k as int);
        }
        let m = skip_digits_exec(s, k);
        if m == k {
            return false;
        }
        m == n
    } else {
        i2 == n
    }
}

pub open spec fn is_hex_char(c: char) -> bool {
    is_digit_char(c) || ('a' <= c <= 'f') || ('A' <= c <= 'F')
}

/// What the character at position `i` of a UUID text must be: a
/// hyphen at the four group breaks, a hexadecimal digit elsewhere.
pub open spec fn uuid_char_ok(c: char, i: int) -> bool {
    if i == 8 || i == 13 || i == 18 || i == 23 {
        c == '-'
    } else {
        is_hex_char(c)
    }
}

/// `s` is a hyphenated UUID text: 36 characters in five hexadecimal
/// groups of 8, 4, 4, 4 and 12 digits.
pub open spec fn is_uuid_text(s: Seq<char>) -> bool {
    s.len() == 36 && forall|i: int| 0 <= i < 36 ==> uuid_char_ok(#[trigger] s[i], i)
}

/// Decides whether `s` is a hyphenated UUID text.
pub fn is_uuid(s: &Vec<char>) -> (r: bool)
    ensures
        r == is_uuid_text(s@),
{
    let n = s.len();
    if n != 36 {
        return false;
    }
    let mut i: usize = 0;
    while i < 36
        invariant
            i <= 36,
            s@.len() == 36,
            forall|j: int| 0 <= j < i ==> uuid_char_ok(#[trigger] s@[j], j),
        decreases 36 - i,
    {
        let c = s[i];
        let ok: bool = if i == 8 || i == 13 || i == 18 || i == 23 {
            c == '-'
        } else {
            is_digit(c) || ('a' <= c && c <= 'f') || ('A' <= c && c <= 'F')
        };
        if !ok {
            return false;
        }
        i = i + 1;
    }
    true
}

} // verus!
