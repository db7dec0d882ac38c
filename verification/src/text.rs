//! Character-level text utilities shared by the record codec, the
//! backup naming scheme and the retention engine: conversions between
//! `String` and `Vec<char>`, decimal digits, and prefix/order tests.

use vstd::prelude::*;
use vstd::string::StrSliceExecFns;

verus! {

/// Collects the characters of a string slice into a vector; the
/// vector's view equals the string's view.
pub fn string_to_chars(s: &str) -> (r: Vec<char>)
    ensures
        r@ == s@,
{
    let n = s.unicode_len();
    let mut r: Vec<char> = Vec::new();
    let mut i: usize = 0;
    while i < n
        invariant
            i <= n,
            n == s@.len(),
            r@ == s@.subrange(0, i as int),
        decreases n - i,
    {
        r.push(s.get_char(i));
        i = i + 1;
        proof {
            assert(r@ =~= s@.subrange(0, i as int));
        }
    }
    proof {
        assert(r@ =~= s@);
    }
    r
}

/// Relies on `String`'s `FromIterator<char>`: collecting characters
/// yields the string holding exactly those characters in order.
#[verifier::external_body]
pub fn chars_to_string(v: &Vec<char>) -> (r: String)
    ensures
        r@ == v@,
{
    v.iter().collect()
}

pub open spec fn is_digit_char(c: char) -> bool {
    '0' <= c <= '9'
}

/// Numeric value of a decimal digit character.
pub open spec fn digit_of(c: char) -> int {
    c as int - '0' as int
}

/// The decimal digit character for a value in 0..10.
pub open spec fn char_of_digit(d: int) -> char {
    if d == 0 {
        '0'
    } else if d == 1 {
        '1'
    } else if d == 2 {
        '2'
    } else if d == 3 {
        '3'
    } else if d == 4 {
        '4'
    } else if d == 5 {
        '5'
    } else if d == 6 {
        '6'
    } else if d == 7 {
        '7'
    } else if d == 8 {
        '8'
    } else {
        '9'
    }
}

pub proof fn lemma_char_of_digit_inverse(d: int)
    requires
        0 <= d <= 9,
    ensures
        is_digit_char(char_of_digit(d)),
        digit_of(char_of_digit(d)) == d,
{
}

pub open spec fn all_digits(s: Seq<char>) -> bool {
    forall|i: int| 0 <= i < s.len() ==> is_digit_char(#[trigger] s[i])
}

/// Value of a sequence of decimal digit characters, most significant
/// first.
pub open spec fn digits_value(s: Seq<char>) -> int
    decreases s.len(),
{
    if s.len() == 0 {
        0
    } else {
        digits_value(s.drop_last()) * 10 + digit_of(s.last())
    }
}

pub proof fn lemma_digits_value_nonneg(s: Seq<char>)
    requires
        all_digits(s),
    ensures
        digits_value(s) >= 0,
    decreases s.len(),
{
    if s.len() > 0 {
        assert(all_digits(s.drop_last()));
        lemma_digits_value_nonneg(s.drop_last());
    }
}

/// Appending digits never decreases the value.
pub proof fn lemma_digits_value_extend(s: Seq<char>, t: Seq<char>)
    requires
        all_digits(s),
        all_digits(t),
        s.len() <= t.len(),
        t.subrange(0, s.len() as int) == s,
    ensures
        digits_value(t) >= digits_value(s),
    decreases t.len() - s.len(),
{
    if t.len() > s.len() {
        let t1 = t.drop_last();
        assert(all_digits(t1));
        assert(t1.subrange(0, s.len() as int) =~= s);
        lemma_digits_value_extend(s, t1);
        lemma_digits_value_nonneg(t1);
        assert(digits_value(t) == digits_value(t1) * 10 + digit_of(t.last()));
        assert(digit_of(t.last()) >= 0);
    } else {
        assert(t =~= s);
    }
}

/// Executable counterpart of `char_of_digit`.
pub fn digit_char(d: u8) -> (c: char)
    requires
        d < 10,
    ensures
        c == char_of_digit(d as int),
        is_digit_char(c),
        digit_of(c) == d as int,
{
    match d {
        0 => '0',
        1 => '1',
        2 => '2',
        3 => '3',
        4 => '4',
        5 => '5',
        6 => '6',
        7 => '7',
        8 => '8',
        _ => '9',
    }
}

/// Tests whether a character is a decimal digit.
pub fn is_digit(c: char) -> (r: bool)
    ensures
        r == is_digit_char(c),
{
    '0' <= c && c <= '9'
}

/// Numeric value of a digit character.
pub fn digit_value(c: char) -> (d: u8)
    requires
        is_digit_char(c),
    ensures
        d as int == digit_of(c),
        d < 10,
{
    (c as u8) - ('0' as u8)
}

/// Decimal rendering of a non-negative integer, without leading
/// zeros (a single zero for 0).
pub open spec fn dec_digits(v: int) -> Seq<char>
    decreases v,
{
    if v <= 9 {
        seq![char_of_digit(v)]
    } else {
        dec_digits(v / 10).push(char_of_digit(v % 10))
    }
}

pub proof fn lemma_dec_digits_value(v: int)
    requires
        v >= 0,
    ensures
        all_digits(dec_digits(v)),
        digits_value(dec_digits(v)) == v,
        dec_digits(v).len() >= 1,
        dec_digits(v)[0] != '0' || v <= 9,
    decreases v,
{
    if v <= 9 {
        lemma_char_of_digit_inverse(v);
        assert(dec_digits(v) =~= seq![char_of_digit(v)]);
        assert(dec_digits(v).drop_last() =~= Seq::<char>::empty());
        assert(digits_value(Seq::<char>::empty()) == 0);
        assert(digits_value(dec_digits(v)) == 0 * 10 + digit_of(char_of_digit(v)));
    } else {
        lemma_dec_digits_value(v / 10);
        lemma_char_of_digit_inverse(v % 10);
        let s = dec_digits(v);
        assert(s =~= dec_digits(v / 10).push(char_of_digit(v % 10)));
        assert(s.drop_last() =~= dec_digits(v / 10));
        assert(s.last() == char_of_digit(v % 10));
        assert((v / 10) * 10 + v % 10 == v) by (nonlinear_arith)
            requires
                v > 9,
        ;
        assert(digits_value(s) == digits_value(s.drop_last()) * 10 + digit_of(s.last()));
        assert forall|i: int| 0 <= i < s.len() implies is_digit_char(#[trigger] s[i]) by {
            if i < s.len() - 1 {
                assert(s[i] == dec_digits(v / 10)[i]);
            }
        }
    }
}

/// Writes the decimal rendering of `v` onto the end of `out`.
pub fn push_dec_u32(out: &mut Vec<char>, v: u32)
    ensures
        final(out)@ == old(out)@ + dec_digits(v as int),
    decreases v,
{
    if v <= 9 {
        out.push(digit_char(v as u8));
        proof {
            assert(out@ =~= old(out)@ + dec_digits(v as int));
        }
    } else {
        push_dec_u32(out, v / 10);
        out.push(digit_char((v % 10) as u8));
        proof {
            assert(out@ =~= old(out)@ + dec_digits(v as int));
        }
    }
}

/// Optional leading sign stripped away.
pub open spec fn int_text_body(s: Seq<char>) -> Seq<char> {
    if s.len() > 0 && (s[0] == '-' || s[0] == '+') {
        s.drop_first()
    } else {
        s
    }
}

pub open spec fn int_text_negative(s: Seq<char>) -> bool {
    s.len() > 0 && s[0] == '-'
}

/// A signed decimal integer: an optional sign followed by one or
/// more digits.
pub open spec fn is_int_text(s: Seq<char>) -> bool {
    int_text_body(s).len() > 0 && all_digits(int_text_body(s))
}

/// Mathematical value of a signed decimal integer text.
pub open spec fn int_text_value(s: Seq<char>) -> int {
    if int_text_negative(s) {
        -digits_value(int_text_body(s))
    } else {
        digits_value(int_text_body(s))
    }
}

/// An integer text whose value fits in `i32`.
pub open spec fn is_i32_text(s: Seq<char>) -> bool {
    is_int_text(s) && i32::MIN <= int_text_value(s) <= i32::MAX
}

/// Decimal rendering of a signed integer.
pub open spec fn int_text_of(v: int) -> Seq<char> {
    if v < 0 {
        seq!['-'] + dec_digits(-v)
    } else {
        dec_digits(v)
    }
}

/// Renders a signed integer in decimal onto the end of `out`.
pub fn push_dec_i32(out: &mut Vec<char>, v: i32)
    ensures
        final(out)@ == old(out)@ + int_text_of(v as int),
{
    if v < 0 {
        let mag: u32 = (-(v as i64)) as u32;
        out.push('-');
        push_dec_u32(out, mag);
        proof {
            assert(out@ =~= old(out)@ + int_text_of(v as int));
        }
    } else {
        push_dec_u32(out, v as u32);
    }
}

/// The rendering of an `i32` parses back to the same value.
pub proof fn lemma_int_text_round_trip(v: int)
    requires
        i32::MIN <= v <= i32::MAX,
    ensures
        is_i32_text(int_text_of(v)),
        int_text_value(int_text_of(v)) == v,
{
    if v < 0 {
        lemma_dec_digits_value(-v);
        let s = int_text_of(v);
        assert(s[0] == '-');
        assert(int_text_body(s) =~= dec_digits(-v));
    } else {
        lemma_dec_digits_value(v);
        let s = int_text_of(v);
        assert(s[0] != '-' && s[0] != '+');
        assert(int_text_body(s) =~= dec_digits(v));
    }
}

/// Parses a signed decimal `i32`; returns `None` exactly on text
/// that is not an integer or does not fit.
pub fn parse_i32_chars(s: &Vec<char>) -> (r: Option<i32>)
    ensures
        r is Some <==> is_i32_text(s@),
        r is Some ==> r->0 as int == int_text_value(s@),
{
    let n = s.len();
    if n == 0 {
        return None;
    }
    let c0 = s[0];
    let neg = c0 == '-';
    let start: usize = if c0 == '-' || c0 == '+' {
        1
    } else {
        0
    };
    proof {
        assert(int_text_body(s@) =~= s@.subrange(start as int, n as int));
    }
    if start == n {
        return None;
    }
    let ghost body = s@.subrange(start as int, n as int);
    let mut acc: u64 = 0;
    let mut i: usize = start;
    while i < n
        invariant
            start <= i <= n,
            n == s@.len(),
            start < n,
            body == s@.subrange(start as int, n as int),
            body == int_text_body(s@),
            neg == int_text_negative(s@),
            all_digits(s@.subrange(start as int, i as int)),
            acc == digits_value(s@.subrange(start as int, i as int)),
            acc <= 0x8000_0000u64,
        decreases n - i,
    {
        let c = s[i];
        if !is_digit(c) {
            proof {
                assert(body[i as int - start as int] == c);
                assert(!all_digits(body));
            }
            return None;
        }
        let d = digit_value(c);
        let next: u64 = acc * 10 + (d as u64);
        let ghost pref = s@.subrange(start as int, i as int + 1);
        proof {
            assert(pref.drop_last() =~= s@.subrange(start as int, i as int));
            assert(all_digits(pref));
            assert(next == digits_value(pref));
        }
        if next > 0x8000_0000u64 {
            proof {
                if all_digits(body) {
                    assert(body.subrange(0, pref.len() as int) =~= pref);
                    lemma_digits_value_extend(pref, body);
                }
            }
            return None;
        }
        acc = next;
        i = i + 1;
    }
    proof {
        assert(s@.subrange(start as int, i as int) =~= body);
    }
    if neg {
        Some((-(acc as i64)) as i32)
    } else {
        if acc == 0x8000_0000u64 {
            proof {
                assert(int_text_value(s@) == 0x8000_0000);
            }
            None
        } else {
            Some(acc as i32)
        }
    }
}

/// `p` is a prefix of `s`.
pub open spec fn is_prefix_of(p: Seq<char>, s: Seq<char>) -> bool {
    p.len() <= s.len() && s.subrange(0, p.len() as int) == p
}

/// Prefix test on string slices.
pub fn str_starts_with(s: &str, p: &str) -> (r: bool)
    ensures
        r == is_prefix_of(p@, s@),
{
    let np = p.unicode_len();
    let ns = s.unicode_len();
    if np > ns {
        proof {
            assert(!is_prefix_of(p@, s@));
        }
        return false;
    }
    let mut i: usize = 0;
    while i < np
        invariant
            i <= np,
            np == p@.len(),
            ns == s@.len(),
            np <= ns,
            forall|j: int| 0 <= j < i ==> s@[j] == p@[j],
        decreases np - i,
    {
        if s.get_char(i) != p.get_char(i) {
            proof {
                assert(s@.subrange(0, np as int)[i as int] != p@[i as int]);
            }
            return false;
        }
        i = i + 1;
    }
    proof {
        assert(s@.subrange(0, np as int) =~= p@);
    }
    true
}

/// Character-for-character equality of two strings.
pub fn str_eq(a: &str, b: &str) -> (r: bool)
    ensures
        r == (a@ == b@),
{
    let na = a.unicode_len();
    let nb = b.unicode_len();
    if na != nb {
        return false;
    }
    let mut i: usize = 0;
    while i < na
        invariant
            i <= na,
            na == a@.len(),
            na == b@.len(),
            forall|j: int| 0 <= j < i ==> a@[j] == b@[j],
        decreases na - i,
    {
        if a.get_char(i) != b.get_char(i) {
            return false;
        }
        i = i + 1;
    }
    proof {
        assert(a@ =~= b@);
    }
    true
}

/// Strict lexicographic order on character sequences, by scalar
/// value, with a proper prefix ordered first.
pub open spec fn lex_lt(a: Seq<char>, b: Seq<char>) -> bool
    decreases a.len(),
{
    if b.len() == 0 {
        false
    } else if a.len() == 0 {
        true
    } else if a[0] != b[0] {
        (a[0] as u32) < (b[0] as u32)
    } else {
        lex_lt(a.drop_first(), b.drop_first())
    }
}

/// The lexicographic order is asymmetric.
pub proof fn lemma_lex_lt_asym(a: Seq<char>, b: Seq<char>)
    ensures
        lex_lt(a, b) ==> !lex_lt(b, a),
    decreases a.len(),
{
    if a.len() > 0 && b.len() > 0 && a[0] == b[0] {
        lemma_lex_lt_asym(a.drop_first(), b.drop_first());
    }
}

/// The lexicographic order is transitive.
pub proof fn lemma_lex_lt_trans(a: Seq<char>, b: Seq<char>, c: Seq<char>)
    requires
        lex_lt(a, b),
        lex_lt(b, c),
    ensures
        lex_lt(a, c),
    decreases a.len(),
{
    if a.len() > 0 && b.len() > 0 && c.len() > 0 && a[0] == b[0] && b[0] == c[0] {
        lemma_lex_lt_trans(a.drop_first(), b.drop_first(), c.drop_first());
    }
}

/// Lexicographic comparison of two strings.
pub fn str_lex_lt(a: &str, b: &str) -> (r: bool)
    ensures
        r == lex_lt(a@, b@),
{
    let na = a.unicode_len();
    let nb = b.unicode_len();
    let mut i: usize = 0;
    proof {
        assert(a@.subrange(0, na as int) =~= a@);
        assert(b@.subrange(0, nb as int) =~= b@);
    }
    loop
        invariant
            i <= na,
            i <= nb,
            na == a@.len(),
            nb == b@.len(),
            forall|j: int| 0 <= j < i ==> a@[j] == b@[j],
            lex_lt(a@, b@) == lex_lt(a@.subrange(i as int, na as int), b@.subrange(i as int, nb as int)),
        decreases na - i,
    {
        if i >= nb {
            proof {
                assert(b@.subrange(i as int, nb as int).len() == 0);
            }
            return false;
        }
        if i >= na {
            proof {
                assert(a@.subrange(i as int, na as int).len() == 0);
                assert(b@.subrange(i as int, nb as int).len() > 0);
            }
            return true;
        }
        let ca = a.get_char(i);
        let cb = b.get_char(i);
        let ghost sa = a@.subrange(i as int, na as int);
        let ghost sb = b@.subrange(i as int, nb as int);
        proof {
            assert(sa[0] == a@[i as int]);
            assert(sb[0] == b@[i as int]);
            assert(sa.drop_first() =~= a@.subrange(i as int + 1, na as int));
            assert(sb.drop_first() =~= b@.subrange(i as int + 1, nb as int));
        }
        if ca != cb {
            return (ca as u32) < (cb as u32);
        }
        i = i + 1;
    }
}

} // verus!
