//! Fixed-point sample values.
//!
//! A sample value is a decimal number `-?D+(.D+)?`, held in tenths as an
//! `i64`. Only the first fractional digit may be significant (later digits
//! must be `0`), and the magnitude is capped, so every accepted value is
//! represented exactly; anything else is rejected and the record that held it
//! is skipped by the parser.

use vstd::prelude::*;
use vstd::slice::slice_subrange;

verus! {

/// Largest magnitude, in tenths, that a parsed sample value may have.
pub const MAX_ABS_TENTHS: i64 = 999_999_999_999;

/// Largest value the integer part of a sample value may have.
pub const MAX_INT_PART: i64 = 99_999_999_999;

pub const NEWLINE: u8 = 10;
pub const SEMICOLON: u8 = 59;
pub const MINUS: u8 = 45;
pub const DOT: u8 = 46;
pub const ZERO_DIGIT: u8 = 48;

pub open spec fn is_digit(b: u8) -> bool {
    48 <= b <= 57
}

pub open spec fn digit_val(b: u8) -> int {
    b - 48
}

pub open spec fn all_digits(s: Seq<u8>) -> bool {
    forall|i: int| 0 <= i < s.len() ==> is_digit(s[i])
}

/// Value of a sequence of decimal digit bytes, most significant first.
pub open spec fn digits_val(s: Seq<u8>) -> int
    decreases s.len(),
{
    if s.len() == 0 {
        0
    } else {
        10 * digits_val(s.drop_last()) + digit_val(s.last())
    }
}

/// Index of the first occurrence of `b` in `s` at or after `from`, or `s.len()`.
pub open spec fn find_byte(s: Seq<u8>, b: u8, from: int) -> int
    decreases s.len() - from,
{
    if from < 0 || from >= s.len() {
        s.len() as int
    } else if s[from] == b {
        from
    } else {
        find_byte(s, b, from + 1)
    }
}

/// `find_byte` returns the first occurrence: nothing before it matches, and
/// the returned index (when inside the sequence) holds `b`.
pub proof fn lemma_find_byte(s: Seq<u8>, b: u8, from: int)
    requires
        0 <= from <= s.len(),
    ensures
        from <= find_byte(s, b, from) <= s.len(),
        find_byte(s, b, from) < s.len() ==> s[find_byte(s, b, from)] == b,
        forall|i: int| from <= i < find_byte(s, b, from) ==> s[i] != b,
    decreases s.len() - from,
{
    if from < s.len() && s[from] != b {
        lemma_find_byte(s, b, from + 1);
    }
}

pub proof fn lemma_digits_val_nonneg(s: Seq<u8>)
    requires
        all_digits(s),
    ensures
        digits_val(s) >= 0,
    decreases s.len(),
{
    if s.len() > 0 {
        lemma_digits_val_nonneg(s.drop_last());
    }
}

/// Appending digits never shrinks the value of a digit string.
pub proof fn lemma_digits_val_prefix(s: Seq<u8>, k: int)
    requires
        all_digits(s),
        0 <= k <= s.len(),
    ensures
        digits_val(s) >= digits_val(s.subrange(0, k)),
    decreases s.len(),
{
    if s.len() > k {
        assert(s.drop_last().subrange(0, k) =~= s.subrange(0, k));
        lemma_digits_val_prefix(s.drop_last(), k);
        lemma_digits_val_nonneg(s.drop_last());
    } else {
        assert(s.subrange(0, k) =~= s);
    }
}

/// A fractional part: at least one digit, and only the first one significant.
pub open spec fn frac_ok(f: Seq<u8>) -> bool {
    &&& f.len() >= 1
    &&& is_digit(f[0])
    &&& forall|i: int| 1 <= i < f.len() ==> f[i] == ZERO_DIGIT
}

/// Tenths denoted by an unsigned value token, or `None` if the token is not
/// a representable decimal number.
pub open spec fn unsigned_tenths(s: Seq<u8>) -> Option<int> {
    let d = find_byte(s, DOT, 0);
    if d == s.len() {
        if s.len() > 0 && all_digits(s) && digits_val(s) <= MAX_INT_PART {
            Some(10 * digits_val(s))
        } else {
            None
        }
    } else {
        let ip = s.subrange(0, d);
        let fp = s.subrange(d + 1, s.len() as int);
        if ip.len() > 0 && all_digits(ip) && digits_val(ip) <= MAX_INT_PART && frac_ok(fp) {
            Some(10 * digits_val(ip) + digit_val(fp[0]))
        } else {
            None
        }
    }
}

/// Tenths denoted by a value token with an optional leading minus sign.
pub open spec fn parse_tenths(s: Seq<u8>) -> Option<int> {
    if s.len() > 0 && s[0] == MINUS {
        match unsigned_tenths(s.subrange(1, s.len() as int)) {
            Some(v) => Some(-v),
            None => None,
        }
    } else {
        unsigned_tenths(s)
    }
}

/// Every accepted value token denotes a bounded number of tenths.
pub proof fn lemma_parse_tenths_bounded(s: Seq<u8>)
    ensures
        parse_tenths(s) matches Some(v) ==> -MAX_ABS_TENTHS <= v <= MAX_ABS_TENTHS,
{
    lemma_unsigned_tenths_bounded(s);
    if s.len() > 0 && s[0] == MINUS {
        lemma_unsigned_tenths_bounded(s.subrange(1, s.len() as int));
    }
}

proof fn lemma_unsigned_tenths_bounded(s: Seq<u8>)
    ensures
        unsigned_tenths(s) matches Some(v) ==> 0 <= v <= MAX_ABS_TENTHS,
{
    let d = find_byte(s, DOT, 0);
    lemma_find_byte(s, DOT, 0);
    if d == s.len() {
        if s.len() > 0 && all_digits(s) {
            lemma_digits_val_nonneg(s);
        }
    } else {
        let ip = s.subrange(0, d);
        if ip.len() > 0 && all_digits(ip) {
            lemma_digits_val_nonneg(ip);
        }
    }
}

/// First index of `b` in `s` at or after `from`, or `s.len()` if absent.
pub fn find_byte_from(s: &[u8], b: u8, from: usize) -> (r: usize)
    requires
        from <= s@.len(),
    ensures
        r == find_byte(s@, b, from as int),
        from <= r <= s@.len(),
{
    let mut i: usize = from;
    while i < s.len()
        invariant
            from <= i <= s@.len(),
            find_byte(s@, b, from as int) == find_byte(s@, b, i as int),
        decreases s@.len() - i,
    {
        if s[i] == b {
            return i;
        }
        i += 1;
    }
    proof {
        lemma_find_byte(s@, b, from as int);
    }
    i
}

/// Parses a nonempty all-digit slice into its value, rejecting anything that
/// is not all digits or whose value exceeds `MAX_INT_PART`.
fn parse_digits(s: &[u8]) -> (r: Option<i64>)
    ensures
        match r {
            Some(v) => s@.len() > 0 && all_digits(s@) && v == digits_val(s@) && 0 <= v
                <= MAX_INT_PART,
            None => !(s@.len() > 0 && all_digits(s@) && digits_val(s@) <= MAX_INT_PART),
        },
{
    if s.len() == 0 {
        return None;
    }
    let mut acc: i64 = 0;
    let mut i: usize = 0;
    while i < s.len()
        invariant
            0 <= i <= s@.len(),
            all_digits(s@.subrange(0, i as int)),
            acc == digits_val(s@.subrange(0, i as int)),
            0 <= acc <= MAX_INT_PART,
        decreases s@.len() - i,
    {
        let b = s[i];
        if b < 48 || b > 57 {
            return None;
        }
        proof {
            assert(s@.subrange(0, i + 1).drop_last() =~= s@.subrange(0, i as int));
            assert(s@.subrange(0, i + 1).last() == s@[i as int]);
        }
        if acc >= 10_000_000_000 {
            proof {
                if all_digits(s@) {
                    lemma_digits_val_prefix(s@, i + 1);
                }
            }
            return None;
        }
        acc = 10 * acc + (b - 48) as i64;
        i += 1;
    }
    proof {
        assert(s@.subrange(0, s@.len() as int) =~= s@);
    }
    Some(acc)
}

/// Checks that a slice is a well-formed fractional part.
fn check_frac(f: &[u8]) -> (r: bool)
    ensures
        r == frac_ok(f@),
{
    if f.len() == 0 {
        return false;
    }
    if f[0] < 48 || f[0] > 57 {
        return false;
    }
    let mut i: usize = 1;
    while i < f.len()
        invariant
            1 <= i <= f@.len(),
            forall|j: int| 1 <= j < i ==> f@[j] == ZERO_DIGIT,
        decreases f@.len() - i,
    {
        if f[i] != ZERO_DIGIT {
            return false;
        }
        i += 1;
    }
    true
}

/// Parses an unsigned value token into tenths.
fn parse_unsigned(s: &[u8]) -> (r: Option<i64>)
    ensures
        match r {
            Some(v) => unsigned_tenths(s@) == Some(v as int) && 0 <= v <= MAX_ABS_TENTHS,
            None => unsigned_tenths(s@) is None,
        },
{
    let d = find_byte_from(s, DOT, 0);
    if d == s.len() {
        match parse_digits(s) {
            Some(iv) => Some(10 * iv),
            None => None,
        }
    } else {
        let ip = slice_subrange(s, 0, d);
        let fp = slice_subrange(s, d + 1, s.len());
        match parse_digits(ip) {
            Some(iv) => {
                if check_frac(fp) {
                    Some(10 * iv + (fp[0] - 48) as i64)
                } else {
                    None
                }
            },
            None => None,
        }
    }
}

/// Parses a value token into tenths; `None` exactly when the spec-level
/// `parse_tenths` rejects the token.
pub fn parse_value(s: &[u8]) -> (r: Option<i64>)
    ensures
        match r {
            Some(v) => parse_tenths(s@) == Some(v as int) && -MAX_ABS_TENTHS <= v
                <= MAX_ABS_TENTHS,
            None => parse_tenths(s@) is None,
        },
{
    if s.len() > 0 && s[0] == MINUS {
        let body = slice_subrange(s, 1, s.len());
        match parse_unsigned(body) {
            Some(v) => Some(-v),
            None => None,
        }
    } else {
        parse_unsigned(s)
    }
}

} // verus!
