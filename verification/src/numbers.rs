//! Decimal numbers as the standard library reads them from text.
use vstd::prelude::*;

verus! {

pub open spec fn is_ascii_digit(c: char) -> bool {
    '0' <= c && c <= '9'
}

/// The value of the decimal digits `s[..n]`.
pub open spec fn digits_value(s: Seq<char>, n: int) -> int
    decreases n,
{
    if n <= 0 {
        0
    } else {
        digits_value(s, n - 1) * 10 + ((s[n - 1] as u32) - ('0' as u32))
    }
}

/// What `from_str` of an unsigned integer type with the largest value
/// `limit` gives: an optional `+`, then at least one ASCII digit and nothing
/// else, of a value up to `limit`.
pub open spec fn spec_parse_unsigned(s: Seq<char>, limit: int) -> Option<int> {
    let digits = unsigned_digits(s);
    if digits.len() > 0 && all_ascii_digits(digits) && digits_value(digits, digits.len() as int) <= limit {
        Some(digits_value(digits, digits.len() as int))
    } else {
        None
    }
}

/// What `u32::from_str` gives.
pub open spec fn spec_parse_u32(s: Seq<char>) -> Option<u32> {
    match spec_parse_unsigned(s, u32::MAX as int) {
        Some(v) => Some(v as u32),
        None => None,
    }
}

/// What `u64::from_str` gives.
pub open spec fn spec_parse_u64(s: Seq<char>) -> Option<u64> {
    match spec_parse_unsigned(s, u64::MAX as int) {
        Some(v) => Some(v as u64),
        None => None,
    }
}

/// `s` without a leading `+`.
pub open spec fn unsigned_digits(s: Seq<char>) -> Seq<char> {
    if s.len() > 0 && s[0] == '+' { s.drop_first() } else { s }
}

pub open spec fn all_ascii_digits(s: Seq<char>) -> bool {
    forall|i: int| 0 <= i < s.len() ==> is_ascii_digit(#[trigger] s[i])
}

proof fn lemma_digits_value_monotone(s: Seq<char>, m: int, n: int)
    requires
        0 <= m <= n <= s.len(),
        forall|i: int| 0 <= i < s.len() ==> is_ascii_digit(#[trigger] s[i]),
    ensures
        0 <= digits_value(s, m) <= digits_value(s, n),
    decreases n - m,
{
    lemma_digits_value_nonneg(s, m);
    if m < n {
        lemma_digits_value_monotone(s, m, n - 1);
        assert(is_ascii_digit(s[n - 1]));
        lemma_digits_value_nonneg(s, n - 1);
    }
}

proof fn lemma_digits_value_nonneg(s: Seq<char>, n: int)
    requires
        0 <= n <= s.len(),
        forall|i: int| 0 <= i < s.len() ==> is_ascii_digit(#[trigger] s[i]),
    ensures
        0 <= digits_value(s, n),
    decreases n,
{
    if n > 0 {
        lemma_digits_value_nonneg(s, n - 1);
        assert(is_ascii_digit(s[n - 1]));
    }
}

/// The number written in `s`, where it is at most `limit`.
fn parse_unsigned(s: &str, limit: u64) -> (r: Option<u64>)
    ensures
        match spec_parse_unsigned(s@, limit as int) {
            Some(v) => r == Some(v as u64) && 0 <= v <= limit,
            None => r is None,
        },
{
    let n = s.unicode_len();
    let mut start: usize = 0;
    if n > 0 && s.get_char(0) == '+' {
        start = 1;
    }
    let ghost digits = unsigned_digits(s@);
    proof {
        if start == 1 {
            assert(digits =~= s@.subrange(1, s@.len() as int));
        } else {
            assert(digits =~= s@.subrange(0, s@.len() as int));
        }
    }
    if start >= n {
        return None;
    }
    let mut value: u128 = 0;
    let mut i: usize = start;
    while i < n
        invariant
            start <= i <= n,
            n == s@.len(),
            digits == unsigned_digits(s@),
            start == s@.len() - digits.len(),
            digits == s@.subrange(start as int, s@.len() as int),
            forall|k: int| 0 <= k < i - start ==> is_ascii_digit(#[trigger] digits[k]),
            value == digits_value(digits, i - start),
            value <= limit,
        decreases n - i,
    {
        let c = s.get_char(i);
        if !('0' <= c && c <= '9') {
            assert(digits[i - start] == c);
            assert(!is_ascii_digit(digits[i - start]));
            assert(!all_ascii_digits(digits));
            return None;
        }
        let d: u128 = digit_of(c);
        assert(digits[i - start] == c);
        let next: u128 = value * 10 + d;
        if next > limit as u128 {
            proof {
                assert(next == digits_value(digits, i - start + 1));
                if all_ascii_digits(digits) {
                    lemma_digits_value_monotone(digits, i - start + 1, digits.len() as int);
                }
            }
            return None;
        }
        value = next;
        i = i + 1;
    }
    Some(value as u64)
}

/// The number written in `s`, as `u32::from_str` reads it.
pub fn parse_u32(s: &str) -> (r: Option<u32>)
    ensures
        r == spec_parse_u32(s@),
{
    match parse_unsigned(s, 4294967295u64) {
        Some(v) => Some(narrow_u32(v)),
        None => None,
    }
}

/// The number written in `s`, as `u64::from_str` reads it.
pub fn parse_u64(s: &str) -> (r: Option<u64>)
    ensures
        r == spec_parse_u64(s@),
{
    parse_unsigned(s, 18446744073709551615u64)
}

fn digit_of(c: char) -> (d: u128)
    requires
        is_ascii_digit(c),
    ensures
        d == (c as u32) - ('0' as u32),
        d <= 9,
{
    (c as u32 - '0' as u32) as u128
}

fn narrow_u32(v: u64) -> (r: u32)
    requires
        v <= 4294967295u64,
    ensures
        r == v,
{
    v as u32
}


/// What `usize::from_str` gives.
pub open spec fn spec_parse_usize(s: Seq<char>) -> Option<usize> {
    match spec_parse_unsigned(s, usize::MAX as int) {
        Some(v) => Some(v as usize),
        None => None,
    }
}

/// The number written in `s`, as `usize::from_str` reads it.
pub fn parse_usize(s: &str) -> (r: Option<usize>)
    ensures
        r == spec_parse_usize(s@),
{
    match parse_unsigned(s, usize::MAX as u64) {
        Some(v) => Some(v as usize),
        None => None,
    }
}

} // verus!
