//! Natural ordering of names: a name is split at its first run of digits,
//! and two names with the same text before that run are ordered by the
//! number first and by the rest after it.
use vstd::prelude::*;
use std::cmp::Ordering;
use crate::numbers::{parse_u32, spec_parse_u32};
use crate::audio_meta::{FoldersOrdering, TimeStamp};

verus! {

/// The pattern of the number that a name is split at.
pub const NUMBER_PATTERN: &'static str = "\\d{1,10}";

/// What `regex::Regex::new(pattern)` and then `find(text)` give: the text
/// before the leftmost-first match, the match and the text after it; `None`
/// where nothing matches or the pattern does not compile.
pub uninterp spec fn spec_regex_find(pattern: Seq<char>, text: Seq<char>) -> Option<(Seq<char>, Seq<char>, Seq<char>)>;

/// Compiles `pattern` with `regex::Regex::new` and calls `Regex::find` on
/// `text`. The contract names the result by `spec_regex_find` and states
/// what the documentation of `Match` gives: the match is the part of the text
/// between its start and end, so the three parts make up the text again.
/// Which part of the text matches is not stated.
#[verifier::external_body]
fn regex_find(pattern: &str, text: &str) -> (r: Option<(String, String, String)>)
    ensures
        r is None <==> spec_regex_find(pattern@, text@) is None,
        r matches Some(t) ==> spec_regex_find(pattern@, text@) == Some((t.0@, t.1@, t.2@)),
        r matches Some(t) ==> t.0@ + t.1@ + t.2@ == text@,
{
    let re = match regex::Regex::new(pattern) {
        Ok(re) => re,
        Err(_) => return None,
    };
    match re.find(text) {
        Some(m) => Some((
            text[..m.start()].to_string(),
            m.as_str().to_string(),
            text[m.end()..].to_string(),
        )),
        None => None,
    }
}

/// A name split at its number: the text before it, its value and the rest.
pub open spec fn spec_split_name(name: Seq<char>) -> Option<(Seq<char>, u32, Seq<char>)> {
    match spec_regex_find(NUMBER_PATTERN@, name) {
        Some(parts) => match spec_parse_u32(parts.1) {
            Some(v) => Some((parts.0, v, parts.2)),
            None => None,
        },
        None => None,
    }
}

/// Splits `name` at its first number of up to ten digits, where that number
/// fits in a `u32`.
pub fn split_name(name: &str) -> (r: Option<(String, u32, String)>)
    ensures
        r is None <==> spec_split_name(name@) is None,
        r matches Some(t) ==> spec_split_name(name@) == Some((t.0@, t.1, t.2@)),
{
    match regex_find(NUMBER_PATTERN, name) {
        Some((prefix, number, rest)) => match parse_u32(number.as_str()) {
            Some(v) => Some((prefix, v, rest)),
            None => None,
        },
        None => None,
    }
}

/// The order of two code points: -1, 0 or 1.
pub open spec fn char_order(a: char, b: char) -> int {
    if a < b {
        -1
    } else if a == b {
        0
    } else {
        1
    }
}

/// Lexicographic order of `a[i..]` and `b[i..]` by code point (which is the
/// order of their UTF-8 bytes): -1, 0 or 1.
pub open spec fn lex_order_from(a: Seq<char>, b: Seq<char>, i: int) -> int
    decreases a.len() - i,
{
    if i >= a.len() {
        if i >= b.len() { 0 } else { -1 }
    } else if i >= b.len() {
        1
    } else if a[i] != b[i] {
        char_order(a[i], b[i])
    } else {
        lex_order_from(a, b, i + 1)
    }
}

pub open spec fn lex_order(a: Seq<char>, b: Seq<char>) -> int {
    lex_order_from(a, b, 0)
}

/// The natural order of two names: by number and then by the rest where both
/// split and agree before the number, else lexicographically.
pub open spec fn natural_order(me: Seq<char>, other: Seq<char>) -> int {
    match (spec_split_name(me), spec_split_name(other)) {
        (Some((p1, n1, r1)), Some((p2, n2, r2))) => {
            if p1 != p2 {
                lex_order(me, other)
            } else if n1 < n2 {
                -1
            } else if n1 > n2 {
                1
            } else {
                lex_order(r1, r2)
            }
        },
        _ => lex_order(me, other),
    }
}

/// The `Ordering` of a sign.
pub open spec fn ordering_of(sign: int) -> Ordering {
    if sign < 0 {
        Ordering::Less
    } else if sign == 0 {
        Ordering::Equal
    } else {
        Ordering::Greater
    }
}

pub open spec fn same_order_from(a: Seq<char>, b: Seq<char>, i: usize) -> bool {
    lex_order_from(a, b, 0) == lex_order_from(a, b, i as int)
}

fn chars_differ_before(a: char, b: char) -> (r: bool)
    ensures
        r == (a < b),
{
    a < b
}

/// Compares two strings as `str::cmp` does.
pub fn compare_str(a: &str, b: &str) -> (r: Ordering)
    ensures
        r == ordering_of(lex_order(a@, b@)),
{
    let na = a.unicode_len();
    let nb = b.unicode_len();
    let mut i: usize = 0;
    while i < na && i < nb
        invariant
            na == a@.len(),
            nb == b@.len(),
            i <= na,
            i <= nb,
            same_order_from(a@, b@, i),
        decreases na - i,
    {
        let ca = a.get_char(i);
        let cb = b.get_char(i);
        if ca != cb {
            if chars_differ_before(ca, cb) {
                return Ordering::Less;
            } else {
                return Ordering::Greater;
            }
        }
        i = i + 1;
    }
    if i < nb {
        Ordering::Less
    } else if i < na {
        Ordering::Greater
    } else {
        Ordering::Equal
    }
}

/// Compares two names in natural order: where both hold a number and agree
/// before it, by the number and then by the rest; otherwise as strings.
pub fn cmp_natural(me: &str, other: &str) -> (r: Ordering)
    ensures
        r == ordering_of(natural_order(me@, other@)),
{
    match split_name(me) {
        Some((my_prefix, my_pos, my_rest)) => match split_name(other) {
            Some((other_prefix, other_pos, other_rest)) => {
                if crate::util::str_equal(my_prefix.as_str(), other_prefix.as_str()) {
                    if my_pos < other_pos {
                        return Ordering::Less;
                    } else if my_pos > other_pos {
                        return Ordering::Greater;
                    } else {
                        return compare_str(my_rest.as_str(), other_rest.as_str());
                    }
                }
            },
            None => {},
        },
        None => {},
    }
    compare_str(me, other)
}

proof fn lemma_lex_order_from_antisymmetric(a: Seq<char>, b: Seq<char>, i: int)
    requires
        0 <= i,
    ensures
        lex_order_from(a, b, i) == -lex_order_from(b, a, i),
    decreases a.len() - i,
{
    if i < a.len() && i < b.len() && a[i] == b[i] {
        lemma_lex_order_from_antisymmetric(a, b, i + 1);
    }
}

proof fn lemma_lex_order_from_reflexive(a: Seq<char>, i: int)
    requires
        0 <= i,
    ensures
        lex_order_from(a, a, i) == 0,
    decreases a.len() - i,
{
    if i < a.len() {
        lemma_lex_order_from_reflexive(a, i + 1);
    }
}

/// Natural order is a consistent comparison: swapping the two names reverses
/// the result, and a name is equal to itself.
pub proof fn lemma_natural_order_antisymmetric(a: Seq<char>, b: Seq<char>)
    ensures
        natural_order(a, b) == -natural_order(b, a),
        natural_order(a, a) == 0,
{
    lemma_lex_order_from_antisymmetric(a, b, 0);
    lemma_lex_order_from_reflexive(a, 0);
    match (spec_split_name(a), spec_split_name(b)) {
        (Some((_, _, r1)), Some((_, _, r2))) => {
            lemma_lex_order_from_antisymmetric(r1, r2, 0);
        },
        _ => {},
    }
    match spec_split_name(a) {
        Some((_, _, r1)) => {
            lemma_lex_order_from_reflexive(r1, 0);
        },
        _ => {},
    }
}

// ---------------------------------------------------------------------
// ordering folders

/// What `unicase::UniCase::cmp` gives for two strings: their order with
/// case ignored.
pub uninterp spec fn unicase_order(a: Seq<char>, b: Seq<char>) -> Ordering;

/// Compares `a` and `b` wrapped in `unicase::UniCase`, which orders them
/// ignoring case; the result is named, not described.
#[verifier::external_body]
fn unicase_cmp(a: &str, b: &str) -> (r: Ordering)
    ensures
        r == unicase_order(a@, b@),
{
    unicase::UniCase::new(a).cmp(&unicase::UniCase::new(b))
}

/// The order of two folders in a listing: by name with case ignored, or
/// the most recently modified first and those without a time last.
pub open spec fn folder_order(
    ord: FoldersOrdering,
    a_name: Seq<char>,
    a_modified: Option<TimeStamp>,
    b_name: Seq<char>,
    b_modified: Option<TimeStamp>,
) -> Ordering {
    match ord {
        FoldersOrdering::Alphabetical => unicase_order(a_name, b_name),
        FoldersOrdering::RecentFirst => match (a_modified, b_modified) {
            (Some(x), Some(y)) => if y.0 < x.0 {
                Ordering::Less
            } else if y.0 == x.0 {
                Ordering::Equal
            } else {
                Ordering::Greater
            },
            (Some(_), None) => Ordering::Less,
            (None, Some(_)) => Ordering::Greater,
            (None, None) => Ordering::Equal,
        },
    }
}

/// Compares two folders, each given by its name and modification time, for
/// a listing ordered by `ord`.
pub fn compare_folders(
    ord: FoldersOrdering,
    a_name: &str,
    a_modified: Option<TimeStamp>,
    b_name: &str,
    b_modified: Option<TimeStamp>,
) -> (r: Ordering)
    ensures
        r == folder_order(ord, a_name@, a_modified, b_name@, b_modified),
{
    match ord {
        FoldersOrdering::Alphabetical => unicase_cmp(a_name, b_name),
        FoldersOrdering::RecentFirst => match (a_modified, b_modified) {
            (Some(x), Some(y)) => if y.0 < x.0 {
                Ordering::Less
            } else if y.0 == x.0 {
                Ordering::Equal
            } else {
                Ordering::Greater
            },
            (Some(_), None) => Ordering::Less,
            (None, Some(_)) => Ordering::Greater,
            (None, None) => Ordering::Equal,
        },
    }
}

/// The recent-first order is a total order on modification times: two
/// folders are ordered oppositely when swapped.
pub proof fn lemma_recent_first_antisymmetric(a: Option<TimeStamp>, b: Option<TimeStamp>)
    ensures
        (folder_order(FoldersOrdering::RecentFirst, Seq::empty(), a, Seq::empty(), b) == Ordering::Less)
            <==> (folder_order(FoldersOrdering::RecentFirst, Seq::empty(), b, Seq::empty(), a) == Ordering::Greater),
        (folder_order(FoldersOrdering::RecentFirst, Seq::empty(), a, Seq::empty(), b) == Ordering::Equal)
            <==> (folder_order(FoldersOrdering::RecentFirst, Seq::empty(), b, Seq::empty(), a) == Ordering::Equal),
{
}

// ---------------------------------------------------------------------
// locales

/// A POSIX locale name as a language tag: the part before any `.` and then
/// before any `@`, with `_` written as `-`.
pub open spec fn spec_normalize_posix_locale(s: Seq<char>) -> Seq<char> {
    let base = before_char(before_char(s, '.'), '@');
    base.map_values(|c: char| if c == '_' { '-' } else { c })
}

/// The part of `s` before the first `c`, or all of it.
pub open spec fn before_char(s: Seq<char>, c: char) -> Seq<char>
    decreases s.len(),
{
    if s.len() == 0 {
        s
    } else if s[0] == c {
        Seq::empty()
    } else {
        seq![s[0]] + before_char(s.drop_first(), c)
    }
}

proof fn lemma_before_char_prefix(s: Seq<char>, c: char, i: int)
    requires
        0 <= i <= s.len(),
        forall|j: int| 0 <= j < i ==> s[j] != c,
    ensures
        i < s.len() && s[i] == c ==> before_char(s, c) == s.take(i),
        i == s.len() ==> before_char(s, c) == s,
    decreases i,
{
    if i > 0 {
        lemma_before_char_prefix(s.drop_first(), c, i - 1);
        assert(seq![s[0]] + s.drop_first().take(i - 1) =~= s.take(i));
        assert(seq![s[0]] + s.drop_first() =~= s);
    } else if s.len() > 0 {
        assert(s.take(0) =~= Seq::<char>::empty());
    }
}

/// The part of `s` before the first `c`.
fn cut_before(s: &str, c: char) -> (r: String)
    ensures
        r@ == before_char(s@, c),
{
    let n = s.unicode_len();
    let mut i: usize = 0;
    while i < n
        invariant
            i <= n,
            n == s@.len(),
            forall|j: int| 0 <= j < i ==> s@[j] != c,
        decreases n - i,
    {
        if s.get_char(i) == c {
            proof {
                lemma_before_char_prefix(s@, c, i as int);
            }
            let r = s.substring_char(0, i).to_owned();
            proof {
                assert(s@.subrange(0, i as int) =~= s@.take(i as int));
            }
            return r;
        }
        i = i + 1;
    }
    proof {
        lemma_before_char_prefix(s@, c, n as int);
    }
    s.to_owned()
}

/// A POSIX locale name (such as `cs_CZ.UTF-8@euro`) as a language tag
/// (`cs-CZ`).
pub fn normalize_posix_locale(input: &str) -> (r: String)
    ensures
        r@ == spec_normalize_posix_locale(input@),
{
    let a = cut_before(input, '.');
    let base = cut_before(a.as_str(), '@');
    let n = base.as_str().unicode_len();
    let mut out = String::new();
    let mut i: usize = 0;
    while i < n
        invariant
            i <= n,
            n == base@.len(),
            out@ == base@.take(i as int).map_values(|c: char| if c == '_' { '-' } else { c }),
        decreases n - i,
    {
        let c = base.as_str().get_char(i);
        let d = if c == '_' { '-' } else { c };
        if c == '_' {
            out.append("-");
            proof {
                reveal_strlit("-");
                assert("-"@ =~= seq![d]);
            }
        } else {
            let one = base.as_str().substring_char(i, i + 1);
            proof {
                assert(one@ =~= seq![d]);
            }
            out.append(one);
        }
        proof {
            assert(base@.take(i + 1).map_values(|c: char| if c == '_' { '-' } else { c })
                =~= base@.take(i as int).map_values(|c: char| if c == '_' { '-' } else { c }).push(d));
        }
        i = i + 1;
    }
    proof {
        assert(base@.take(n as int) =~= base@);
    }
    out
}

} // verus!
