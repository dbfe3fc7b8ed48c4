//! Paths as the collection cache keys them: relative paths whose parent is
//! the empty path at the top, and `folder/file` keys split at the last `/`.
use vstd::prelude::*;
use crate::util::{path_parent, spec_path_parent};

verus! {

/// The parent of `p`, or the empty path where it has none.
pub open spec fn spec_parent_path(p: Seq<char>) -> Seq<char> {
    match spec_path_parent(p) {
        Some(q) => q,
        None => Seq::<char>::empty(),
    }
}

/// The parent folder of a path; the empty path for a top-level name.
pub fn parent_path(p: &str) -> (r: String)
    ensures
        r@ == spec_parent_path(p@),
{
    match path_parent(p) {
        Some(q) => q,
        None => String::new(),
    }
}

/// The index of the last `c` in `s[..end]`, if there is one.
pub open spec fn last_index_before(s: Seq<char>, c: char, end: int) -> Option<int>
    decreases end,
{
    if end <= 0 {
        None
    } else if s[end - 1] == c {
        Some(end - 1)
    } else {
        last_index_before(s, c, end - 1)
    }
}

/// `p` split at its last `/` into folder and file; the folder is empty
/// where there is no `/`.
pub open spec fn spec_split_path(p: Seq<char>) -> (Seq<char>, Seq<char>) {
    match last_index_before(p, '/', p.len() as int) {
        Some(k) => (p.subrange(0, k), p.subrange(k + 1, p.len() as int)),
        None => (Seq::<char>::empty(), p),
    }
}

/// Splits a key into its folder and its file name.
pub fn split_path(p: &str) -> (r: (String, String))
    ensures
        (r.0@, r.1@) == spec_split_path(p@),
{
    let n = p.unicode_len();
    let mut end: usize = n;
    while end > 0 && p.get_char(end - 1) != '/'
        invariant
            n == p@.len(),
            end <= n,
            last_index_before(p@, '/', n as int) == last_index_before(p@, '/', end as int),
        decreases end,
    {
        end = end - 1;
    }
    if end > 0 {
        (p.substring_char(0, end - 1).to_owned(), p.substring_char(end, n).to_owned())
    } else {
        proof {
            assert(p@.subrange(0, n as int) =~= p@);
        }
        (String::new(), p.substring_char(0, n).to_owned())
    }
}

/// Whether a cached folder is current: it has a modification time, the
/// folder's actual time is known, and the cached one is not older.
pub open spec fn spec_is_current(cached: Option<u64>, actual: Option<u64>) -> bool {
    match (cached, actual) {
        (Some(c), Some(a)) => c >= a,
        _ => false,
    }
}

/// Whether the cached listing of a folder, recorded as modified at
/// `cached` (milliseconds), can be served for a folder modified at
/// `actual`.
pub fn is_current(cached: Option<u64>, actual: Option<u64>) -> (r: bool)
    ensures
        r == spec_is_current(cached, actual),
{
    match (cached, actual) {
        (Some(c), Some(a)) => c >= a,
        _ => false,
    }
}

} // verus!
