//! Searching a cached directory tree: a query is split into lower-case terms,
//! and a folder matches when every term not yet matched by one of its
//! ancestors occurs in its lower-case name.
use vstd::prelude::*;
use crate::util::{is_white_space, split_char, split_on, str_trim, spec_trim, string_views};

verus! {

/// Options of a cached directory tree.
#[derive(Clone, Copy, Debug, PartialEq, Eq, Structural)]
pub struct Options {
    pub include_files: bool,
    pub watch_changes: bool,
    pub watch_recursively: bool,
    pub watch_delay: u64,
    pub follow_symlinks: bool,
    pub recent_list_size: u64,
}

impl Default for Options {
    fn default() -> (r: Options)
        ensures
            r == (Options {
                include_files: true,
                watch_changes: false,
                watch_recursively: true,
                watch_delay: 10,
                follow_symlinks: false,
                recent_list_size: 0,
            }),
    {
        Options {
            include_files: true,
            watch_changes: false,
            watch_recursively: true,
            watch_delay: 10,
            follow_symlinks: false,
            recent_list_size: 0,
        }
    }
}

/// What `str::to_lowercase` gives (Unicode lower case mapping).
pub uninterp spec fn spec_to_lowercase(s: Seq<char>) -> Seq<char>;

/// Calls `str::to_lowercase`.
#[verifier::external_body]
fn to_lowercase(s: &str) -> (r: String)
    ensures
        r@ == spec_to_lowercase(s@),
{
    s.to_lowercase()
}

/// Whether `t` occurs in `s`.
pub open spec fn occurs_in(s: Seq<char>, t: Seq<char>) -> bool {
    exists|j: int| 0 <= j && j + t.len() <= s.len() && #[trigger] s.subrange(j, j + t.len()) == t
}

/// Calls `str::contains` with a string pattern, which documents that it
/// tells whether the pattern matches a part of the string.
#[verifier::external_body]
fn str_contains(s: &str, t: &str) -> (r: bool)
    ensures
        r == occurs_in(s@, t@),
{
    s.contains(t)
}

/// A folder or file of the tree: its name and the lower-case name searched.
#[derive(Debug)]
pub struct DirEntry {
    pub name: String,
    pub search_tag: String,
}

impl DirEntry {
    /// The entry named `name`.
    pub fn new(name: &str) -> (r: Self)
        ensures
            r.name@ == name@,
            r.search_tag@ == spec_to_lowercase(name@),
    {
        DirEntry { search_tag: to_lowercase(name), name: name.to_owned() }
    }
}

/// The terms of a query: its parts between spaces, trimmed and in lower
/// case.
pub open spec fn spec_search_terms(query: Seq<char>) -> Seq<Seq<char>> {
    split_on(query, ' ').map_values(|p: Seq<char>| spec_to_lowercase(spec_trim(p)))
}

/// The terms of a query.
pub fn search_terms(query: &str) -> (r: Vec<String>)
    ensures
        string_views(r@) == spec_search_terms(query@),
{
    let parts = split_char(query, ' ');
    let mut out: Vec<String> = Vec::new();
    let mut i: usize = 0;
    while i < parts.len()
        invariant
            i <= parts@.len(),
            string_views(parts@) == split_on(query@, ' '),
            string_views(out@) == spec_search_terms(query@).take(i as int),
        decreases parts@.len() - i,
    {
        let t = to_lowercase(str_trim(parts[i].as_str()));
        assert(string_views(parts@)[i as int] == parts@[i as int]@);
        let ghost o = string_views(out@);
        out.push(t);
        proof {
            assert(string_views(out@) =~= o.push(t@));
            assert(spec_search_terms(query@)[i as int] == t@);
            assert(spec_search_terms(query@).take(i + 1) =~= spec_search_terms(query@).take(i as int).push(t@));
        }
        i = i + 1;
    }
    assert(spec_search_terms(query@).take(parts@.len() as int) =~= spec_search_terms(query@));
    out
}

// ---------------------------------------------------------------------
// the terms already matched

#[verifier::external_type_specification]
#[verifier::external_body]
#[verifier::reject_recursive_types(B)]
pub struct ExBitVec<B>(bit_vec::BitVec<B>);

/// The bits of a bit vector.
pub uninterp spec fn bits_of(b: bit_vec::BitVec<u32>) -> Seq<bool>;

/// Calls `BitVec::from_elem` with `false`: `n` cleared bits.
#[verifier::external_body]
fn bits_cleared(n: usize) -> (r: bit_vec::BitVec<u32>)
    ensures
        bits_of(r) == Seq::new(n as nat, |i: int| false),
{
    bit_vec::BitVec::from_elem(n, false)
}

/// Calls `BitVec::len`.
#[verifier::external_body]
fn bits_len(b: &bit_vec::BitVec<u32>) -> (r: usize)
    ensures
        r == bits_of(*b).len(),
{
    b.len()
}

/// Calls `BitVec::get` on an index in range.
#[verifier::external_body]
fn bits_get(b: &bit_vec::BitVec<u32>, i: usize) -> (r: bool)
    requires
        i < bits_of(*b).len(),
    ensures
        r == bits_of(*b)[i as int],
{
    b.get(i).unwrap_or(false)
}

/// Calls `BitVec::set` on an index in range (it panics on others).
#[verifier::external_body]
fn bits_set(b: &mut bit_vec::BitVec<u32>, i: usize, x: bool)
    requires
        i < bits_of(*old(b)).len(),
    ensures
        bits_of(*final(b)) == bits_of(*old(b)).update(i as int, x),
{
    b.set(i, x)
}

/// Calls `BitVec::clone`.
#[verifier::external_body]
fn bits_clone(b: &bit_vec::BitVec<u32>) -> (r: bit_vec::BitVec<u32>)
    ensures
        bits_of(r) == bits_of(*b),
{
    b.clone()
}

/// No term matched yet, for a query of `n` terms.
pub fn no_terms_matched(n: usize) -> (r: bit_vec::BitVec<u32>)
    ensures
        bits_of(r) == Seq::new(n as nat, |i: int| false),
{
    bits_cleared(n)
}

/// Whether the term `i` is matched by this entry: matched before, or in the
/// search tag.
pub open spec fn term_ok(tag: Seq<char>, terms: Seq<Seq<char>>, matched: Seq<bool>, i: int) -> bool {
    matched[i] || occurs_in(tag, terms[i])
}

/// Whether an entry is newly matching term `i`.
pub open spec fn term_new(tag: Seq<char>, terms: Seq<Seq<char>>, matched: Seq<bool>, i: int) -> bool {
    !matched[i] && occurs_in(tag, terms[i])
}

/// An entry with search tag `tag` matches where each term is matched before
/// or occurs in it. Where it does not match but does match some new terms,
/// those are added to the matched terms for its descendants.
pub open spec fn spec_is_match(tag: Seq<char>, terms: Seq<Seq<char>>, matched: Seq<bool>) -> (bool, Option<Seq<bool>>) {
    let res = forall|i: int| 0 <= i < terms.len() ==> #[trigger] term_ok(tag, terms, matched, i);
    let any_new = exists|i: int| 0 <= i < terms.len() && #[trigger] term_new(tag, terms, matched, i);
    if !res && any_new {
        (res, Some(Seq::new(matched.len(), |i: int| matched[i] || (i < terms.len() && term_new(tag, terms, matched, i)))))
    } else {
        (res, None)
    }
}

/// Whether an entry matches the search, and the terms matched for its
/// descendants where they change.
pub fn is_match(tag: &str, terms: &Vec<String>, matched: &bit_vec::BitVec<u32>) -> (r: (bool, Option<bit_vec::BitVec<u32>>))
    requires
        terms@.len() <= bits_of(*matched).len(),
    ensures
        r.0 == spec_is_match(tag@, string_views(terms@), bits_of(*matched)).0,
        match spec_is_match(tag@, string_views(terms@), bits_of(*matched)).1 {
            Some(m) => r.1 matches Some(b) && bits_of(b) == m,
            None => r.1 is None,
        },
{
    let ghost tv = string_views(terms@);
    let ghost mv = bits_of(*matched);
    let mut res = true;
    let mut any_new = false;
    let mut m = bits_clone(matched);
    let mut i: usize = 0;
    assert(bits_of(m) =~= Seq::new(mv.len(), |t: int| mv[t] || (t < 0 && term_new(tag@, tv, mv, t))));
    while i < terms.len()
        invariant
            i <= terms@.len(),
            terms@.len() <= mv.len(),
            tv == string_views(terms@),
            mv == bits_of(*matched),
            res == (forall|k: int| 0 <= k < i ==> #[trigger] term_ok(tag@, tv, mv, k)),
            any_new == (exists|k: int| 0 <= k < i && #[trigger] term_new(tag@, tv, mv, k)),
            bits_of(m) == Seq::new(mv.len(), |t: int| mv[t] || (t < i && term_new(tag@, tv, mv, t))),
        decreases terms@.len() - i,
    {
        assert(tv[i as int] == terms@[i as int]@);
        let ghost before = bits_of(m);
        if !bits_get(matched, i) {
            let contains = str_contains(tag, terms[i].as_str());
            if contains {
                bits_set(&mut m, i, true);
                any_new = true;
                assert(term_new(tag@, tv, mv, i as int));
            }
            res = res && contains;
        }
        proof {
            assert(bits_of(m) =~= Seq::new(mv.len(), |t: int| mv[t] || (t < i + 1 && term_new(tag@, tv, mv, t))));
            assert((forall|k: int| 0 <= k < i + 1 ==> #[trigger] term_ok(tag@, tv, mv, k)) == (
                (forall|k: int| 0 <= k < i ==> #[trigger] term_ok(tag@, tv, mv, k)) && term_ok(tag@, tv, mv, i as int)));
            if term_new(tag@, tv, mv, i as int) {
                assert(exists|k: int| 0 <= k < i + 1 && #[trigger] term_new(tag@, tv, mv, k));
            }
        }
        i = i + 1;
    }
    proof {
        assert(bits_of(m) =~= Seq::new(mv.len(), |t: int| mv[t] || (t < tv.len() && term_new(tag@, tv, mv, t))));
    }
    if !res && any_new {
        (false, Some(m))
    } else {
        (res, None)
    }
}

// ---------------------------------------------------------------------
// searching folders without a cache

/// The words found so far in `s[..n]` and the word under way.
pub open spec fn words_state(s: Seq<char>, n: nat) -> (Seq<Seq<char>>, Seq<char>)
    decreases n,
{
    if n == 0 || n > s.len() {
        (Seq::empty(), Seq::empty())
    } else {
        let (acc, cur) = words_state(s, (n - 1) as nat);
        let c = s[n - 1];
        if is_white_space(c) {
            if cur.len() > 0 { (acc.push(cur), Seq::empty()) } else { (acc, Seq::empty()) }
        } else {
            (acc, cur.push(c))
        }
    }
}

/// The words of `s`, as `str::split_whitespace` gives them: the longest
/// runs of characters that are not white space.
pub open spec fn spec_words(s: Seq<char>) -> Seq<Seq<char>> {
    let (acc, cur) = words_state(s, s.len());
    if cur.len() > 0 { acc.push(cur) } else { acc }
}

/// The lower-case words of a query.
pub open spec fn spec_query_tokens(q: Seq<char>) -> Seq<Seq<char>> {
    spec_words(q).map_values(|w: Seq<char>| spec_to_lowercase(w))
}

/// The words of a search query, each in lower case.
pub fn query_tokens(query: &str) -> (r: Vec<String>)
    ensures
        string_views(r@) == spec_query_tokens(query@),
{
    let n = query.unicode_len();
    let mut words: Vec<String> = Vec::new();
    let mut start: usize = 0;
    let mut i: usize = 0;
    while i < n
        invariant
            n == query@.len(),
            start <= i <= n,
            string_views(words@) == words_state(query@, i as nat).0,
            query@.subrange(start as int, i as int) == words_state(query@, i as nat).1,
        decreases n - i,
    {
        let c = query.get_char(i);
        proof {
            assert(query@.subrange(start as int, i + 1) =~= query@.subrange(start as int, i as int).push(c));
        }
        if is_space_char(c) {
            if start < i {
                let w = query.substring_char(start, i).to_owned();
                let ghost before = string_views(words@);
                words.push(w);
                proof {
                    assert(string_views(words@) =~= before.push(w@));
                }
            }
            start = i + 1;
            proof {
                assert(query@.subrange(start as int, i + 1) =~= Seq::<char>::empty());
            }
        }
        i = i + 1;
    }
    if start < n {
        let w = query.substring_char(start, n).to_owned();
        let ghost before = string_views(words@);
        words.push(w);
        proof {
            assert(string_views(words@) =~= before.push(w@));
        }
    }
    proof {
        assert(string_views(words@) =~= spec_words(query@));
    }
    let mut out: Vec<String> = Vec::new();
    let mut k: usize = 0;
    while k < words.len()
        invariant
            k <= words.len(),
            string_views(words@) == spec_words(query@),
            string_views(out@) == spec_words(query@).take(k as int).map_values(|w: Seq<char>| spec_to_lowercase(w)),
        decreases words.len() - k,
    {
        let lw = to_lowercase(words[k].as_str());
        let ghost before = string_views(out@);
        out.push(lw);
        proof {
            assert(string_views(words@)[k as int] == words@[k as int]@);
            assert(string_views(out@) =~= before.push(lw@));
            assert(spec_words(query@).take(k + 1).map_values(|w: Seq<char>| spec_to_lowercase(w))
                =~= spec_words(query@).take(k as int).map_values(|w: Seq<char>| spec_to_lowercase(w)).push(spec_to_lowercase(spec_words(query@)[k as int])));
        }
        k = k + 1;
    }
    proof {
        assert(spec_words(query@).take(words@.len() as int) =~= spec_words(query@));
    }
    out
}

/// Whether `c` is white space.
fn is_space_char(c: char) -> (r: bool)
    ensures
        r == is_white_space(c),
{
    let n = c as u32;
    (0x09 <= n && n <= 0x0d) || n == 0x20 || n == 0x85 || n == 0xa0 || n == 0x1680
        || (0x2000 <= n && n <= 0x200a) || n == 0x2028 || n == 0x2029 || n == 0x202f
        || n == 0x205f || n == 0x3000
}

/// Whether every token occurs in the lower-case `path`.
pub open spec fn spec_path_matches(path: Seq<char>, tokens: Seq<Seq<char>>) -> bool {
    forall|i: int| 0 <= i < tokens.len() ==> occurs_in(spec_to_lowercase(path), #[trigger] tokens[i])
}

/// Whether a folder at `path` (relative to the collection) is found by the
/// tokens of a query: each occurs in the path in lower case. A folder that
/// is not found is searched further down.
pub fn path_matches_tokens(path: &str, tokens: &Vec<String>) -> (r: bool)
    ensures
        r == spec_path_matches(path@, string_views(tokens@)),
{
    let lc = to_lowercase(path);
    let mut i: usize = 0;
    while i < tokens.len()
        invariant
            i <= tokens.len(),
            lc@ == spec_to_lowercase(path@),
            forall|j: int| 0 <= j < i ==> occurs_in(lc@, #[trigger] string_views(tokens@)[j]),
        decreases tokens.len() - i,
    {
        if !str_contains(lc.as_str(), tokens[i].as_str()) {
            proof {
                assert(string_views(tokens@)[i as int] == tokens@[i as int]@);
            }
            return false;
        }
        proof {
            assert(string_views(tokens@)[i as int] == tokens@[i as int]@);
        }
        i = i + 1;
    }
    true
}

/// Whether `path` lies below the folder `prev`, a folder found before: it
/// begins with `prev` and a `/` follows somewhere after.
pub open spec fn below_match(prev: Option<Seq<char>>, path: Seq<char>) -> bool {
    match prev {
        Some(m) => m.is_prefix_of(path) && path.skip(m.len() as int).contains('/'),
        None => false,
    }
}

/// The folders found among the folder paths `paths`, in their order (a
/// walk of the collection, parents first), with the last one found: a
/// folder that every token matches is found, except one below the folder
/// found last, whose match already covers it.
pub open spec fn search_state(paths: Seq<Seq<char>>, tokens: Seq<Seq<char>>) -> (Seq<int>, Option<Seq<char>>)
    decreases paths.len(),
{
    if paths.len() == 0 {
        (Seq::empty(), None)
    } else {
        let (found, prev) = search_state(paths.drop_last(), tokens);
        let p = paths.last();
        if below_match(prev, p) {
            (found, prev)
        } else if spec_path_matches(p, tokens) {
            (found.push(paths.len() - 1), Some(p))
        } else {
            (found, prev)
        }
    }
}

/// Whether `path` begins with `prefix` and a `/` follows after it.
fn is_below(prefix: &str, path: &str) -> (r: bool)
    ensures
        r == below_match(Some(prefix@), path@),
{
    let m = prefix.unicode_len();
    let n = path.unicode_len();
    if m > n {
        return false;
    }
    let mut i: usize = 0;
    while i < m
        invariant
            m == prefix@.len(),
            n == path@.len(),
            m <= n,
            i <= m,
            prefix@.take(i as int) == path@.take(i as int),
        decreases m - i,
    {
        if prefix.get_char(i) != path.get_char(i) {
            assert(prefix@[i as int] != path@.subrange(0, m as int)[i as int]);
            return false;
        }
        assert(prefix@.take(i + 1) =~= prefix@.take(i as int).push(prefix@[i as int]));
        assert(path@.take(i + 1) =~= path@.take(i as int).push(path@[i as int]));
        i = i + 1;
    }
    assert(prefix@ =~= path@.subrange(0, m as int));
    let ghost rest = path@.skip(m as int);
    let mut j: usize = m;
    while j < n
        invariant
            m <= j <= n,
            n == path@.len(),
            rest == path@.skip(m as int),
            m == prefix@.len(),
            prefix@ =~= path@.subrange(0, m as int),
            forall|k: int| m <= k < j ==> path@[k] != '/',
        decreases n - j,
    {
        if path.get_char(j) == '/' {
            assert(rest[j - m] == '/');
            assert(rest.contains('/'));
            return true;
        }
        j = j + 1;
    }
    assert forall|k: int| 0 <= k < rest.len() implies rest[k] != '/' by {
        assert(rest[k] == path@[k + m]);
    }
    false
}

/// Searches the folders at `paths`, in their order (a walk of the
/// collection, parents first), for the lower-case `tokens`: the indices of
/// the folders found, as `search_state` says.
pub fn search_paths(paths: &Vec<String>, tokens: &Vec<String>) -> (r: Vec<usize>)
    ensures
        as_int_seq(r@) == search_state(string_views(paths@), string_views(tokens@)).0,
{
    let ghost pv = string_views(paths@);
    let mut found: Vec<usize> = Vec::new();
    let mut prev: Option<usize> = None;
    let mut k: usize = 0;
    while k < paths.len()
        invariant
            k <= paths@.len(),
            pv == string_views(paths@),
            as_int_seq(found@) == search_state(pv.take(k as int), string_views(tokens@)).0,
            match prev {
                Some(i) => i < k && search_state(pv.take(k as int), string_views(tokens@)).1 == Some(pv[i as int]),
                None => search_state(pv.take(k as int), string_views(tokens@)).1 is None,
            },
        decreases paths@.len() - k,
    {
        proof {
            assert(pv.take(k + 1).drop_last() =~= pv.take(k as int));
            assert(pv.take(k + 1).last() == paths@[k as int]@);
        }
        let p = paths[k].as_str();
        let below = match prev {
            Some(i) => {
                assert(pv[i as int] == paths@[i as int]@);
                is_below(paths[i].as_str(), p)
            },
            None => false,
        };
        if !below && path_matches_tokens(p, tokens) {
            let ghost before = as_int_seq(found@);
            found.push(k);
            assert(as_int_seq(found@) =~= before.push(k as int));
            prev = Some(k);
            assert(pv[k as int] == paths@[k as int]@);
        }
        k = k + 1;
    }
    assert(pv.take(paths@.len() as int) =~= pv);
    found
}

/// Indices as integers.
pub open spec fn as_int_seq(t: Seq<usize>) -> Seq<int> {
    t.map_values(|x: usize| x as int)
}

} // verus!
