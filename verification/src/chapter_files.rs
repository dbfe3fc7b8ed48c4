//! Chapters of a long audio file appear as pseudo files: a name of the form
//! `NNN - title$$start-end$$.ext`, under the file itself or, collapsed,
//! beside it as `file$$NNN - title$$start-end$$.ext`. This module makes such
//! names and reads the path and time span back from them.
use vstd::prelude::*;
use crate::audio_meta::{decimal, u64_to_string, AudioMeta, Chapter, FileSection, TimeSpan};
use crate::numbers::{parse_u64, spec_parse_u64};
use crate::util::{
    path_extension, path_file_name, path_join, path_parent, spec_path_extension,
    spec_path_file_name, spec_path_join, spec_path_parent,
};

verus! {

/// The longest name of a pseudo file, in bytes.
pub const MAX_CHAPTER_SIZE: u64 = 255;

/// The pattern of a time span in a pseudo file name.
pub const SPAN_PATTERN: &'static str = "(\\d+)-(\\d+)";

/// What `regex::Regex::new(pattern)` and then `captures(text)` give: the
/// first and second capture group of the first match, each where it took
/// part; `None` where nothing matches or the pattern does not compile.
pub uninterp spec fn spec_regex_groups(pattern: Seq<char>, text: Seq<char>) -> Option<(Option<Seq<char>>, Option<Seq<char>>)>;

pub open spec fn opt_view(o: Option<String>) -> Option<Seq<char>> {
    match o {
        Some(s) => Some(s@),
        None => None,
    }
}

/// Compiles `pattern` with `regex::Regex::new` and calls `Regex::captures`
/// on `text`, taking the text of groups 1 and 2. The result is named by
/// `spec_regex_groups`; which text the groups hold is not stated.
#[verifier::external_body]
fn regex_groups(pattern: &str, text: &str) -> (r: Option<(Option<String>, Option<String>)>)
    ensures
        r is None <==> spec_regex_groups(pattern@, text@) is None,
        r matches Some(g) ==> spec_regex_groups(pattern@, text@) == Some((opt_view(g.0), opt_view(g.1))),
{
    let re = match regex::Regex::new(pattern) { Ok(re) => re, Err(_) => return None };
    let cap = match re.captures(text) { Some(c) => c, None => return None };
    let g1 = match cap.get(1) { Some(m) => Some(m.as_str().to_string()), None => None };
    let g2 = match cap.get(2) { Some(m) => Some(m.as_str().to_string()), None => None };
    Some((g1, g2))
}

/// Whether the groups of a span can be read without failing: the first group
/// is there and is a `u64`, and an end that is a `u64` is not before it.
pub open spec fn span_groups_ok(g: Option<(Option<Seq<char>>, Option<Seq<char>>)>) -> bool {
    match g {
        None => true,
        Some((first, second)) => match first {
            None => false,
            Some(f) => match spec_parse_u64(f) {
                None => false,
                Some(start) => match second {
                    Some(e) => match spec_parse_u64(e) {
                        Some(end) => start <= end,
                        None => true,
                    },
                    None => true,
                },
            },
        },
    }
}

/// The span that the groups give: the start, and the duration to an end
/// that is a `u64`.
pub open spec fn span_of_groups(g: Option<(Option<Seq<char>>, Option<Seq<char>>)>) -> Option<TimeSpan> {
    match g {
        None => None,
        Some((first, second)) => {
            let start = spec_parse_u64(first.unwrap()).unwrap();
            let duration = match second {
                Some(e) => match spec_parse_u64(e) {
                    Some(end) => Some((end - start) as u64),
                    None => None,
                },
                None => None,
            };
            Some(TimeSpan { start, duration })
        },
    }
}

/// The span of the text of the two groups of a match.
pub fn span_from_groups(first: Option<String>, second: Option<String>) -> (r: TimeSpan)
    requires
        span_groups_ok(Some((opt_view(first), opt_view(second)))),
    ensures
        Some(r) == span_of_groups(Some((opt_view(first), opt_view(second)))),
{
    let start = match first {
        Some(f) => parse_u64(f.as_str()).unwrap(),
        None => 0,
    };
    let duration = match second {
        Some(e) => match parse_u64(e.as_str()) {
            Some(end) => Some(end - start),
            None => None,
        },
        None => None,
    };
    TimeSpan { start, duration }
}

/// The time span `start-end` in `s`.
pub fn parse_span(s: &str) -> (r: Option<TimeSpan>)
    requires
        span_groups_ok(spec_regex_groups(SPAN_PATTERN@, s@)),
    ensures
        r == span_of_groups(spec_regex_groups(SPAN_PATTERN@, s@)),
{
    match regex_groups(SPAN_PATTERN, s) {
        Some((first, second)) => Some(span_from_groups(first, second)),
        None => None,
    }
}

/// The time span in `s`, or `None` where reading it would fail (a start
/// that is no `u64`, or an end before the start).
pub fn try_parse_span(s: &str) -> (r: Option<Option<TimeSpan>>)
    ensures
        r is None <==> !span_groups_ok(spec_regex_groups(SPAN_PATTERN@, s@)),
        r matches Some(x) ==> x == span_of_groups(spec_regex_groups(SPAN_PATTERN@, s@)),
{
    match regex_groups(SPAN_PATTERN, s) {
        Some((first, second)) => {
            let start = match &first {
                Some(f) => parse_u64(f.as_str()),
                None => None,
            };
            match start {
                None => None,
                Some(st) => {
                    let fits = match &second {
                        Some(e) => match parse_u64(e.as_str()) {
                            Some(end) => st <= end,
                            None => true,
                        },
                        None => true,
                    };
                    if fits {
                        Some(parse_span(s))
                    } else {
                        None
                    }
                },
            }
        },
        None => Some(None),
    }
}

// ---------------------------------------------------------------------
// splitting at `$$`

/// The index of the first `$$` in `s` at or after `i`, or the length of `s`.
pub open spec fn marker_from(s: Seq<char>, i: int) -> int
    decreases s.len() - i,
{
    if i + 1 >= s.len() {
        s.len() as int
    } else if s[i] == '$' && s[i + 1] == '$' {
        i
    } else {
        marker_from(s, i + 1)
    }
}

/// The parts of `s[i..]` between the markers `$$`, as `str::split("$$")`
/// gives them.
pub open spec fn split_marker_from(s: Seq<char>, i: int) -> Seq<Seq<char>>
    decreases s.len() - i,
{
    let k = marker_from(s, i);
    if i < 0 || i > s.len() {
        seq![Seq::<char>::empty()]
    } else if k >= s.len() {
        seq![s.subrange(i, s.len() as int)]
    } else {
        proof {
            lemma_marker_from_bounds(s, i);
        }
        seq![s.subrange(i, k)] + split_marker_from(s, k + 2)
    }
}

/// Where the next marker from `i` on can be.
pub proof fn lemma_marker_from_bounds(s: Seq<char>, i: int)
    requires
        0 <= i,
    ensures
        i <= marker_from(s, i) || marker_from(s, i) == s.len(),
        marker_from(s, i) <= s.len(),
        marker_from(s, i) < s.len() ==> marker_from(s, i) + 1 < s.len(),
    decreases s.len() - i,
{
    if i + 1 < s.len() && !(s[i] == '$' && s[i + 1] == '$') {
        lemma_marker_from_bounds(s, i + 1);
    }
}

/// Splits `s` at each `$$`.
pub fn split_marker(s: &str) -> (r: Vec<String>)
    ensures
        crate::util::string_views(r@) == split_marker_from(s@, 0),
{
    let n = s.unicode_len();
    let mut parts: Vec<String> = Vec::new();
    let mut seg: usize = 0;
    let mut j: usize = 0;
    while j < n && j + 1 < n
        invariant
            n == s@.len(),
            seg <= j,
            j <= n,
            seg <= n,
            marker_from(s@, seg as int) == marker_from(s@, j as int),
            crate::util::string_views(parts@) + split_marker_from(s@, seg as int) == split_marker_from(s@, 0),
        decreases n - j,
    {
        if s.get_char(j) == '$' && s.get_char(j + 1) == '$' {
            proof {
                lemma_marker_from_bounds(s@, j as int);
            }
            let part = s.substring_char(seg, j).to_owned();
            let ghost before = crate::util::string_views(parts@);
            parts.push(part);
            proof {
                assert(crate::util::string_views(parts@) =~= before.push(s@.subrange(seg as int, j as int)));
                assert(split_marker_from(s@, seg as int) =~= seq![s@.subrange(seg as int, j as int)]
                    + split_marker_from(s@, j + 2));
                assert(crate::util::string_views(parts@) + split_marker_from(s@, j + 2)
                    =~= before + split_marker_from(s@, seg as int));
            }
            seg = j + 2;
            j = j + 2;
        } else {
            j = j + 1;
        }
    }
    proof {
        lemma_marker_from_bounds(s@, seg as int);
        assert(marker_from(s@, j as int) == n);
    }
    let last = s.substring_char(seg, n).to_owned();
    let ghost before = crate::util::string_views(parts@);
    parts.push(last);
    proof {
        assert(crate::util::string_views(parts@) =~= before.push(last@));
        assert(split_marker_from(s@, seg as int) =~= seq![s@.subrange(seg as int, n as int)]);
    }
    parts
}

// ---------------------------------------------------------------------
// the path and span of a pseudo file

/// Whether reading the span of a pseudo file name can fail.
pub open spec fn chapter_path_ok(p: Seq<char>) -> bool {
    match spec_path_file_name(p) {
        None => true,
        Some(fname) => {
            let parts = split_marker_from(fname, 0);
            (parts.len() == 3 || parts.len() == 4) ==> span_groups_ok(
                spec_regex_groups(SPAN_PATTERN@, parts[parts.len() - 2]),
            )
        },
    }
}

/// The real path and the time span of a pseudo file; a path that is not one
/// comes back as it is, without a span.
pub open spec fn spec_parse_chapter_path(p: Seq<char>) -> (Seq<char>, Option<TimeSpan>) {
    match spec_path_file_name(p) {
        None => (p, None),
        Some(fname) => {
            let parts = split_marker_from(fname, 0);
            let sz = parts.len();
            let parent = match spec_path_parent(p) {
                Some(q) => q,
                None => Seq::<char>::empty(),
            };
            if sz == 2 {
                (spec_path_join(spec_path_join(parent, parts[0]), parts[1]), None)
            } else if sz == 3 || sz == 4 {
                match span_of_groups(spec_regex_groups(SPAN_PATTERN@, parts[sz - 2])) {
                    Some(span) => if sz == 3 {
                        (parent, Some(span))
                    } else {
                        (spec_path_join(parent, parts[0]), Some(span))
                    },
                    None => (p, None),
                }
            } else {
                (p, None)
            }
        },
    }
}

/// The real path and the time span of a pseudo file.
pub fn parse_chapter_path(p: &str) -> (r: (String, Option<TimeSpan>))
    requires
        chapter_path_ok(p@),
    ensures
        (r.0@, r.1) == spec_parse_chapter_path(p@),
{
    let fname = match path_file_name(p) {
        Some(f) => f,
        None => return (p.to_owned(), None),
    };
    let parts = split_marker(fname.as_str());
    let sz = parts.len();
    proof {
        assert(crate::util::string_views(parts@).len() == sz);
    }
    if sz == 2 || sz == 3 || sz == 4 {
        let parent = match path_parent(p) {
            Some(q) => q,
            None => String::new(),
        };
        assert(crate::util::string_views(parts@)[0] == parts@[0]@);
        if sz == 2 {
            assert(crate::util::string_views(parts@)[1] == parts@[1]@);
            let first = path_join(parent.as_str(), parts[0].as_str());
            (path_join(first.as_str(), parts[1].as_str()), None)
        } else {
            assert(crate::util::string_views(parts@)[sz - 2] == parts@[sz - 2]@);
            match parse_span(parts[sz - 2].as_str()) {
                Some(span) => {
                    if sz == 3 {
                        (parent, Some(span))
                    } else {
                        (path_join(parent.as_str(), parts[0].as_str()), Some(span))
                    }
                },
                None => (p.to_owned(), None),
            }
        }
    } else {
        (p.to_owned(), None)
    }
}

/// The real path and the time span of a pseudo file, or `None` where its
/// span cannot be read without failing.
pub fn try_parse_chapter_path(p: &str) -> (r: Option<(String, Option<TimeSpan>)>)
    ensures
        r is None <==> !chapter_path_ok(p@),
        r matches Some(x) ==> (x.0@, x.1) == spec_parse_chapter_path(p@),
{
    match path_file_name(p) {
        Some(f) => {
            let parts = split_marker(f.as_str());
            let sz = parts.len();
            assert(crate::util::string_views(parts@).len() == sz);
            if sz == 3 || sz == 4 {
                assert(crate::util::string_views(parts@)[sz - 2] == parts@[sz - 2]@);
                if try_parse_span(parts[sz - 2].as_str()).is_none() {
                    return None;
                }
            }
        },
        None => {},
    }
    Some(parse_chapter_path(p))
}

// ---------------------------------------------------------------------
// the name and path of a pseudo file

/// Why a chapter of a file cannot be given a collapsed pseudo path.
#[derive(Clone, Copy, Debug, PartialEq, Eq, Structural)]
pub enum ChapterPathError {
    /// the file has no parent folder
    NoParent,
    /// the file has no file name
    InvalidFileName,
}

/// The number of bytes of `c` in UTF-8.
pub open spec fn char_width(c: char) -> int {
    let v = c as u32;
    if v < 0x80 {
        1
    } else if v < 0x800 {
        2
    } else if v < 0x10000 {
        3
    } else {
        4
    }
}

/// The number of bytes of `s` in UTF-8, which `str::len` gives.
pub open spec fn utf8_len(s: Seq<char>) -> int
    decreases s.len(),
{
    if s.len() == 0 {
        0
    } else {
        utf8_len(s.drop_last()) + char_width(s.last())
    }
}

/// The byte offset of the character `k` of `s`.
pub open spec fn byte_offset(s: Seq<char>, k: int) -> int {
    utf8_len(s.take(k))
}

/// The chapter number written with at least three digits.
pub open spec fn padded3(n: u32) -> Seq<char> {
    if n < 10 {
        seq!['0', '0'] + decimal(n as nat)
    } else if n < 100 {
        seq!['0'] + decimal(n as nat)
    } else {
        decimal(n as nat)
    }
}

/// `NNN - title`, with each `/` of the title made a `-`.
pub open spec fn pseudo_base_name(c: &Chapter) -> Seq<char> {
    padded3(c.number) + seq![' ', '-', ' '] + c.title@.map_values(
        |x: char| if x == '/' { '-' } else { x },
    )
}

/// `.ext` for a path with an extension, else nothing.
pub open spec fn ext_text(p: Seq<char>) -> Seq<char> {
    match spec_path_extension(p) {
        Some(e) => seq!['.'] + e,
        None => Seq::<char>::empty(),
    }
}

/// `$$start-end$$.ext`.
pub open spec fn suffix_text(c: &Chapter, p: Seq<char>) -> Seq<char> {
    seq!['$', '$'] + decimal(c.start as nat) + seq!['-'] + decimal(c.end as nat) + seq!['$', '$']
        + ext_text(p)
}

/// How many bytes the name may have beside the suffix.
pub open spec fn allowed_len(c: &Chapter, p: Seq<char>) -> int {
    MAX_CHAPTER_SIZE - utf8_len(suffix_text(c, p))
}

/// Where a long name is cut: scanning the character starts in turn, `start`
/// becomes the previous character start once a start passes `sz` bytes
/// (while it is still at the beginning), and the cut ends at the first start
/// with at most `sz` bytes after it (or at the beginning where none has).
pub open spec fn cut_scan(s: Seq<char>, name_sz: int, sz: int, k: int, start_c: int, pos_c: int) -> (int, int)
    decreases s.len() - k,
{
    if k < 0 || k >= s.len() {
        (start_c, 0)
    } else {
        let idx = byte_offset(s, k);
        let start2 = if byte_offset(s, start_c) == 0 && idx > sz { pos_c } else { start_c };
        if name_sz - idx <= sz {
            (start2, k)
        } else {
            cut_scan(s, name_sz, sz, k + 1, start2, k)
        }
    }
}

/// The name of the pseudo file of chapter `c` of the file `p`, cut in the
/// middle with `...` where the whole file name would be longer than
/// `MAX_CHAPTER_SIZE` bytes.
pub open spec fn shortened_name(c: &Chapter, p: Seq<char>) -> Seq<char> {
    let name = pseudo_base_name(c);
    let name_sz = utf8_len(name);
    let allowed = allowed_len(c, p);
    if name_sz > allowed {
        let sz = (allowed - 3) / 2;
        let cut = cut_scan(name, name_sz, sz, 0, 0, 0);
        name.take(cut.0) + seq!['.', '.', '.'] + name.skip(cut.1)
    } else {
        name
    }
}

/// Whether naming the chapter stays within its bounds: the suffix fits in
/// the limit, a name to be cut leaves room for `...`, and the cut name fits.
pub open spec fn chapter_name_ok(c: &Chapter, p: Seq<char>) -> bool {
    &&& utf8_len(suffix_text(c, p)) <= MAX_CHAPTER_SIZE
    &&& utf8_len(pseudo_base_name(c)) > allowed_len(c, p) ==> allowed_len(c, p) >= 3
        && utf8_len(shortened_name(c, p)) <= allowed_len(c, p)
}

/// The name of the pseudo file of a chapter and its path: under the file,
/// or beside it as `file$$name` where `collapse`.
pub open spec fn spec_name_and_path_for_chapter(p: Seq<char>, c: &Chapter, collapse: bool) -> Result<(Seq<char>, Seq<char>), ChapterPathError> {
    let name = shortened_name(c, p);
    let file = name + suffix_text(c, p);
    if collapse {
        match spec_path_parent(p) {
            None => Err(ChapterPathError::NoParent),
            Some(base) => match spec_path_file_name(p) {
                None => Err(ChapterPathError::InvalidFileName),
                Some(f) => Ok((name, spec_path_join(base, f + seq!['$', '$'] + file))),
            },
        }
    } else {
        Ok((name, spec_path_join(p, file)))
    }
}

/// Calls `str::replace` with a character for a character, which documents
/// that every occurrence of `from` is replaced.
#[verifier::external_body]
fn replace_char(s: &str, from: char, to: char) -> (r: String)
    ensures
        r@ == s@.map_values(|x: char| if x == from { to } else { x }),
{
    s.replace(from, to.encode_utf8(&mut [0u8; 4]))
}

fn width_of(c: char) -> (r: u128)
    ensures
        r == char_width(c),
{
    let v = c as u32;
    if v < 0x80 {
        1
    } else if v < 0x800 {
        2
    } else if v < 0x10000 {
        3
    } else {
        4
    }
}

/// The number of bytes of `s` in UTF-8.
fn utf8_length(s: &str) -> (r: u128)
    ensures
        r == utf8_len(s@),
{
    let n = s.unicode_len();
    let mut total: u128 = 0;
    let mut k: usize = 0;
    while k < n
        invariant
            n == s@.len(),
            k <= n,
            total == byte_offset(s@, k as int),
            total <= 4 * k,
        decreases n - k,
    {
        let c = s.get_char(k);
        proof {
            assert(s@.take(k + 1).drop_last() =~= s@.take(k as int));
        }
        total = total + width_of(c);
        k = k + 1;
    }
    assert(s@.take(n as int) =~= s@);
    total
}

/// Where a name of `name_sz` bytes is cut for a half of `sz` bytes.
fn cut_points(s: &str, name_sz: u128, sz: u128) -> (r: (usize, usize))
    requires
        sz <= MAX_CHAPTER_SIZE,
    ensures
        r.0 as int == cut_scan(s@, name_sz as int, sz as int, 0, 0, 0).0,
        r.1 as int == cut_scan(s@, name_sz as int, sz as int, 0, 0, 0).1,
        r.0 <= s@.len(),
        r.1 <= s@.len(),
{
    let n = s.unicode_len();
    let mut start_c: usize = 0;
    let mut start_b: u128 = 0;
    let mut pos_c: usize = 0;
    let mut off: u128 = 0;
    let mut k: usize = 0;
    assert(s@.take(0) =~= Seq::<char>::empty());
    while k < n
        invariant
            n == s@.len(),
            k <= n,
            start_c <= k,
            pos_c <= k,
            sz <= MAX_CHAPTER_SIZE,
            off == byte_offset(s@, k as int),
            off <= 4 * k,
            start_b == byte_offset(s@, start_c as int),
            start_b <= 4 * k,
            cut_scan(s@, name_sz as int, sz as int, 0, 0, 0)
                == cut_scan(s@, name_sz as int, sz as int, k as int, start_c as int, pos_c as int),
        decreases n - k,
    {
        let c = s.get_char(k);
        if start_b == 0 && off > sz {
            start_c = pos_c;
            start_b = byte_offset_of(s, pos_c);
        }
        if name_sz <= sz + off {
            return (start_c, k);
        }
        pos_c = k;
        proof {
            assert(s@.take(k + 1).drop_last() =~= s@.take(k as int));
        }
        off = off + width_of(c);
        k = k + 1;
    }
    (start_c, 0)
}

/// The byte offset of the character `k` of `s`.
fn byte_offset_of(s: &str, k: usize) -> (r: u128)
    requires
        k <= s@.len(),
    ensures
        r == byte_offset(s@, k as int),
        r <= 4 * k,
{
    let mut total: u128 = 0;
    let mut j: usize = 0;
    assert(s@.take(0) =~= Seq::<char>::empty());
    while j < k
        invariant
            k <= s@.len(),
            j <= k,
            total == byte_offset(s@, j as int),
            total <= 4 * j,
        decreases k - j,
    {
        let c = s.get_char(j);
        proof {
            assert(s@.take(j + 1).drop_last() =~= s@.take(j as int));
        }
        total = total + width_of(c);
        j = j + 1;
    }
    total
}

/// The chapter number with at least three digits.
fn padded_number(n: u32) -> (r: String)
    ensures
        r@ == padded3(n),
{
    let digits = u64_to_string(n as u64);
    let mut r = String::new();
    if n < 10 {
        r.append("00");
    } else if n < 100 {
        r.append("0");
    }
    r.append(digits.as_str());
    proof {
        reveal_strlit("00");
        reveal_strlit("0");
        assert("00"@ =~= seq!['0', '0']);
        assert("0"@ =~= seq!['0']);
        assert(Seq::<char>::empty() + decimal(n as nat) =~= decimal(n as nat));
    }
    r
}

/// The name of the pseudo file of chapter `chap` of the file `p`, and its
/// path: under the file, or beside it as `file$$name` where `collapse`.
pub fn name_and_path_for_chapter(p: &str, chap: &Chapter, collapse: bool) -> (r: Result<(String, String), ChapterPathError>)
    requires
        chapter_name_ok(chap, p@),
    ensures
        match spec_name_and_path_for_chapter(p@, chap, collapse) {
            Ok(v) => r matches Ok(x) && x.0@ == v.0 && x.1@ == v.1,
            Err(e) => r == Err::<(String, String), ChapterPathError>(e),
        },
{
    proof {
        reveal_strlit(".");
        reveal_strlit(" - ");
        reveal_strlit("$$");
        reveal_strlit("-");
        reveal_strlit("...");
        assert("."@ =~= seq!['.']);
        assert(" - "@ =~= seq![' ', '-', ' ']);
        assert("$$"@ =~= seq!['$', '$']);
        assert("-"@ =~= seq!['-']);
        assert("..."@ =~= seq!['.', '.', '.']);
    }
    let ext = match path_extension(p) {
        Some(e) => {
            let mut x = ".".to_owned();
            x.append(e.as_str());
            x
        },
        None => String::new(),
    };
    assert(ext@ == ext_text(p@));
    let mut name = padded_number(chap.number);
    name.append(" - ");
    let t = replace_char(chap.title.as_str(), '/', '-');
    name.append(t.as_str());
    assert(name@ =~= pseudo_base_name(chap));
    let mut suffix = "$$".to_owned();
    suffix.append(u64_to_string(chap.start).as_str());
    suffix.append("-");
    suffix.append(u64_to_string(chap.end).as_str());
    suffix.append("$$");
    suffix.append(ext.as_str());
    assert(suffix@ =~= suffix_text(chap, p@));
    let suffix_len = utf8_length(suffix.as_str());
    let allowed: u128 = 255 - suffix_len;
    let name_sz = utf8_length(name.as_str());
    let name = if name_sz > allowed {
        let sz = (allowed - 3) / 2;
        let (a, b) = cut_points(name.as_str(), name_sz, sz);
        let n = name.unicode_len();
        let mut x = name.substring_char(0, a).to_owned();
        x.append("...");
        x.append(name.substring_char(b, n));
        proof {
            assert(name@.subrange(0, a as int) =~= name@.take(a as int));
            assert(name@.subrange(b as int, n as int) =~= name@.skip(b as int));
        }
        x
    } else {
        name
    };
    assert(name@ == shortened_name(chap, p@));
    let mut file = name.as_str().to_owned();
    file.append(suffix.as_str());
    if collapse {
        let base = match path_parent(p) {
            Some(b) => b,
            None => return Err(ChapterPathError::NoParent),
        };
        let mut f = match path_file_name(p) {
            Some(f) => f,
            None => return Err(ChapterPathError::InvalidFileName),
        };
        f.append("$$");
        f.append(file.as_str());
        let path = path_join(base.as_str(), f.as_str());
        Ok((name, path))
    } else {
        let path = path_join(p, file.as_str());
        Ok((name, path))
    }
}

/// The name and path of a chapter's pseudo file, or `None` where making the
/// name would go past its bounds (see `chapter_name_ok`).
pub fn try_name_and_path_for_chapter(p: &str, chap: &Chapter, collapse: bool) -> (r: Option<Result<(String, String), ChapterPathError>>)
    ensures
        r is None <==> !chapter_name_ok(chap, p@),
        r matches Some(x) ==> match spec_name_and_path_for_chapter(p@, chap, collapse) {
            Ok(v) => x matches Ok(y) && y.0@ == v.0 && y.1@ == v.1,
            Err(e) => x == Err::<(String, String), ChapterPathError>(e),
        },
{
    if chapter_name_fits(p, chap) {
        Some(name_and_path_for_chapter(p, chap, collapse))
    } else {
        None
    }
}

/// Whether `chapter_name_ok` holds.
fn chapter_name_fits(p: &str, chap: &Chapter) -> (r: bool)
    ensures
        r == chapter_name_ok(chap, p@),
{
    proof {
        reveal_strlit(".");
        reveal_strlit(" - ");
        reveal_strlit("$$");
        reveal_strlit("-");
        reveal_strlit("...");
        assert("."@ =~= seq!['.']);
        assert(" - "@ =~= seq![' ', '-', ' ']);
        assert("$$"@ =~= seq!['$', '$']);
        assert("-"@ =~= seq!['-']);
        assert("..."@ =~= seq!['.', '.', '.']);
    }
    let ext = match path_extension(p) {
        Some(e) => {
            let mut x = ".".to_owned();
            x.append(e.as_str());
            x
        },
        None => String::new(),
    };
    let mut name = padded_number(chap.number);
    name.append(" - ");
    let t = replace_char(chap.title.as_str(), '/', '-');
    name.append(t.as_str());
    assert(name@ =~= pseudo_base_name(chap));
    let mut suffix = "$$".to_owned();
    suffix.append(u64_to_string(chap.start).as_str());
    suffix.append("-");
    suffix.append(u64_to_string(chap.end).as_str());
    suffix.append("$$");
    suffix.append(ext.as_str());
    assert(suffix@ =~= suffix_text(chap, p@));
    let suffix_len = utf8_length(suffix.as_str());
    if suffix_len > 255 {
        return false;
    }
    let allowed: u128 = 255 - suffix_len;
    let name_sz = utf8_length(name.as_str());
    if name_sz <= allowed {
        return true;
    }
    if allowed < 3 {
        return false;
    }
    let sz = (allowed - 3) / 2;
    let (a, b) = cut_points(name.as_str(), name_sz, sz);
    let n = name.unicode_len();
    let mut x = name.substring_char(0, a).to_owned();
    x.append("...");
    x.append(name.substring_char(b, n));
    proof {
        assert(name@.subrange(0, a as int) =~= name@.take(a as int));
        assert(name@.subrange(b as int, n as int) =~= name@.skip(b as int));
    }
    utf8_length(x.as_str()) <= allowed
}

/// A file of a folder that is a chapter of an audio file: its name, its
/// path, its audio information and its part of the audio file.
#[derive(Clone, Debug, PartialEq, Eq)]
pub struct ChapterEntry {
    pub name: String,
    pub path: String,
    pub meta: AudioMeta,
    pub section: FileSection,
}

pub struct ChapterEntryV {
    pub name: Seq<char>,
    pub path: Seq<char>,
    pub meta: AudioMeta,
    pub section: FileSection,
}

impl View for ChapterEntry {
    type V = ChapterEntryV;

    open spec fn view(&self) -> ChapterEntryV {
        ChapterEntryV { name: self.name@, path: self.path@, meta: self.meta, section: self.section }
    }
}

pub open spec fn entries_view(es: Seq<ChapterEntry>) -> Seq<ChapterEntryV> {
    es.map_values(|e: ChapterEntry| e@)
}

/// Whether the entry of chapter `c` of the file `p` can be made: the
/// chapter ends no earlier than it starts and its name can be made.
pub open spec fn chapter_entry_ok(c: &Chapter, p: Seq<char>) -> bool {
    c.start <= c.end && chapter_name_ok(c, p)
}

/// The entries of the chapters `cs` of the file `p` with bit rate
/// `bitrate`, in order: each lasts from its start to its end, in whole
/// seconds. `None` at the first chapter whose entry cannot be made, an error
/// at the first whose name and path give one.
pub open spec fn spec_chapter_entries(p: Seq<char>, cs: Seq<Chapter>, bitrate: u32, collapse: bool) -> Option<Result<Seq<ChapterEntryV>, ChapterPathError>>
    decreases cs.len(),
{
    if cs.len() == 0 {
        Some(Ok(Seq::empty()))
    } else {
        match spec_chapter_entries(p, cs.drop_last(), bitrate, collapse) {
            None => None,
            Some(Err(e)) => Some(Err(e)),
            Some(Ok(es)) => {
                let c = cs.last();
                if !chapter_entry_ok(&c, p) {
                    None
                } else {
                    match spec_name_and_path_for_chapter(p, &c, collapse) {
                        Err(e) => Some(Err(e)),
                        Ok((name, path)) => Some(Ok(es.push(ChapterEntryV {
                            name,
                            path,
                            meta: AudioMeta { duration: ((c.end - c.start) / 1000) as u32, bitrate },
                            section: FileSection { start: c.start, duration: Some((c.end - c.start) as u64) },
                        }))),
                    }
                }
            },
        }
    }
}

/// The files into which the audio file `p` with bit rate `bitrate` is
/// split by its chapters; see `spec_chapter_entries`.
pub fn chapter_entries(p: &str, chapters: &Vec<Chapter>, bitrate: u32, collapse: bool) -> (r: Option<Result<Vec<ChapterEntry>, ChapterPathError>>)
    ensures
        match spec_chapter_entries(p@, chapters@, bitrate, collapse) {
            None => r is None,
            Some(Err(e)) => r == Some(Err::<Vec<ChapterEntry>, ChapterPathError>(e)),
            Some(Ok(es)) => r matches Some(Ok(v)) && entries_view(v@) == es,
        },
{
    let mut out: Vec<ChapterEntry> = Vec::new();
    let mut i: usize = 0;
    proof {
        assert(chapters@.take(0) =~= Seq::<Chapter>::empty());
        assert(entries_view(out@) =~= Seq::<ChapterEntryV>::empty());
    }
    while i < chapters.len()
        invariant
            i <= chapters.len(),
            spec_chapter_entries(p@, chapters@.take(i as int), bitrate, collapse) == Some(
                Ok::<Seq<ChapterEntryV>, ChapterPathError>(entries_view(out@)),
            ),
        decreases chapters.len() - i,
    {
        let c = &chapters[i];
        proof {
            assert(chapters@.take(i + 1).drop_last() =~= chapters@.take(i as int));
            assert(chapters@.take(i + 1).last() == chapters@[i as int]);
        }
        if c.end < c.start {
            proof {
                lemma_chapter_entries_none_stays(p@, chapters@, bitrate, collapse, (i + 1) as nat);
            }
            return None;
        }
        let named = match try_name_and_path_for_chapter(p, c, collapse) {
            None => {
                proof {
                    lemma_chapter_entries_none_stays(p@, chapters@, bitrate, collapse, (i + 1) as nat);
                }
                return None;
            },
            Some(x) => x,
        };
        match named {
            Err(e) => {
                proof {
                    lemma_chapter_entries_err_stays(p@, chapters@, bitrate, collapse, (i + 1) as nat);
                }
                return Some(Err(e));
            },
            Ok((name, path)) => {
                let span = c.end - c.start;
                let entry = ChapterEntry {
                    name,
                    path,
                    meta: AudioMeta { duration: #[verifier::truncate] ((span / 1000) as u32), bitrate },
                    section: FileSection { start: c.start, duration: Some(span) },
                };
                let ghost before = out@;
                out.push(entry);
                proof {
                    assert(out@.drop_last() =~= before);
                    assert(entries_view(out@) =~= entries_view(before).push(entry@));
                }
            },
        }
        i = i + 1;
    }
    proof {
        assert(chapters@.take(chapters.len() as int) =~= chapters@);
    }
    Some(Ok(out))
}

proof fn lemma_chapter_entries_none_stays(p: Seq<char>, cs: Seq<Chapter>, bitrate: u32, collapse: bool, n: nat)
    requires
        n <= cs.len(),
        spec_chapter_entries(p, cs.take(n as int), bitrate, collapse) is None,
    ensures
        spec_chapter_entries(p, cs, bitrate, collapse) is None,
    decreases cs.len() - n,
{
    if n < cs.len() {
        assert(cs.take((n + 1) as int).drop_last() =~= cs.take(n as int));
        lemma_chapter_entries_none_stays(p, cs, bitrate, collapse, n + 1);
    } else {
        assert(cs.take(n as int) =~= cs);
    }
}

proof fn lemma_chapter_entries_err_stays(p: Seq<char>, cs: Seq<Chapter>, bitrate: u32, collapse: bool, n: nat)
    requires
        n <= cs.len(),
        spec_chapter_entries(p, cs.take(n as int), bitrate, collapse) matches Some(Err(_)),
    ensures
        spec_chapter_entries(p, cs, bitrate, collapse) == spec_chapter_entries(p, cs.take(n as int), bitrate, collapse),
    decreases cs.len() - n,
{
    if n < cs.len() {
        assert(cs.take((n + 1) as int).drop_last() =~= cs.take(n as int));
        lemma_chapter_entries_err_stays(p, cs, bitrate, collapse, n + 1);
    } else {
        assert(cs.take(n as int) =~= cs);
    }
}

} // verus!
