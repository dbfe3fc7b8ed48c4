//! Paths and media types: the calls into `std::path` and `mime_guess` that
//! the rest of the library builds on, each with the name of its result.
use vstd::prelude::*;
use vstd::utf8::encode_utf8;

verus! {

/// What `Path::file_name` gives for a path: its last normal component.
pub uninterp spec fn spec_path_file_name(p: Seq<char>) -> Option<Seq<char>>;

/// What `Path::parent` gives for a path.
pub uninterp spec fn spec_path_parent(p: Seq<char>) -> Option<Seq<char>>;

/// What `Path::extension` gives for a path.
pub uninterp spec fn spec_path_extension(p: Seq<char>) -> Option<Seq<char>>;

/// What `Path::join` gives for two paths.
pub uninterp spec fn spec_path_join(base: Seq<char>, p: Seq<char>) -> Seq<char>;

/// What `Path::is_absolute` gives for a path.
pub uninterp spec fn spec_path_is_absolute(p: Seq<char>) -> bool;

/// A component of a path as `Path::components` yields it.
#[derive(Clone, Debug, PartialEq, Eq)]
pub enum PathComponent {
    /// a file or directory name
    Normal(String),
    /// a root, prefix, `.` or `..`
    Other,
}

pub enum PathComponentV {
    Normal(Seq<char>),
    Other,
}

impl View for PathComponent {
    type V = PathComponentV;

    open spec fn view(&self) -> PathComponentV {
        match self {
            PathComponent::Normal(s) => PathComponentV::Normal(s@),
            PathComponent::Other => PathComponentV::Other,
        }
    }
}

pub open spec fn components_view(cs: Seq<PathComponent>) -> Seq<PathComponentV> {
    cs.map_values(|c: PathComponent| c@)
}

/// What `Path::with_file_name` gives for a path and a file name.
pub uninterp spec fn spec_path_with_file_name(p: Seq<char>, name: Seq<char>) -> Seq<char>;

/// Calls `Path::with_file_name`.
#[verifier::external_body]
pub(crate) fn path_with_file_name(p: &str, name: &str) -> (r: String)
    ensures
        r@ == spec_path_with_file_name(p@, name@),
{
    std::path::Path::new(p).with_file_name(name).to_string_lossy().into_owned()
}

/// A character of the Unicode property `White_Space`.
pub open spec fn is_white_space(c: char) -> bool {
    let n = c as u32;
    (0x09 <= n && n <= 0x0d) || n == 0x20 || n == 0x85 || n == 0xa0 || n == 0x1680
        || (0x2000 <= n && n <= 0x200a) || n == 0x2028 || n == 0x2029 || n == 0x202f
        || n == 0x205f || n == 0x3000
}

/// `s` without its leading white space.
pub open spec fn trim_start(s: Seq<char>) -> Seq<char>
    decreases s.len(),
{
    if s.len() > 0 && is_white_space(s[0]) {
        trim_start(s.drop_first())
    } else {
        s
    }
}

/// `s` without its trailing white space.
pub open spec fn trim_end(s: Seq<char>) -> Seq<char>
    decreases s.len(),
{
    if s.len() > 0 && is_white_space(s.last()) {
        trim_end(s.drop_last())
    } else {
        s
    }
}

/// The string without leading and trailing white space.
pub open spec fn spec_trim(s: Seq<char>) -> Seq<char> {
    trim_end(trim_start(s))
}

/// Calls `str::trim`, which documents that it removes leading and trailing
/// characters of the Unicode property `White_Space`.
#[verifier::external_body]
pub(crate) fn str_trim(s: &str) -> (r: &str)
    ensures
        r@ == spec_trim(s@),
{
    s.trim()
}

/// What `Path::components` yields for a path.
pub uninterp spec fn spec_path_components(p: Seq<char>) -> Seq<PathComponentV>;

/// Calls `Path::file_name`. The name is a part of the path, so it is never
/// longer than the path; nothing more of its value is stated here.
#[verifier::external_body]
pub(crate) fn path_file_name(p: &str) -> (r: Option<String>)
    ensures
        match r {
            Some(n) => spec_path_file_name(p@) == Some(n@) && n@.len() <= p@.len()
                && encode_utf8(n@).len() <= encode_utf8(p@).len(),
            None => spec_path_file_name(p@) is None,
        },
{
    std::path::Path::new(p).file_name().map(|n| n.to_string_lossy().into_owned())
}

/// Calls `Path::parent`.
#[verifier::external_body]
pub(crate) fn path_parent(p: &str) -> (r: Option<String>)
    ensures
        match r {
            Some(n) => spec_path_parent(p@) == Some(n@),
            None => spec_path_parent(p@) is None,
        },
{
    std::path::Path::new(p).parent().map(|n| n.to_string_lossy().into_owned())
}

/// Calls `Path::extension`.
#[verifier::external_body]
pub(crate) fn path_extension(p: &str) -> (r: Option<String>)
    ensures
        match r {
            Some(n) => spec_path_extension(p@) == Some(n@),
            None => spec_path_extension(p@) is None,
        },
{
    std::path::Path::new(p).extension().map(|n| n.to_string_lossy().into_owned())
}

/// Calls `Path::join`.
#[verifier::external_body]
pub(crate) fn path_join(base: &str, p: &str) -> (r: String)
    ensures
        r@ == spec_path_join(base@, p@),
{
    std::path::Path::new(base).join(p).to_string_lossy().into_owned()
}

/// Calls `Path::is_absolute`.
#[verifier::external_body]
pub(crate) fn path_is_absolute(p: &str) -> (r: bool)
    ensures
        r == spec_path_is_absolute(p@),
{
    std::path::Path::new(p).is_absolute()
}

/// Calls `Path::components`, keeping the names of normal components.
#[verifier::external_body]
pub(crate) fn path_components(p: &str) -> (r: Vec<PathComponent>)
    ensures
        components_view(r@) == spec_path_components(p@),
{
    std::path::Path::new(p).components().map(|c| match c {
        std::path::Component::Normal(n) => PathComponent::Normal(n.to_string_lossy().into_owned()),
        _ => PathComponent::Other,
    }).collect()
}

/// A media type as `mime_guess` reports it.
#[derive(Clone, Debug, PartialEq, Eq)]
pub struct MimeType {
    /// the whole type, as `type/subtype`
    pub essence: String,
    /// the top-level type
    pub top: String,
    /// the subtype
    pub sub: String,
}

pub struct MimeTypeV {
    pub essence: Seq<char>,
    pub top: Seq<char>,
    pub sub: Seq<char>,
}

impl View for MimeType {
    type V = MimeTypeV;

    open spec fn view(&self) -> MimeTypeV {
        MimeTypeV { essence: self.essence@, top: self.top@, sub: self.sub@ }
    }
}

/// What `mime_guess::from_path(p).first_or_octet_stream()` gives for a path.
pub uninterp spec fn spec_guess_mime_type(p: Seq<char>) -> MimeTypeV;

/// Calls `mime_guess::from_path(p).first_or_octet_stream()`: the media type
/// that the extension of `p` suggests, `application/octet-stream` where none
/// is known. The table of extensions is not restated here.
#[verifier::external_body]
pub fn guess_mime_type(p: &str) -> (r: MimeType)
    ensures
        r@ == spec_guess_mime_type(p@),
{
    let m = mime_guess::from_path(p).first_or_octet_stream();
    MimeType {
        essence: m.as_ref().to_string(),
        top: m.type_().as_str().to_string(),
        sub: m.subtype().as_str().to_string(),
    }
}

/// Byte-wise equality.
pub fn bytes_equal(a: &[u8], b: &[u8]) -> (r: bool)
    ensures
        r == (a@ == b@),
{
    if a.len() != b.len() {
        return false;
    }
    let mut i: usize = 0;
    while i < a.len()
        invariant
            i <= a@.len(),
            a@.len() == b@.len(),
            forall|j: int| 0 <= j < i ==> a@[j] == b@[j],
        decreases a@.len() - i,
    {
        if a[i] != b[i] {
            return false;
        }
        i += 1;
    }
    proof {
        assert(a@ =~= b@);
    }
    true
}

/// Equality of the characters of two strings.
pub fn str_equal(a: &str, b: &str) -> (r: bool)
    ensures
        r == (a@ == b@),
{
    let r = bytes_equal(a.as_bytes(), b.as_bytes());
    proof {
        vstd::utf8::encode_utf8_decode_utf8(a@);
        vstd::utf8::encode_utf8_decode_utf8(b@);
    }
    r
}

/// A character with ASCII capitals made small.
pub open spec fn ascii_lower_char(c: char) -> char {
    if 'A' <= c && c <= 'Z' {
        ((c as u32) + 32) as char
    } else {
        c
    }
}

/// The string with ASCII capitals made small.
pub open spec fn spec_ascii_lowercase(s: Seq<char>) -> Seq<char> {
    s.map_values(|c: char| ascii_lower_char(c))
}

/// Calls `str::to_ascii_lowercase`, which documents that it maps `'A'..='Z'`
/// to `'a'..='z'` and leaves every other character as it is.
#[verifier::external_body]
pub(crate) fn ascii_lowercase(s: &str) -> (r: String)
    ensures
        r@ == spec_ascii_lowercase(s@),
{
    s.to_ascii_lowercase()
}

/// The parts of `s` between the separators `sep`, as `str::split` with a
/// character gives them: one more part than there are separators.
pub open spec fn split_on(s: Seq<char>, sep: char) -> Seq<Seq<char>>
    decreases s.len(),
{
    if s.len() == 0 {
        seq![Seq::<char>::empty()]
    } else {
        let prev = split_on(s.drop_last(), sep);
        if s.last() == sep {
            prev.push(Seq::<char>::empty())
        } else {
            prev.update(prev.len() - 1, prev.last().push(s.last()))
        }
    }
}

pub open spec fn string_views(v: Seq<String>) -> Seq<Seq<char>> {
    v.map_values(|x: String| x@)
}

/// Splits `s` at each `sep`.
pub fn split_char(s: &str, sep: char) -> (r: Vec<String>)
    ensures
        string_views(r@) == split_on(s@, sep),
{
    let n = s.unicode_len();
    let mut parts: Vec<String> = Vec::new();
    let mut seg: usize = 0;
    let mut i: usize = 0;
    proof {
        assert(string_views(parts@) =~= Seq::<Seq<char>>::empty());
        assert(s@.subrange(0, 0) =~= Seq::<char>::empty());
        assert(split_on(Seq::<char>::empty(), sep) == seq![Seq::<char>::empty()]);
        assert(string_views(parts@).push(s@.subrange(0, 0)) =~= seq![Seq::<char>::empty()]);
    }
    while i < n
        invariant
            n == s@.len(),
            seg <= i <= n,
            string_views(parts@).push(s@.subrange(seg as int, i as int)) == split_on(s@.subrange(0, i as int), sep),
        decreases n - i,
    {
        let c = s.get_char(i);
        proof {
            assert(s@.subrange(0, i + 1).drop_last() =~= s@.subrange(0, i as int));
            assert(s@.subrange(0, i + 1).last() == c);
        }
        if c == sep {
            let part = s.substring_char(seg, i).to_owned();
            let ghost before = string_views(parts@);
            parts.push(part);
            proof {
                assert(string_views(parts@) =~= before.push(s@.subrange(seg as int, i as int)));
                assert(s@.subrange(i + 1, i + 1) =~= Seq::<char>::empty());
            }
            seg = i + 1;
        } else {
            proof {
                assert(s@.subrange(seg as int, i + 1) =~= s@.subrange(seg as int, i as int).push(c));
            }
        }
        i = i + 1;
    }
    let last = s.substring_char(seg, n).to_owned();
    parts.push(last);
    proof {
        assert(s@.subrange(0, n as int) =~= s@);
        assert(string_views(parts@) =~= string_views(parts@.drop_last()).push(last@));
    }
    parts
}

/// `a` is no later than `b`, each a time since the Unix epoch as whole
/// seconds and the nanoseconds past them.
pub open spec fn mod_time_le(a: (u64, u32), b: (u64, u32)) -> bool {
    a.0 < b.0 || (a.0 == b.0 && a.1 <= b.1)
}

/// The modification time to rely on for a path that may be a symbolic link,
/// from the time read from the link itself and the one read from its target:
/// the later of the two, or `None` when either could not be read.
pub fn get_modified(link_time: Option<(u64, u32)>, target_time: Option<(u64, u32)>) -> (r: Option<(u64, u32)>)
    ensures
        match (link_time, target_time) {
            (Some(a), Some(b)) => r == Some(if mod_time_le(a, b) { b } else { a }),
            _ => r is None,
        },
{
    match (link_time, target_time) {
        (Some(a), Some(b)) => {
            if a.0 < b.0 || (a.0 == b.0 && a.1 <= b.1) {
                Some(b)
            } else {
                Some(a)
            }
        },
        _ => None,
    }
}

} // verus!
