//! The media description of a collection: time stamps, typed files, audio
//! metadata, chapters, and which files count as audio, cover or description.
use vstd::prelude::*;
use crate::util::{guess_mime_type, spec_guess_mime_type, str_equal};

verus! {

/// Milliseconds since the start of the Unix epoch.
#[derive(Clone, Copy, Debug, PartialEq, Eq, PartialOrd, Ord, Hash, Structural)]
pub struct TimeStamp(pub u64);

/// What `t.duration_since(SystemTime::UNIX_EPOCH)` and then
/// `Duration::as_millis` give: the whole milliseconds from the Unix epoch
/// to `t`, with 0 standing for a time before the epoch (where
/// `duration_since` fails).
pub uninterp spec fn spec_millis_since_epoch(t: std::time::SystemTime) -> nat;

/// Milliseconds from the Unix epoch to `t`, 0 for a time before it, cut to
/// 64 bits as `as u64` does.
#[verifier::external_body]
fn millis_since_epoch(t: std::time::SystemTime) -> (r: u64)
    ensures
        r == spec_millis_since_epoch(t) % 0x1_0000_0000_0000_0000,
{
    t.duration_since(std::time::SystemTime::UNIX_EPOCH).map(|d| d.as_millis()).unwrap_or(0) as u64
}

#[verifier::external_type_specification]
#[verifier::external_body]
pub struct ExSystemTime(std::time::SystemTime);

impl TimeStamp {
    /// The time stamp of `n` milliseconds.
    pub fn from_millis(n: u64) -> (r: TimeStamp)
        ensures
            r.0 == n,
    {
        TimeStamp(n)
    }

    /// The time stamp of a system time: its milliseconds from the Unix
    /// epoch, cut to 64 bits.
    pub fn from_system_time(t: std::time::SystemTime) -> (r: TimeStamp)
        ensures
            r.0 == spec_millis_since_epoch(t) % 0x1_0000_0000_0000_0000,
    {
        TimeStamp(millis_since_epoch(t))
    }

    /// The time stamp of a time given as whole seconds and nanoseconds since
    /// the epoch: the nanoseconds count in whole milliseconds.
    pub fn from_secs_nanos(secs: u64, nanos: u64) -> (r: TimeStamp)
        requires
            secs * 1000 + nanos / 1_000_000 <= u64::MAX,
        ensures
            r.0 == secs * 1000 + nanos / 1_000_000,
    {
        TimeStamp(secs * 1000 + nanos / 1_000_000)
    }

    /// The milliseconds.
    pub fn as_millis(&self) -> (r: u64)
        ensures
            r == self.0,
    {
        self.0
    }

    /// Whether `self` is earlier than `other`.
    pub fn is_before(&self, other: &TimeStamp) -> (r: bool)
        ensures
            r == (self.0 < other.0),
    {
        self.0 < other.0
    }
}

impl From<u64> for TimeStamp {
    fn from(n: u64) -> (r: TimeStamp) {
        TimeStamp(n)
    }
}

impl vstd::std_specs::convert::FromSpecImpl<u64> for TimeStamp {
    open spec fn obeys_from_spec() -> bool {
        true
    }

    open spec fn from_spec(v: u64) -> TimeStamp {
        TimeStamp(v)
    }
}

/// A file with its media type.
#[derive(Clone, Debug, PartialEq, Eq)]
pub struct TypedFile {
    pub path: String,
    pub mime: String,
}

impl TypedFile {
    /// The file at `path` with the media type its extension suggests.
    pub fn new(path: &str) -> (r: TypedFile)
        ensures
            r.path@ == path@,
            r.mime@ == spec_guess_mime_type(path@).essence,
    {
        let mime = guess_mime_type(path);
        TypedFile { path: path.to_owned(), mime: mime.essence }
    }
}

/// A part of a file: a start and maybe a duration, in milliseconds.
#[derive(Clone, Copy, Debug, PartialEq, Eq)]
pub struct FileSection {
    pub start: u64,
    pub duration: Option<u64>,
}

/// How the subfolders of a folder are ordered.
#[derive(Clone, Copy, Debug, PartialEq, Eq)]
pub enum FoldersOrdering {
    Alphabetical,
    RecentFirst,
}

impl FoldersOrdering {
    /// `"m"` asks for the most recent first; any other letter for names.
    pub fn from_letter(l: &str) -> (r: FoldersOrdering)
        ensures
            r == (if l@ == seq!['m'] {
                FoldersOrdering::RecentFirst
            } else {
                FoldersOrdering::Alphabetical
            }),
    {
        if l.unicode_len() == 1 && l.get_char(0) == 'm' {
            proof {
                assert(l@ =~= seq!['m']);
            }
            FoldersOrdering::RecentFirst
        } else {
            FoldersOrdering::Alphabetical
        }
    }
}

/// Duration in seconds and bitrate in kB/s of an audio file.
#[derive(Clone, Copy, Debug, PartialEq, Eq)]
pub struct AudioMeta {
    pub duration: u32,
    pub bitrate: u32,
}

/// A start and maybe a duration, in milliseconds.
#[derive(Clone, Copy, Debug, PartialEq, Eq)]
pub struct TimeSpan {
    pub start: u64,
    pub duration: Option<u64>,
}

/// The decimal digits of `n`.
pub open spec fn decimal(n: nat) -> Seq<char>
    decreases n,
{
    if n < 10 {
        seq![digit_char(n)]
    } else {
        decimal(n / 10).push(digit_char(n % 10))
    }
}

pub open spec fn digit_char(d: nat) -> char {
    if d == 0 {
        '0'
    } else if d == 1 {
        '1'
    } else if d == 2 {
        '2'
    } else if d == 3 {
        '3'
    } else if d == 4 {
        '4'
    } else if d == 5 {
        '5'
    } else if d == 6 {
        '6'
    } else if d == 7 {
        '7'
    } else if d == 8 {
        '8'
    } else {
        '9'
    }
}

/// `u64::to_string`: the decimal digits of `n`, most significant first,
/// with no sign and no leading zeros.
#[verifier::external_body]
pub(crate) fn u64_to_string(n: u64) -> (r: String)
    ensures
        r@ == decimal(n as nat),
{
    n.to_string()
}

impl TimeSpan {
    /// `start-duration`, or `start` where there is no duration.
    pub open spec fn spec_to_text(&self) -> Seq<char> {
        match self.duration {
            Some(d) => decimal(self.start as nat) + seq!['-'] + decimal(d as nat),
            None => decimal(self.start as nat),
        }
    }

    /// The text form of the span.
    pub fn to_text(&self) -> (r: String)
        ensures
            r@ == self.spec_to_text(),
    {
        let mut s = u64_to_string(self.start);
        match self.duration {
            Some(d) => {
                s.append("-");
                s.append(u64_to_string(d).as_str());
                proof {
                    reveal_strlit("-");
        assert("-"@ =~= seq!['-']);
                }
            },
            None => {},
        }
        s
    }
}

/// A chapter of an audio file: times in milliseconds.
#[derive(Clone, Debug, PartialEq, Eq)]
pub struct Chapter {
    pub number: u32,
    pub title: String,
    pub start: u64,
    pub end: u64,
}

/// Access to the metadata of a media file, whichever library reads it.
pub trait MediaInfo {
    fn get_audio_info(&self) -> Option<AudioMeta>;

    fn get_chapters(&self) -> Option<Vec<Chapter>>;

    fn has_chapters(&self) -> bool;
}

/// The audio subtypes of a collection: ogg, mpeg, aac, m4a, m4b,
/// x-matroska, flac, webm.
pub open spec fn is_audio_subtype(s: Seq<char>) -> bool {
    s == seq!['o', 'g', 'g'] || s == seq!['m', 'p', 'e', 'g'] || s == seq!['a', 'a', 'c'] || s
        == seq!['m', '4', 'a'] || s == seq!['m', '4', 'b'] || s == seq![
        'x',
        '-',
        'm',
        'a',
        't',
        'r',
        'o',
        's',
        'k',
        'a',
    ] || s == seq!['f', 'l', 'a', 'c'] || s == seq!['w', 'e', 'b', 'm']
}

/// The cover subtypes: jpeg, png.
pub open spec fn is_cover_subtype(s: Seq<char>) -> bool {
    s == seq!['j', 'p', 'e', 'g'] || s == seq!['p', 'n', 'g']
}

/// The description subtypes: html, plain, markdown.
pub open spec fn is_description_subtype(s: Seq<char>) -> bool {
    s == seq!['h', 't', 'm', 'l'] || s == seq!['p', 'l', 'a', 'i', 'n'] || s == seq![
        'm',
        'a',
        'r',
        'k',
        'd',
        'o',
        'w',
        'n',
    ]
}

pub open spec fn spec_is_audio(path: Seq<char>) -> bool {
    spec_guess_mime_type(path).top == seq!['a', 'u', 'd', 'i', 'o'] && is_audio_subtype(
        spec_guess_mime_type(path).sub,
    )
}

pub open spec fn spec_is_cover(path: Seq<char>) -> bool {
    spec_guess_mime_type(path).top == seq!['i', 'm', 'a', 'g', 'e'] && is_cover_subtype(
        spec_guess_mime_type(path).sub,
    )
}

pub open spec fn spec_is_description(path: Seq<char>) -> bool {
    spec_guess_mime_type(path).top == seq!['t', 'e', 'x', 't'] && is_description_subtype(
        spec_guess_mime_type(path).sub,
    )
}

/// Whether `path` names an audio file.
pub fn is_audio(path: &str) -> (r: bool)
    ensures
        r == spec_is_audio(path@),
{
    let m = guess_mime_type(path);
    let sub = m.sub.as_str();
    proof {
        reveal_strlit("audio");
        assert("audio"@ =~= seq!['a', 'u', 'd', 'i', 'o']);
        reveal_strlit("ogg");
        assert("ogg"@ =~= seq!['o', 'g', 'g']);
        reveal_strlit("mpeg");
        assert("mpeg"@ =~= seq!['m', 'p', 'e', 'g']);
        reveal_strlit("aac");
        assert("aac"@ =~= seq!['a', 'a', 'c']);
        reveal_strlit("m4a");
        assert("m4a"@ =~= seq!['m', '4', 'a']);
        reveal_strlit("m4b");
        assert("m4b"@ =~= seq!['m', '4', 'b']);
        reveal_strlit("x-matroska");
        assert("x-matroska"@ =~= seq!['x', '-', 'm', 'a', 't', 'r', 'o', 's', 'k', 'a']);
        reveal_strlit("flac");
        assert("flac"@ =~= seq!['f', 'l', 'a', 'c']);
        reveal_strlit("webm");
        assert("webm"@ =~= seq!['w', 'e', 'b', 'm']);
    }
    str_equal(m.top.as_str(), "audio") && (str_equal(sub, "ogg") || str_equal(sub, "mpeg")
        || str_equal(sub, "aac") || str_equal(sub, "m4a") || str_equal(sub, "m4b") || str_equal(
        sub,
        "x-matroska",
    ) || str_equal(sub, "flac") || str_equal(sub, "webm"))
}

/// Whether `path` names a cover image.
pub fn is_cover(path: &str) -> (r: bool)
    ensures
        r == spec_is_cover(path@),
{
    let m = guess_mime_type(path);
    let sub = m.sub.as_str();
    proof {
        reveal_strlit("image");
        assert("image"@ =~= seq!['i', 'm', 'a', 'g', 'e']);
        reveal_strlit("jpeg");
        assert("jpeg"@ =~= seq!['j', 'p', 'e', 'g']);
        reveal_strlit("png");
        assert("png"@ =~= seq!['p', 'n', 'g']);
    }
    str_equal(m.top.as_str(), "image") && (str_equal(sub, "jpeg") || str_equal(sub, "png"))
}

/// Whether `path` names a description text.
pub fn is_description(path: &str) -> (r: bool)
    ensures
        r == spec_is_description(path@),
{
    let m = guess_mime_type(path);
    let sub = m.sub.as_str();
    proof {
        reveal_strlit("text");
        assert("text"@ =~= seq!['t', 'e', 'x', 't']);
        reveal_strlit("html");
        assert("html"@ =~= seq!['h', 't', 'm', 'l']);
        reveal_strlit("plain");
        assert("plain"@ =~= seq!['p', 'l', 'a', 'i', 'n']);
        reveal_strlit("markdown");
        assert("markdown"@ =~= seq!['m', 'a', 'r', 'k', 'd', 'o', 'w', 'n']);
    }
    str_equal(m.top.as_str(), "text") && (str_equal(sub, "html") || str_equal(sub, "plain")
        || str_equal(sub, "markdown"))
}

/// Metadata of an audio file as the listing needs it.
#[derive(Debug)]
pub struct FullAudioMeta {
    pub chapters: Vec<Chapter>,
    pub audio_meta: AudioMeta,
    pub has_cover: bool,
    pub has_description: bool,
}

/// What a directory entry is for the collection.
pub enum DirType {
    /// an audio file shown as a folder of chapters
    File(FullAudioMeta),
    Dir,
    Other,
}

/// A file is audio exactly where its guessed media type is `audio/s` with
/// `s` one of the audio subtypes of a collection: ogg, mpeg, aac, m4a, m4b,
/// x-matroska, flac, webm; a cover exactly where it is `image/jpeg` or
/// `image/png`; a description exactly where it is `text/html`,
/// `text/plain` or `text/markdown`.
pub proof fn lemma_file_kinds(path: Seq<char>)
    ensures
        spec_is_audio(path) <==> {
            let m = spec_guess_mime_type(path);
            &&& m.top == "audio"@
            &&& (m.sub == "ogg"@ || m.sub == "mpeg"@ || m.sub == "aac"@ || m.sub == "m4a"@
                || m.sub == "m4b"@ || m.sub == "x-matroska"@ || m.sub == "flac"@ || m.sub == "webm"@)
        },
        spec_is_cover(path) <==> {
            let m = spec_guess_mime_type(path);
            m.top == "image"@ && (m.sub == "jpeg"@ || m.sub == "png"@)
        },
        spec_is_description(path) <==> {
            let m = spec_guess_mime_type(path);
            m.top == "text"@ && (m.sub == "html"@ || m.sub == "plain"@ || m.sub == "markdown"@)
        },
{
    reveal_strlit("audio");
    reveal_strlit("ogg");
    reveal_strlit("mpeg");
    reveal_strlit("aac");
    reveal_strlit("m4a");
    reveal_strlit("m4b");
    reveal_strlit("x-matroska");
    reveal_strlit("flac");
    reveal_strlit("webm");
    reveal_strlit("image");
    reveal_strlit("jpeg");
    reveal_strlit("png");
    reveal_strlit("text");
    reveal_strlit("html");
    reveal_strlit("plain");
    reveal_strlit("markdown");
    assert("audio"@ =~= seq!['a', 'u', 'd', 'i', 'o']);
    assert("ogg"@ =~= seq!['o', 'g', 'g']);
    assert("mpeg"@ =~= seq!['m', 'p', 'e', 'g']);
    assert("aac"@ =~= seq!['a', 'a', 'c']);
    assert("m4a"@ =~= seq!['m', '4', 'a']);
    assert("m4b"@ =~= seq!['m', '4', 'b']);
    assert("x-matroska"@ =~= seq!['x', '-', 'm', 'a', 't', 'r', 'o', 's', 'k', 'a']);
    assert("flac"@ =~= seq!['f', 'l', 'a', 'c']);
    assert("webm"@ =~= seq!['w', 'e', 'b', 'm']);
    assert("image"@ =~= seq!['i', 'm', 'a', 'g', 'e']);
    assert("jpeg"@ =~= seq!['j', 'p', 'e', 'g']);
    assert("png"@ =~= seq!['p', 'n', 'g']);
    assert("text"@ =~= seq!['t', 'e', 'x', 't']);
    assert("html"@ =~= seq!['h', 't', 'm', 'l']);
    assert("plain"@ =~= seq!['p', 'l', 'a', 'i', 'n']);
    assert("markdown"@ =~= seq!['m', 'a', 'r', 'k', 'd', 'o', 'w', 'n']);
}

} // verus!
