//! The arithmetic and codes of the media library binding: time stamps in a
//! stream's time base converted to milliseconds, the library's return
//! codes, stream kinds and chapter titles.
use vstd::prelude::*;
use crate::audio_meta::decimal;

verus! {

/// An error of the media library.
#[derive(Clone, Debug, PartialEq, Eq)]
pub enum MediaError {
    /// the library returned this error code
    AVError(i32),
    /// memory could not be allocated
    AllocationError,
    /// a text is not UTF-8
    InvalidString,
    /// an encoding name is not known
    InvalidEncoding(String),
}

/// A library return code as a result: 0 is success.
pub fn check_ret(res: i32) -> (r: Result<(), MediaError>)
    ensures
        res == 0 ==> r is Ok,
        res != 0 ==> r == Err::<(), MediaError>(MediaError::AVError(res)),
{
    if res == 0 {
        Ok(())
    } else {
        Err(MediaError::AVError(res))
    }
}

/// `v as u64` for an `i32`: its value modulo 2^64.
pub open spec fn i32_as_u64(v: i32) -> int {
    if v >= 0 { v as int } else { v + 18446744073709551616 }
}

/// Whether `norm_time` can compute without failing: the time is not
/// negative, the products fit in `u64`, and the denominator is not zero.
pub open spec fn norm_time_ok(t: i64, num: i32, den: i32) -> bool {
    &&& t >= 0
    &&& t * 1000 <= u64::MAX
    &&& t * 1000 * i32_as_u64(num) <= u64::MAX
    &&& den != 0
}

/// A time `t` in units of `num/den` seconds, in milliseconds (rounded down).
pub open spec fn spec_norm_time(t: i64, num: i32, den: i32) -> int {
    (t * 1000 * i32_as_u64(num)) / i32_as_u64(den)
}

fn i32_to_u64(v: i32) -> (r: u64)
    ensures
        r == i32_as_u64(v),
{
    if v >= 0 {
        v as u64
    } else {
        let w: i64 = v as i64;
        (18446744073709551615u64 - ((-1 - w) as u64))
    }
}

/// Converts a time in a stream's time base `num/den` to milliseconds.
pub fn norm_time(t: i64, num: i32, den: i32) -> (r: u64)
    requires
        norm_time_ok(t, num, den),
    ensures
        r == spec_norm_time(t, num, den),
{
    let a: u64 = (t as u64) * 1000;
    let b: u64 = a * i32_to_u64(num);
    b / i32_to_u64(den)
}

/// The duration of a media file in ms from the library's duration in µs:
/// rounded toward zero, and 0 where negative.
pub open spec fn spec_duration_ms(raw: i64) -> u64 {
    let d = if raw >= 0 { raw / 1000 } else { -((-raw) / 1000) };
    if d < 0 { 0 } else { d as u64 }
}

/// The duration in ms.
pub fn duration_ms(raw: i64) -> (r: u64)
    ensures
        r == spec_duration_ms(raw),
{
    let d: i64 = if raw >= 0 {
        raw / 1000
    } else if raw == i64::MIN {
        -9223372036854775i64
    } else {
        -((-raw) / 1000)
    };
    if d < 0 { 0 } else { d as u64 }
}

/// The bit rate in kbps from the library's bit rate in bps: rounded toward
/// zero, 0 where negative, and cut to 32 bits.
pub open spec fn spec_bitrate_kbps(raw: i64) -> u32 {
    let b = if raw >= 0 { raw / 1000 } else { -((-raw) / 1000) };
    if b < 0 { 0 } else { (b % 4294967296) as u32 }
}

/// The bit rate in kbps.
pub fn bitrate_kbps(raw: i64) -> (r: u32)
    ensures
        r == spec_bitrate_kbps(raw),
{
    let b: i64 = if raw >= 0 {
        raw / 1000
    } else if raw == i64::MIN {
        -9223372036854775i64
    } else {
        -((-raw) / 1000)
    };
    if b < 0 { 0 } else { (b % 4294967296) as u32 }
}

/// The kind of a stream of a media file.
#[derive(Clone, Copy, Debug, PartialEq, Eq, Structural)]
pub enum StreamKind {
    AUDIO,
    VIDEO,
    DATA,
    SUBTITLE,
    ATTACHMENT,
    UNKNOWN,
}

/// The kind of a stream from the library's media type code: video 0, audio
/// 1, data 2, subtitle 3, attachment 4, anything else unknown.
pub open spec fn spec_stream_kind(codec_type: i32) -> StreamKind {
    if codec_type == 0 {
        StreamKind::VIDEO
    } else if codec_type == 1 {
        StreamKind::AUDIO
    } else if codec_type == 2 {
        StreamKind::DATA
    } else if codec_type == 3 {
        StreamKind::SUBTITLE
    } else if codec_type == 4 {
        StreamKind::ATTACHMENT
    } else {
        StreamKind::UNKNOWN
    }
}

impl StreamKind {
    /// The kind of a stream.
    pub fn from_codec_type(codec_type: i32) -> (r: StreamKind)
        ensures
            r == spec_stream_kind(codec_type),
    {
        if codec_type == 0 {
            StreamKind::VIDEO
        } else if codec_type == 1 {
            StreamKind::AUDIO
        } else if codec_type == 2 {
            StreamKind::DATA
        } else if codec_type == 3 {
            StreamKind::SUBTITLE
        } else if codec_type == 4 {
            StreamKind::ATTACHMENT
        } else {
            StreamKind::UNKNOWN
        }
    }
}

/// A chapter as the media library reports it: times in ms.
#[derive(Debug, Clone)]
pub struct Chapter {
    pub title: String,
    pub num: i32,
    pub start: u64,
    pub end: u64,
}

/// The decimal text of an `i64`, with a minus sign where negative.
pub open spec fn i64_text(n: i64) -> Seq<char> {
    if n < 0 {
        seq!['-'] + decimal((-n) as nat)
    } else {
        decimal(n as nat)
    }
}

/// Calls `i64::to_string`, which writes the number in decimal with a minus
/// sign where it is negative.
#[verifier::external_body]
fn i64_to_string(n: i64) -> (r: String)
    ensures
        r@ == i64_text(n),
{
    n.to_string()
}

/// The title of a chapter: its title tag, or `Chapter n` without one.
pub fn chapter_title(title_tag: Option<String>, num: i64) -> (r: String)
    ensures
        r@ == match title_tag {
            Some(t) => t@,
            None => seq!['C', 'h', 'a', 'p', 't', 'e', 'r', ' '] + i64_text(num),
        },
{
    match title_tag {
        Some(t) => t,
        None => {
            let mut s = "Chapter ".to_owned();
            s.append(i64_to_string(num).as_str());
            proof {
                reveal_strlit("Chapter ");
                assert("Chapter "@ =~= seq!['C', 'h', 'a', 'p', 't', 'e', 'r', ' ']);
            }
            s
        },
    }
}

/// A chapter from the library's chapter id, title tag and times in the
/// time base `num/den`.
pub fn make_chapter(id: i64, title_tag: Option<String>, start: i64, end: i64, num: i32, den: i32) -> (r: Chapter)
    requires
        norm_time_ok(start, num, den),
        norm_time_ok(end, num, den),
    ensures
        r.num == (if i32::MIN <= id <= i32::MAX { id as i32 } else { i32::MAX }),
        r.title@ == match title_tag {
            Some(t) => t@,
            None => seq!['C', 'h', 'a', 'p', 't', 'e', 'r', ' '] + i64_text(id),
        },
        r.start == spec_norm_time(start, num, den),
        r.end == spec_norm_time(end, num, den),
{
    let n: i32 = if id >= -2147483648 && id <= 2147483647 { id as i32 } else { 2147483647 };
    let title = chapter_title(title_tag, id);
    Chapter { title, num: n, start: norm_time(start, num, den), end: norm_time(end, num, den) }
}

} // verus!
