//! The request side of the HTTP server: which encodings a client accepts,
//! the query parameters, the request path, cross-origin checks, and the
//! framing bytes of a gzip stream.
use vstd::prelude::*;
use crate::options::tag_of;
use crate::util::{
    ascii_lowercase, spec_ascii_lowercase, split_char, split_on, str_equal, str_trim, string_views,
};
use crate::zip::le32;
use crate::header_parser::str_from_utf8;
use vstd::utf8::{decode_utf8, valid_utf8};

verus! {

// ---------------------------------------------------------------------
// compression

/// Responses below this many bytes are not worth compressing.
pub const COMPRESSION_LIMIT: u64 = 512;

/// Whether a body of `size` bytes is worth compressing.
pub fn make_sense_to_compress(size: u64) -> (r: bool)
    ensures
        r == (size >= COMPRESSION_LIMIT),
{
    size >= COMPRESSION_LIMIT
}

/// What flate2's `GzEncoder` writes for `data` at the default compression
/// level: a gzip stream, with a zero modification time and 255 as its system
/// byte.
pub uninterp spec fn spec_gzip_default(data: Seq<u8>) -> Seq<u8>;

/// Compresses `data` into a gzip stream with flate2's `GzEncoder` at the
/// default level. The result is stated as the named result of that encoder;
/// that it is a valid gzip stream of `data` is not stated.
#[verifier::external_body]
pub fn compress_buf(data: &[u8]) -> (r: Vec<u8>)
    ensures
        r@ == spec_gzip_default(data@),
{
    let mut writer = flate2::write::GzEncoder::new(Vec::new(), flate2::Compression::default());
    std::io::Write::write_all(&mut writer, data).expect("writing to memory");
    writer.finish().expect("writing to memory")
}

/// The body of a compressed response to `data` and the length to announce
/// for it.
pub fn compressed_body(data: &[u8]) -> (r: (Vec<u8>, u64))
    ensures
        r.0@ == spec_gzip_default(data@),
        r.1 == r.0@.len(),
{
    let out = compress_buf(data);
    let size = out.len() as u64;
    (out, size)
}

/// A buffer of `chunk_size` zero bytes.
pub fn create_output_buffer(chunk_size: usize) -> (r: Vec<u8>)
    ensures
        r@ == Seq::new(chunk_size as nat, |i: int| 0u8),
{
    let mut v: Vec<u8> = Vec::new();
    let mut i: usize = 0;
    while i < chunk_size
        invariant
            i <= chunk_size,
            v@ == Seq::new(i as nat, |k: int| 0u8),
        decreases chunk_size - i,
    {
        v.push(0u8);
        i = i + 1;
        assert(v@ =~= Seq::new(i as nat, |k: int| 0u8));
    }
    v
}

/// The compression level of `flate2::Compression::best`.
pub const BEST_LEVEL: u32 = 9;

/// The compression level of `flate2::Compression::fast`.
pub const FAST_LEVEL: u32 = 1;

/// The extra-flags byte of a gzip header: 2 for the best compression, 4 for
/// the fastest, else 0.
pub open spec fn gzip_xfl(level: u32) -> u8 {
    if level >= BEST_LEVEL {
        2
    } else if level <= FAST_LEVEL {
        4
    } else {
        0
    }
}

/// The ten bytes of a gzip header (RFC 1952) for deflate data compressed at
/// `level`, modified at `mtime` seconds of the Unix epoch, from an unknown
/// operating system.
pub open spec fn spec_gzip_header(mtime: u32, level: u32) -> Seq<u8> {
    seq![0x1fu8, 0x8b, 8, 0] + le32(mtime) + seq![gzip_xfl(level), 255u8]
}

/// The gzip header.
pub fn gzip_header(mtime: u32, level: u32) -> (r: Vec<u8>)
    ensures
        r@ == spec_gzip_header(mtime, level),
{
    let xfl: u8 = if level >= BEST_LEVEL {
        2
    } else if level <= FAST_LEVEL {
        4
    } else {
        0
    };
    let r = vec![
        0x1fu8,
        0x8b,
        8,
        0,
        (mtime % 256) as u8,
        ((mtime / 256) % 256) as u8,
        ((mtime / 65536) % 256) as u8,
        (mtime / 16777216) as u8,
        xfl,
        255,
    ];
    assert(r@ =~= spec_gzip_header(mtime, level));
    r
}

/// The eight bytes that end a gzip stream: the CRC-32 of the data and its
/// length modulo 2^32, each least significant byte first.
pub open spec fn spec_crc_footer(sum: u32, amount: u32) -> Seq<u8> {
    le32(sum) + le32(amount)
}

/// The gzip footer.
pub fn crc_footer(sum: u32, amount: u32) -> (r: Vec<u8>)
    ensures
        r@ == spec_crc_footer(sum, amount),
{
    let r = vec![
        (sum % 256) as u8,
        ((sum / 256) % 256) as u8,
        ((sum / 65536) % 256) as u8,
        (sum / 16777216) as u8,
        (amount % 256) as u8,
        ((amount / 256) % 256) as u8,
        ((amount / 65536) % 256) as u8,
        (amount / 16777216) as u8,
    ];
    assert(r@ =~= spec_crc_footer(sum, amount));
    r
}

// ---------------------------------------------------------------------
// header values

/// A byte that `http::HeaderValue::to_str` accepts: visible ASCII or a tab.
pub open spec fn is_visible_ascii(b: u8) -> bool {
    (b >= 32 && b < 127) || b == 9
}

/// The text of a header value, where all its bytes are visible ASCII, as
/// `http::HeaderValue::to_str` gives it.
pub open spec fn spec_header_text(bytes: Seq<u8>) -> Option<Seq<char>> {
    if forall|i: int| 0 <= i < bytes.len() ==> is_visible_ascii(#[trigger] bytes[i]) {
        Some(decode_utf8(bytes))
    } else {
        None
    }
}

proof fn lemma_ascii_is_utf8(bytes: Seq<u8>)
    requires
        forall|i: int| 0 <= i < bytes.len() ==> bytes[i] < 128,
    ensures
        valid_utf8(bytes),
    decreases bytes.len(),
{
    assert(bytes.subrange(0, 0) =~= Seq::<u8>::empty());
    assert(vstd::utf8::partial_valid_utf8(bytes, 0));
    assert forall|i: int| 0 <= i < bytes.len() implies #[trigger] vstd::utf8::is_leading_byte_width_1(bytes[i]) by {
        assert(bytes[i] < 128);
    };
    vstd::utf8::partial_valid_utf8_extend_ascii_block(bytes, 0, bytes.len() as int);
    assert(bytes.subrange(0, bytes.len() as int) =~= bytes);
}

/// The text of a header value.
pub fn header_text(bytes: &[u8]) -> (r: Option<&str>)
    ensures
        match spec_header_text(bytes@) {
            Some(t) => r matches Some(s) && s@ == t,
            None => r is None,
        },
{
    let mut i: usize = 0;
    while i < bytes.len()
        invariant
            i <= bytes@.len(),
            forall|k: int| 0 <= k < i ==> is_visible_ascii(#[trigger] bytes@[k]),
        decreases bytes@.len() - i,
    {
        let b = bytes[i];
        if !((b >= 32 && b < 127) || b == 9) {
            return None;
        }
        i = i + 1;
    }
    proof {
        assert forall|k: int| 0 <= k < bytes@.len() implies bytes@[k] < 128 by {
            assert(is_visible_ascii(bytes@[k]));
        };
        lemma_ascii_is_utf8(bytes@);
    }
    str_from_utf8(bytes)
}

/// The value of an `Accept-Encoding` header, as its bytes.
pub struct AcceptEncoding {
    pub value: Vec<u8>,
}

/// Whether a header value lists `encoding`: one of its comma-separated
/// parts, trimmed and in small letters, is `encoding`.
pub open spec fn spec_accepts(value: Seq<u8>, encoding: Seq<char>) -> bool {
    match spec_header_text(value) {
        Some(t) => lists_encoding(t, encoding),
        None => false,
    }
}

/// Whether one of the comma-separated parts of `t`, trimmed and in small
/// letters, is `encoding`.
pub open spec fn lists_encoding(t: Seq<char>, encoding: Seq<char>) -> bool {
    exists|i: int| 0 <= i < split_on(t, ',').len() && tag_of(#[trigger] split_on(t, ',')[i]) == encoding
}

impl AcceptEncoding {
    /// Whether the client accepts `encoding`.
    pub fn accepts(&self, encoding: &str) -> (r: bool)
        ensures
            r == spec_accepts(self.value@, encoding@),
    {
        let text = match header_text(self.value.as_slice()) {
            Some(t) => t,
            None => return false,
        };
        let parts = split_char(text, ',');
        let mut i: usize = 0;
        while i < parts.len()
            invariant
                i <= parts@.len(),
                spec_header_text(self.value@) == Some(text@),
                string_views(parts@) == split_on(text@, ','),
                forall|k: int| 0 <= k < i ==> tag_of(#[trigger] split_on(text@, ',')[k]) != encoding@,
            decreases parts@.len() - i,
        {
            let t = ascii_lowercase(str_trim(parts[i].as_str()));
            assert(string_views(parts@)[i as int] == parts@[i as int]@);
            if str_equal(t.as_str(), encoding) {
                assert(tag_of(split_on(text@, ',')[i as int]) == encoding@);
                assert(lists_encoding(text@, encoding@));
                return true;
            }
            i = i + 1;
        }
        false
    }
}

// ---------------------------------------------------------------------
// query parameters

/// What `form_urlencoded::parse` yields for a query: its name and value
/// pairs in order, decoded.
pub uninterp spec fn spec_query_pairs(query: Seq<char>) -> Seq<(Seq<char>, Seq<char>)>;

/// Calls `form_urlencoded::parse` on the bytes of a query and collects the
/// pairs as strings. The pairs are named by `spec_query_pairs`.
#[verifier::external_body]
fn parse_query(query: &str) -> (r: Vec<(String, String)>)
    ensures
        r@.map_values(|p: (String, String)| (p.0@, p.1@)) == spec_query_pairs(query@),
{
    url::form_urlencoded::parse(query.as_bytes()).map(|(k, v)| (k.into_owned(), v.into_owned())).collect()
}

pub open spec fn pairs_view(v: Seq<(String, String)>) -> Seq<(Seq<char>, Seq<char>)> {
    v.map_values(|p: (String, String)| (p.0@, p.1@))
}

/// The value of the last pair named `name` in `pairs[..n]`, as a map filled
/// in order keeps it.
pub open spec fn last_value(pairs: Seq<(Seq<char>, Seq<char>)>, name: Seq<char>, n: int) -> Option<Seq<char>>
    decreases n,
{
    if n <= 0 {
        None
    } else if pairs[n - 1].0 == name {
        Some(pairs[n - 1].1)
    } else {
        last_value(pairs, name, n - 1)
    }
}

/// The query parameters of a request.
pub struct QueryParams {
    pub params: Option<Vec<(String, String)>>,
}

impl QueryParams {
    /// The value of parameter `name`: where it is given more than once, the
    /// last value.
    pub open spec fn spec_get(&self, name: Seq<char>) -> Option<Seq<char>> {
        match self.params {
            Some(p) => last_value(pairs_view(p@), name, p@.len() as int),
            None => None,
        }
    }

    /// The parameters of the query of a URI, where it has one.
    pub fn from_query(query: Option<&str>) -> (r: QueryParams)
        ensures
            match query {
                Some(q) => r.params matches Some(p) && pairs_view(p@) == spec_query_pairs(q@),
                None => r.params is None,
            },
    {
        match query {
            Some(q) => QueryParams { params: Some(parse_query(q)) },
            None => QueryParams { params: None },
        }
    }

    /// The value of parameter `name`.
    pub fn get(&self, name: &str) -> (r: Option<&String>)
        ensures
            match self.spec_get(name@) {
                Some(v) => r matches Some(s) && s@ == v,
                None => r is None,
            },
    {
        match &self.params {
            Some(p) => {
                let mut i: usize = p.len();
                while i > 0
                    invariant
                        i <= p@.len(),
                        self.spec_get(name@) == last_value(pairs_view(p@), name@, p@.len() as int),
                        last_value(pairs_view(p@), name@, p@.len() as int) == last_value(
                            pairs_view(p@),
                            name@,
                            i as int,
                        ),
                    decreases i,
                {
                    assert(pairs_view(p@)[i - 1] == (p@[i - 1].0@, p@[i - 1].1@));
                    if str_equal(p[i - 1].0.as_str(), name) {
                        return Some(&p[i - 1].1);
                    }
                    i = i - 1;
                }
                None
            },
            None => None,
        }
    }

    /// Whether parameter `name` is given.
    pub fn has_param(&self, name: &str) -> (r: bool)
        ensures
            r == self.spec_get(name@) is Some,
    {
        self.get(name).is_some()
    }

    /// The value of parameter `name`, as an owned string.
    pub fn get_string(&self, name: &str) -> (r: Option<String>)
        ensures
            match self.spec_get(name@) {
                Some(v) => r matches Some(s) && s@ == v,
                None => r is None,
            },
    {
        match self.get(name) {
            Some(s) => Some(s.clone()),
            None => None,
        }
    }
}

// ---------------------------------------------------------------------
// the request path

/// Why a request path is refused.
#[derive(Clone, Copy, Debug, PartialEq, Eq, Structural)]
pub enum PathError {
    /// the decoded path is not UTF-8
    InvalidEncoding,
    /// a segment of the path starts with a dot
    IllegalPath,
    /// the path lacks the expected prefix
    MissingPrefix,
}

/// The value of a hexadecimal digit, as `char::to_digit(16)` reads it.
pub open spec fn hex_value(b: u8) -> Option<u8> {
    if 48 <= b && b <= 57 {
        Some((b - 48) as u8)
    } else if 97 <= b && b <= 102 {
        Some((b - 87) as u8)
    } else if 65 <= b && b <= 70 {
        Some((b - 55) as u8)
    } else {
        None
    }
}

/// The bytes with each `%` and two hexadecimal digits replaced by the byte
/// that they write; any other `%` stays as it is.
pub open spec fn spec_percent_decode(s: Seq<u8>) -> Seq<u8>
    decreases s.len(),
{
    if s.len() == 0 {
        s
    } else if s[0] == 37 && s.len() >= 3 && hex_value(s[1]) is Some && hex_value(s[2]) is Some {
        seq![(hex_value(s[1]).unwrap() * 16 + hex_value(s[2]).unwrap()) as u8] + spec_percent_decode(
            s.skip(3),
        )
    } else {
        seq![s[0]] + spec_percent_decode(s.skip(1))
    }
}

/// Calls `percent_encoding::percent_decode` and collects its bytes; its
/// source decodes `%` followed by two hexadecimal digits (either case) to
/// one byte and passes every other byte through.
#[verifier::external_body]
fn percent_decode_bytes(input: &[u8]) -> (r: Vec<u8>)
    ensures
        r@ == spec_percent_decode(input@),
{
    percent_encoding::percent_decode(input).collect()
}

/// Whether a segment names a special or hidden entry.
pub open spec fn starts_with_dot(s: Seq<char>) -> bool {
    s.len() > 0 && s[0] == '.'
}

/// The path of a request from the raw path of its URI: percent-decoded, and
/// refused where it is not UTF-8 or where a segment starts with a dot.
pub open spec fn spec_request_path(raw: Seq<char>) -> Result<Seq<char>, PathError> {
    let bytes = spec_percent_decode(vstd::utf8::encode_utf8(raw));
    if !valid_utf8(bytes) {
        Err(PathError::InvalidEncoding)
    } else if exists|i: int| 0 <= i < split_on(decode_utf8(bytes), '/').len()
        && starts_with_dot(#[trigger] split_on(decode_utf8(bytes), '/')[i]) {
        Err(PathError::IllegalPath)
    } else {
        Ok(decode_utf8(bytes))
    }
}

/// The decoded path of a request.
pub fn request_path(raw: &str) -> (r: Result<String, PathError>)
    ensures
        match spec_request_path(raw@) {
            Ok(p) => r matches Ok(s) && s@ == p,
            Err(e) => r == Err::<String, PathError>(e),
        },
{
    let bytes = percent_decode_bytes(raw.as_bytes());
    let path = match str_from_utf8(bytes.as_slice()) {
        Some(s) => s,
        None => return Err(PathError::InvalidEncoding),
    };
    let segments = split_char(path, '/');
    let mut i: usize = 0;
    while i < segments.len()
        invariant
            i <= segments@.len(),
            bytes@ == spec_percent_decode(vstd::utf8::encode_utf8(raw@)),
            valid_utf8(bytes@),
            path@ == decode_utf8(bytes@),
            string_views(segments@) == split_on(path@, '/'),
            forall|k: int| 0 <= k < i ==> !starts_with_dot(#[trigger] split_on(path@, '/')[k]),
        decreases segments@.len() - i,
    {
        let seg = segments[i].as_str();
        assert(string_views(segments@)[i as int] == segments@[i as int]@);
        if seg.unicode_len() > 0 && seg.get_char(0) == '.' {
            assert(starts_with_dot(split_on(path@, '/')[i as int]));
            return Err(PathError::IllegalPath);
        }
        i = i + 1;
    }
    Ok(path.to_owned())
}

/// `path` without `prefix`, where a prefix is expected.
pub open spec fn spec_strip_path_prefix(path: Seq<char>, prefix: Option<Seq<char>>) -> Result<Seq<char>, PathError> {
    match prefix {
        None => Ok(path),
        Some(p) => if p.is_prefix_of(path) {
            Ok(path.skip(p.len() as int))
        } else {
            Err(PathError::MissingPrefix)
        },
    }
}

/// Removes the expected prefix from a request path.
pub fn strip_path_prefix(path: &str, prefix: Option<&str>) -> (r: Result<String, PathError>)
    ensures
        match spec_strip_path_prefix(path@, match prefix { Some(p) => Some(p@), None => None }) {
            Ok(p) => r matches Ok(s) && s@ == p,
            Err(e) => r == Err::<String, PathError>(e),
        },
{
    match prefix {
        None => Ok(path.to_owned()),
        Some(p) => {
            let n = path.unicode_len();
            let m = p.unicode_len();
            if m > n {
                return Err(PathError::MissingPrefix);
            }
            let mut i: usize = 0;
            while i < m
                invariant
                    prefix == Some(p),
                    m == p@.len(),
                    n == path@.len(),
                    m <= n,
                    i <= m,
                    forall|k: int| 0 <= k < i ==> p@[k] == path@[k],
                decreases m - i,
            {
                if p.get_char(i) != path.get_char(i) {
                    return Err(PathError::MissingPrefix);
                }
                i = i + 1;
            }
            assert(path@.subrange(m as int, n as int) =~= path@.skip(m as int));
            Ok(path.substring_char(m, n).to_owned())
        },
    }
}

// ---------------------------------------------------------------------
// cross-origin requests

/// What `regex::Regex::new(pattern)` and then `is_match(text)` give;
/// `None` where the pattern does not compile.
pub uninterp spec fn spec_regex_is_match(pattern: Seq<char>, text: Seq<char>) -> Option<bool>;

/// Compiles `pattern` with `regex::Regex::new` and calls `Regex::is_match`
/// on `text`. The result is named by `spec_regex_is_match`.
#[verifier::external_body]
pub(crate) fn regex_is_match(pattern: &str, text: &str) -> (r: Option<bool>)
    ensures
        r == spec_regex_is_match(pattern@, text@),
{
    match regex::Regex::new(pattern) { Ok(re) => Some(re.is_match(text)), Err(_) => None }
}

/// Whether a request from `origin` may be answered with cross-origin
/// headers: the header is readable text, not `null` in any case, and
/// matches the pattern (which must compile).
pub open spec fn spec_cors_matching_origin(origin: Option<Seq<u8>>, pattern: Seq<char>) -> bool {
    match origin {
        None => false,
        Some(o) => match spec_header_text(o) {
            None => false,
            Some(t) => if spec_ascii_lowercase(t) == "null"@ {
                false
            } else {
                spec_regex_is_match(pattern, t) == Some(true)
            },
        },
    }
}

/// Whether the `Origin` header of a request matches the allowed pattern.
pub fn is_cors_matching_origin(origin: Option<&[u8]>, pattern: &str) -> (r: bool)
    ensures
        r == spec_cors_matching_origin(
            match origin { Some(o) => Some(o@), None => None },
            pattern@,
        ),
{
    match origin {
        None => false,
        Some(o) => match header_text(o) {
            None => false,
            Some(t) => {
                if str_equal(ascii_lowercase(t).as_str(), "null") {
                    false
                } else {
                    match regex_is_match(pattern, t) {
                        Some(b) => b,
                        None => false,
                    }
                }
            },
        },
    }
}

/// Whether a request counts as secure: it came over TLS, or, behind a
/// proxy, the proxy says it did by `Forwarded: proto=https` or by
/// `X-Forwarded-Proto: https`.
pub open spec fn spec_is_https(is_ssl: bool, behind_proxy: bool, forwarded_proto: Option<Seq<char>>, x_forwarded_proto: Option<Seq<u8>>) -> bool {
    is_ssl || (behind_proxy && (forwarded_proto == Some("https"@) || x_forwarded_proto == Some(
        seq![104u8, 116, 116, 112, 115],
    )))
}

/// Whether a request counts as secure.
pub fn is_https(is_ssl: bool, behind_proxy: bool, forwarded_proto: Option<&str>, x_forwarded_proto: Option<&[u8]>) -> (r: bool)
    ensures
        r == spec_is_https(
            is_ssl,
            behind_proxy,
            match forwarded_proto { Some(p) => Some(p@), None => None },
            match x_forwarded_proto { Some(p) => Some(p@), None => None },
        ),
{
    if is_ssl {
        return true;
    }
    if behind_proxy {
        let fwd = match forwarded_proto {
            Some(p) => str_equal(p, "https"),
            None => false,
        };
        if fwd {
            return true;
        }
        let https: [u8; 5] = [104u8, 116, 116, 112, 115];
        assert(https@ =~= seq![104u8, 116, 116, 112, 115]);
        return match x_forwarded_proto {
            Some(p) => crate::util::bytes_equal(p, https.as_slice()),
            None => false,
        };
    }
    false
}

/// Where the server finds its TLS certificate chain and private key.
#[derive(Clone, Debug, PartialEq, Eq)]
pub struct TlsConfig {
    pub cert_file: String,
    pub key_file: String,
}

// ---------------------------------------------------------------------
// bodies of limited length

/// A body cut to a limit: how much may still be sent, and how much was.
pub struct ChunkLimit {
    remains: u64,
    sent: Ghost<nat>,
    limit: Ghost<nat>,
}

impl ChunkLimit {
    pub closed spec fn remains_v(&self) -> nat {
        self.remains as nat
    }

    pub closed spec fn sent_v(&self) -> nat {
        self.sent@
    }

    pub closed spec fn limit_v(&self) -> nat {
        self.limit@
    }

    /// What was sent and what remains make up the limit.
    pub closed spec fn well_formed(&self) -> bool {
        self.sent@ + self.remains == self.limit@
    }

    /// A body of at most `limit` bytes.
    pub fn new_with_limit(limit: u64) -> (r: Self)
        ensures
            r.well_formed(),
            r.limit_v() == limit,
            r.remains_v() == limit,
            r.sent_v() == 0,
    {
        ChunkLimit { remains: limit, sent: Ghost(0), limit: Ghost(limit as nat) }
    }

    /// Whether all that may be sent was sent.
    pub fn is_done(&self) -> (r: bool)
        ensures
            r == (self.remains_v() == 0),
    {
        self.remains == 0
    }

    /// `data` was read from the source: the part of it that is still within
    /// the limit is sent. Nothing read means the source has ended.
    pub fn next_chunk(&mut self, data: &[u8]) -> (r: Option<Vec<u8>>)
        requires
            old(self).well_formed(),
        ensures
            final(self).well_formed(),
            final(self).limit_v() == old(self).limit_v(),
            data@.len() == 0 ==> r is None && final(self).remains_v() == old(self).remains_v()
                && final(self).sent_v() == old(self).sent_v(),
            data@.len() > 0 ==> {
                let n = if old(self).remains_v() < data@.len() { old(self).remains_v() } else { data@.len() };
                &&& r matches Some(c) && c@ == data@.take(n as int)
                &&& final(self).remains_v() == old(self).remains_v() - n
                &&& final(self).sent_v() == old(self).sent_v() + n
            },
    {
        if data.len() == 0 {
            return None;
        }
        let n: usize = if self.remains < data.len() as u64 { self.remains as usize } else { data.len() };
        let mut chunk: Vec<u8> = Vec::new();
        let mut i: usize = 0;
        while i < n
            invariant
                i <= n,
                n <= data.len(),
                chunk@ == data@.take(i as int),
            decreases n - i,
        {
            chunk.push(data[i]);
            proof {
                assert(data@.take(i + 1) =~= data@.take(i as int).push(data@[i as int]));
            }
            i = i + 1;
        }
        self.remains = self.remains - n as u64;
        self.sent = Ghost(self.sent@ + n as nat);
        Some(chunk)
    }
}

} // verus!
