//! A cache of files with limits on their number and total size. Entries are
//! kept in least-recently-used order; their index is saved as a sequence of
//! records `key length (u16 BE), key, mtime (u64 BE), file key length (u16
//! BE), file key`.
use vstd::prelude::*;
use vstd::utf8::{decode_utf8, encode_utf8, valid_utf8};
use byteorder::ByteOrder;
use crate::header_parser::string_from_utf8;
use crate::util::{path_join, spec_path_join};
use crate::audio_meta::spec_millis_since_epoch;

verus! {

/// The directory of finished entries under the cache root.
pub const ENTRIES: &'static str = "entries";
/// The longest key, in bytes.
pub const MAX_KEY_SIZE: u64 = 4096;
/// The length of a generated file key, in random bytes.
pub const FILE_KEY_LEN: u64 = 32;

// ---------------------------------------------------------------------
// modification times

/// The time a cached file was modified: a system time, or milliseconds from
/// the file's Unix metadata.
#[derive(Debug, Clone, Copy)]
pub enum FileModTime {
    General(std::time::SystemTime),
    Unix(u64),
}

/// The milliseconds from the Unix epoch to `t`, `u64::MAX` where they do
/// not fit.
pub open spec fn saturated_millis(t: std::time::SystemTime) -> nat {
    if spec_millis_since_epoch(t) <= u64::MAX { spec_millis_since_epoch(t) } else { u64::MAX as nat }
}

/// Milliseconds from the Unix epoch to `t` as `SystemTime::duration_since`
/// and `Duration::as_millis` give them: 0 for a time before the epoch, and
/// `u64::MAX` where the count does not fit.
#[verifier::external_body]
fn system_time_millis(t: std::time::SystemTime) -> (r: u64)
    ensures
        r == saturated_millis(t),
{
    let d = t.duration_since(std::time::SystemTime::UNIX_EPOCH).unwrap_or(std::time::Duration::from_millis(0));
    d.as_millis().try_into().unwrap_or(u64::MAX)
}

/// Calls `SystemTime::now`; nothing is stated of the time.
#[verifier::external_body]
fn system_now() -> std::time::SystemTime {
    std::time::SystemTime::now()
}

impl FileModTime {
    /// The time in milliseconds of the Unix epoch.
    pub fn as_millis(&self) -> (r: u64)
        ensures
            self matches FileModTime::Unix(m) ==> r == m,
            self matches FileModTime::General(t) ==> r == saturated_millis(*t),
    {
        match self {
            FileModTime::General(t) => system_time_millis(*t),
            FileModTime::Unix(millis) => *millis,
        }
    }

    /// The current time.
    pub fn now() -> (r: Self)
        ensures
            r is General,
    {
        FileModTime::General(system_now())
    }
}

/// Integer division rounding toward zero, as Rust's `/` does.
pub open spec fn trunc_div(a: int, b: int) -> int {
    if a >= 0 { a / b } else { -((-a) / b) }
}

/// Milliseconds from seconds and nanoseconds.
pub open spec fn millis(secs: int, nsec: int) -> int {
    secs * 1000 + trunc_div(nsec, 1_000_000)
}

/// The time of a file in ms from its Unix times (seconds and nanoseconds of
/// the last modification and of the last status change): the later of the
/// two, where an equal second is decided by the nanoseconds (the status
/// change on a tie), and 0 for a time before the epoch.
pub open spec fn spec_unix_mod_time(mtime: i64, mtime_nsec: i64, ctime: i64, ctime_nsec: i64) -> u64 {
    let t = if mtime > ctime {
        millis(mtime as int, mtime_nsec as int)
    } else if mtime < ctime {
        millis(ctime as int, ctime_nsec as int)
    } else if mtime_nsec > ctime_nsec {
        millis(mtime as int, mtime_nsec as int)
    } else {
        millis(ctime as int, ctime_nsec as int)
    };
    if t < 0 { 0 } else { t as u64 }
}

/// Whether computing the milliseconds in `i64` stays in range.
pub open spec fn millis_fit(secs: i64, nsec: i64) -> bool {
    i64::MIN <= secs * 1000 <= i64::MAX && i64::MIN <= millis(secs as int, nsec as int) <= i64::MAX
}

/// Whether the times in ms that are computed fit in an `i64`.
pub open spec fn unix_times_fit(mtime: i64, mtime_nsec: i64, ctime: i64, ctime_nsec: i64) -> bool {
    if mtime > ctime || (mtime == ctime && mtime_nsec > ctime_nsec) {
        millis_fit(mtime, mtime_nsec)
    } else {
        millis_fit(ctime, ctime_nsec)
    }
}

fn millis_of(secs: i64, nsec: i64) -> (r: i64)
    requires
        millis_fit(secs, nsec),
    ensures
        r == millis(secs as int, nsec as int),
{
    let q: i64 = if nsec >= 0 {
        nsec / 1_000_000
    } else if nsec == i64::MIN {
        -9223372036854i64
    } else {
        -((-nsec) / 1_000_000)
    };
    assert(q == trunc_div(nsec as int, 1_000_000));
    secs * 1000 + q
}

/// The modification time of a file from its Unix metadata.
pub fn unix_mod_time(mtime: i64, mtime_nsec: i64, ctime: i64, ctime_nsec: i64) -> (r: u64)
    requires
        unix_times_fit(mtime, mtime_nsec, ctime, ctime_nsec),
    ensures
        r == spec_unix_mod_time(mtime, mtime_nsec, ctime, ctime_nsec),
{
    let t = if mtime > ctime {
        millis_of(mtime, mtime_nsec)
    } else if mtime < ctime {
        millis_of(ctime, ctime_nsec)
    } else if mtime_nsec > ctime_nsec {
        millis_of(mtime, mtime_nsec)
    } else {
        millis_of(ctime, ctime_nsec)
    };
    if t < 0 { 0 } else { t as u64 }
}

/// A finished entry: its file key and its modification time in ms.
#[derive(Debug, Clone, PartialEq, Eq)]
pub struct FileEntry {
    pub key: String,
    pub mtime: u64,
}

impl FileEntry {
    /// The entry of file `key` modified at `mtime`.
    pub fn new(key: String, mtime: FileModTime) -> (r: Self)
        ensures
            r.key@ == key@,
            mtime matches FileModTime::Unix(m) ==> r.mtime == m,
            mtime matches FileModTime::General(t) ==> r.mtime == saturated_millis(t),
    {
        let m = mtime.as_millis();
        FileEntry { key, mtime: m }
    }
}

/// The character of the URL-safe base64 alphabet (RFC 4648, section 5) for
/// a six-bit value.
pub open spec fn b64url_char(v: int) -> char {
    if v < 26 {
        ('A' as int + v) as char
    } else if v < 52 {
        ('a' as int + v - 26) as char
    } else if v < 62 {
        ('0' as int + v - 52) as char
    } else if v == 62 {
        '-'
    } else {
        '_'
    }
}

/// `b` in URL-safe base64 without padding: each three bytes become four
/// characters, two bytes left over three, one byte two.
pub open spec fn spec_base64url(b: Seq<u8>) -> Seq<char>
    decreases b.len(),
{
    if b.len() == 0 {
        Seq::empty()
    } else if b.len() == 1 {
        seq![b64url_char(b[0] as int / 4), b64url_char((b[0] as int % 4) * 16)]
    } else if b.len() == 2 {
        seq![
            b64url_char(b[0] as int / 4),
            b64url_char((b[0] as int % 4) * 16 + b[1] as int / 16),
            b64url_char((b[1] as int % 16) * 4),
        ]
    } else {
        seq![
            b64url_char(b[0] as int / 4),
            b64url_char((b[0] as int % 4) * 16 + b[1] as int / 16),
            b64url_char((b[1] as int % 16) * 4 + b[2] as int / 64),
            b64url_char(b[2] as int % 64),
        ] + spec_base64url(b.skip(3))
    }
}

/// Calls `data_encoding::BASE64URL_NOPAD.encode`, which encodes in the
/// URL-safe base64 alphabet without padding.
#[verifier::external_body]
fn base64url_nopad(bytes: &[u8]) -> (r: String)
    requires
        bytes.len() <= usize::MAX / 512,
    ensures
        r@ == spec_base64url(bytes@),
{
    data_encoding::BASE64URL_NOPAD.encode(bytes)
}

proof fn lemma_base64url_len(b: Seq<u8>)
    ensures
        spec_base64url(b).len() == 4 * (b.len() / 3) + (if b.len() % 3 == 0 { 0int } else { (b.len() % 3 + 1) as int }),
    decreases b.len(),
{
    if b.len() >= 3 {
        lemma_base64url_len(b.skip(3));
    }
}

/// The key of a new cache file from `FILE_KEY_LEN` random bytes: the bytes
/// in URL-safe base64, 43 characters.
pub fn cache_key_from_random(random: &[u8]) -> (r: String)
    requires
        random.len() == FILE_KEY_LEN,
    ensures
        r@ == spec_base64url(random@),
        r@.len() == 43,
{
    proof {
        lemma_base64url_len(random@);
    }
    base64url_nopad(random)
}

/// The path of a finished entry's file: `root/entries/file_key`.
pub fn entry_path_helper(root: &str, file_key: &str) -> (r: String)
    ensures
        r@ == spec_path_join(spec_path_join(root@, ENTRIES@), file_key@),
{
    let dir = path_join(root, ENTRIES);
    path_join(dir.as_str(), file_key)
}

// ---------------------------------------------------------------------
// big-endian numbers

/// The number that the bytes `s` write, most significant first.
pub open spec fn be_value(s: Seq<u8>) -> int
    decreases s.len(),
{
    if s.len() == 0 {
        0
    } else {
        be_value(s.drop_last()) * 256 + s.last()
    }
}

/// The `n` bytes of `v`, most significant first.
pub open spec fn be_bytes(v: int, n: nat) -> Seq<u8>
    decreases n,
{
    if n == 0 {
        Seq::<u8>::empty()
    } else {
        be_bytes(v / 256, (n - 1) as nat).push((v % 256) as u8)
    }
}

/// 256 to the power `n`.
pub open spec fn pow256(n: nat) -> int
    decreases n,
{
    if n == 0 {
        1
    } else {
        256 * pow256((n - 1) as nat)
    }
}

/// Reading back the bytes of a number gives the number.
pub proof fn lemma_be_round_trip(v: int, n: nat)
    requires
        0 <= v < pow256(n),
    ensures
        be_value(be_bytes(v, n)) == v,
        be_bytes(v, n).len() == n,
    decreases n,
{
    if n > 0 {
        assert(0 <= v / 256 < pow256((n - 1) as nat)) by (nonlinear_arith)
            requires
                0 <= v < 256 * pow256((n - 1) as nat),
        ;
        lemma_be_round_trip(v / 256, (n - 1) as nat);
        let s = be_bytes(v, n);
        assert(s.drop_last() =~= be_bytes(v / 256, (n - 1) as nat));
        assert(v == (v / 256) * 256 + v % 256) by (nonlinear_arith);
    }
}

/// Calls `byteorder::BigEndian::write_u16`, which writes the two bytes of
/// `v`, most significant first.
#[verifier::external_body]
fn be_u16(v: u16) -> (r: [u8; 2])
    ensures
        r@ == be_bytes(v as int, 2),
{
    let mut buf = [0u8; 2];
    byteorder::BigEndian::write_u16(&mut buf, v);
    buf
}

/// Calls `byteorder::BigEndian::write_u64`, which writes the eight bytes of
/// `v`, most significant first.
#[verifier::external_body]
fn be_u64(v: u64) -> (r: [u8; 8])
    ensures
        r@ == be_bytes(v as int, 8),
{
    let mut buf = [0u8; 8];
    byteorder::BigEndian::write_u64(&mut buf, v);
    buf
}

/// Calls `byteorder::BigEndian::read_u16`, which reads the first two bytes,
/// most significant first (and panics on fewer).
#[verifier::external_body]
fn read_be_u16(buf: &[u8]) -> (r: u16)
    requires
        buf@.len() >= 2,
    ensures
        r == be_value(buf@.take(2)),
{
    byteorder::BigEndian::read_u16(buf)
}

/// Calls `byteorder::BigEndian::read_u64`, which reads the first eight
/// bytes, most significant first (and panics on fewer).
#[verifier::external_body]
fn read_be_u64(buf: &[u8]) -> (r: u64)
    requires
        buf@.len() >= 8,
    ensures
        r == be_value(buf@.take(8)),
{
    byteorder::BigEndian::read_u64(buf)
}

// ---------------------------------------------------------------------
// the index file

/// An index record: key, modification time in ms, file key.
pub struct IndexRecord {
    pub key: String,
    pub mtime: u64,
    pub file_key: String,
}

pub struct IndexRecordV {
    pub key: Seq<char>,
    pub mtime: u64,
    pub file_key: Seq<char>,
}

impl View for IndexRecord {
    type V = IndexRecordV;

    open spec fn view(&self) -> IndexRecordV {
        IndexRecordV { key: self.key@, mtime: self.mtime, file_key: self.file_key@ }
    }
}

pub open spec fn records_view(v: Seq<IndexRecord>) -> Seq<IndexRecordV> {
    v.map_values(|r: IndexRecord| r@)
}

/// The bytes of one record.
pub open spec fn encode_record(r: IndexRecordV) -> Seq<u8> {
    let k = encode_utf8(r.key);
    let f = encode_utf8(r.file_key);
    be_bytes(k.len() as int % 65536, 2) + k + be_bytes(r.mtime as int, 8) + be_bytes(
        f.len() as int % 65536,
        2,
    ) + f
}

/// The bytes of an index.
pub open spec fn encode_records(rs: Seq<IndexRecordV>) -> Seq<u8>
    decreases rs.len(),
{
    if rs.len() == 0 {
        Seq::<u8>::empty()
    } else {
        encode_records(rs.drop_last()) + encode_record(rs.last())
    }
}

/// Appends `bytes` to `out`.
fn append_bytes(out: &mut Vec<u8>, bytes: &[u8])
    ensures
        final(out)@ == old(out)@ + bytes@,
{
    let mut i: usize = 0;
    while i < bytes.len()
        invariant
            i <= bytes@.len(),
            out@ == old(out)@ + bytes@.take(i as int),
        decreases bytes@.len() - i,
    {
        out.push(bytes[i]);
        i = i + 1;
        assert(out@ =~= old(out)@ + bytes@.take(i as int));
    }
    assert(bytes@.take(bytes@.len() as int) =~= bytes@);
}

fn truncate_u16(n: usize) -> (r: u16)
    ensures
        r as int == n as int % 65536,
{
    (n % 65536) as u16
}

/// The bytes of the index of `records`, in order. Lengths are written as
/// `u16`, so a key longer than `u16::MAX` bytes is written with its length
/// cut to 16 bits.
pub fn encode_index(records: &Vec<IndexRecord>) -> (r: Vec<u8>)
    ensures
        r@ == encode_records(records_view(records@)),
{
    let mut out: Vec<u8> = Vec::new();
    let mut i: usize = 0;
    while i < records.len()
        invariant
            i <= records@.len(),
            out@ == encode_records(records_view(records@).take(i as int)),
        decreases records@.len() - i,
    {
        let rec = &records[i];
        let k = rec.key.as_str().as_bytes();
        let f = rec.file_key.as_str().as_bytes();
        let kl = be_u16(truncate_u16(k.len()));
        append_bytes(&mut out, kl.as_slice());
        append_bytes(&mut out, k);
        let m = be_u64(rec.mtime);
        append_bytes(&mut out, m.as_slice());
        let fl = be_u16(truncate_u16(f.len()));
        append_bytes(&mut out, fl.as_slice());
        append_bytes(&mut out, f);
        proof {
            let rv = records_view(records@);
            assert(rv.take(i + 1).drop_last() =~= rv.take(i as int));
            assert(rv.take(i + 1).last() == rec@);
        }
        i = i + 1;
    }
    assert(records_view(records@).take(records@.len() as int) =~= records_view(records@));
    out
}

/// Why an index cannot be read.
#[derive(Clone, Copy, Debug, PartialEq, Eq, Structural)]
pub enum IndexError {
    /// a length over its limit, or a key that is not UTF-8
    InvalidIndex,
    /// the index ends inside a record
    UnexpectedEof,
}

/// The length of the record at the start of `b`, where its lengths can be
/// read: 2 + key + 8 + 2 + file key.
pub open spec fn key_len_at(b: Seq<u8>) -> int {
    be_value(b.take(2))
}

pub open spec fn value_len_at(b: Seq<u8>) -> int {
    be_value(b.skip(2 + key_len_at(b) + 8).take(2))
}

/// The first record of `b` (which has at least two bytes), or why it cannot
/// be read, together with its length in bytes.
pub open spec fn decode_record(b: Seq<u8>) -> Result<(IndexRecordV, int), IndexError> {
    let kl = key_len_at(b);
    if kl > MAX_KEY_SIZE {
        Err(IndexError::InvalidIndex)
    } else if 2 + kl > b.len() {
        Err(IndexError::UnexpectedEof)
    } else if !valid_utf8(b.subrange(2, 2 + kl)) {
        Err(IndexError::InvalidIndex)
    } else if 2 + kl + 8 > b.len() {
        Err(IndexError::UnexpectedEof)
    } else if 2 + kl + 10 > b.len() {
        Err(IndexError::UnexpectedEof)
    } else {
        let vl = value_len_at(b);
        if vl > 2 * FILE_KEY_LEN {
            Err(IndexError::InvalidIndex)
        } else if 2 + kl + 10 + vl > b.len() {
            Err(IndexError::UnexpectedEof)
        } else if !valid_utf8(b.subrange(2 + kl + 10, 2 + kl + 10 + vl)) {
            Err(IndexError::InvalidIndex)
        } else {
            Ok((
                IndexRecordV {
                    key: decode_utf8(b.subrange(2, 2 + kl)),
                    mtime: be_value(b.subrange(2 + kl, 2 + kl + 8)) as u64,
                    file_key: decode_utf8(b.subrange(2 + kl + 10, 2 + kl + 10 + vl)),
                },
                2 + kl + 10 + vl,
            ))
        }
    }
}

/// The records of an index and, where reading stopped early, why. Reading
/// ends well where fewer than two bytes are left.
pub open spec fn decode_records(b: Seq<u8>) -> (Seq<IndexRecordV>, Option<IndexError>)
    decreases b.len(),
{
    if b.len() < 2 {
        (Seq::empty(), None)
    } else {
        match decode_record(b) {
            Err(e) => (Seq::empty(), Some(e)),
            Ok((r, n)) => if n <= 0 {
                (seq![r], None)
            } else {
                let rest = decode_records(b.skip(n));
                (seq![r] + rest.0, rest.1)
            },
        }
    }
}

/// Reads the records of an index: those before the first error, and the
/// error where there is one.
pub fn decode_index(bytes: &[u8]) -> (r: (Vec<IndexRecord>, Option<IndexError>))
    ensures
        (records_view(r.0@), r.1) == decode_records(bytes@),
{
    let n = bytes.len();
    let mut pos: usize = 0;
    let mut out: Vec<IndexRecord> = Vec::new();
    assert(bytes@.skip(0) =~= bytes@);
    while n - pos >= 2
        invariant
            n == bytes@.len(),
            pos <= n,
            decode_records(bytes@) == (records_view(out@) + decode_records(bytes@.skip(pos as int)).0,
                decode_records(bytes@.skip(pos as int)).1),
        decreases n - pos,
    {
        let ghost b = bytes@.skip(pos as int);
        let rest = slice_from(bytes, pos);
        assert(rest@ == b);
        let kl = read_be_u16(rest) as usize;
        assert(b.take(2) =~= rest@.take(2));
        if kl > 4096 {
            proof { assert(decode_record(b) == Err::<(IndexRecordV, int), IndexError>(IndexError::InvalidIndex)); }
            return (out, Some(IndexError::InvalidIndex));
        }
        if 2 + kl > rest.len() {
            return (out, Some(IndexError::UnexpectedEof));
        }
        let key = match string_from_utf8(copy_range(rest, 2, 2 + kl)) {
            Some(k) => k,
            None => return (out, Some(IndexError::InvalidIndex)),
        };
        if 2 + kl + 10 > rest.len() {
            return (out, Some(IndexError::UnexpectedEof));
        }
        let mtime = read_be_u64(slice_from(rest, 2 + kl));
        assert(rest@.skip(2 + kl as int).take(8) =~= b.subrange(2 + kl as int, 2 + kl + 8));
        let vl = read_be_u16(slice_from(rest, 2 + kl + 8)) as usize;
        assert(rest@.skip(2 + kl + 8).take(2) =~= b.skip(2 + key_len_at(b) + 8).take(2));
        if vl > 64 {
            return (out, Some(IndexError::InvalidIndex));
        }
        if 2 + kl + 10 + vl > rest.len() {
            return (out, Some(IndexError::UnexpectedEof));
        }
        let file_key = match string_from_utf8(copy_range(rest, 2 + kl + 10, 2 + kl + 10 + vl)) {
            Some(f) => f,
            None => return (out, Some(IndexError::InvalidIndex)),
        };
        let rec = IndexRecord { key, mtime, file_key };
        let len = 2 + kl + 10 + vl;
        proof {
            assert(decode_record(b) == Ok::<(IndexRecordV, int), IndexError>((rec@, len as int)));
            assert(bytes@.skip(pos + len) =~= b.skip(len as int));
            assert(records_view(out@.push(rec)) =~= records_view(out@).push(rec@));
        }
        out.push(rec);
        pos = pos + len;
    }
    (out, None)
}

/// `bytes[from..]`.
fn slice_from(bytes: &[u8], from: usize) -> (r: &[u8])
    requires
        from <= bytes@.len(),
    ensures
        r@ == bytes@.skip(from as int),
{
    let r = vstd::slice::slice_subrange(bytes, from, bytes.len());
    assert(r@ =~= bytes@.skip(from as int));
    r
}

/// A copy of `bytes[from..to]`.
fn copy_range(bytes: &[u8], from: usize, to: usize) -> (r: Vec<u8>)
    requires
        from <= to <= bytes@.len(),
    ensures
        r@ == bytes@.subrange(from as int, to as int),
{
    let mut v: Vec<u8> = Vec::new();
    let mut i = from;
    while i < to
        invariant
            from <= i <= to,
            to <= bytes@.len(),
            v@ == bytes@.subrange(from as int, i as int),
        decreases to - i,
    {
        v.push(bytes[i]);
        i = i + 1;
        assert(v@ =~= bytes@.subrange(from as int, i as int));
    }
    v
}

/// A record whose key and file key fit the limits of the index.
pub open spec fn record_fits(r: IndexRecordV) -> bool {
    encode_utf8(r.key).len() <= MAX_KEY_SIZE && encode_utf8(r.file_key).len() <= 2 * FILE_KEY_LEN
}

proof fn lemma_encode_records_front(rs: Seq<IndexRecordV>)
    requires
        rs.len() > 0,
    ensures
        encode_records(rs) == encode_record(rs[0]) + encode_records(rs.drop_first()),
    decreases rs.len(),
{
    if rs.len() > 1 {
        lemma_encode_records_front(rs.drop_last());
        assert(rs.drop_last().drop_first() =~= rs.drop_first().drop_last());
        assert(rs.drop_first().last() == rs.last());
        assert(encode_records(rs.drop_first()) == encode_records(rs.drop_first().drop_last())
            + encode_record(rs.drop_first().last()));
    } else {
        assert(rs.drop_last() =~= Seq::<IndexRecordV>::empty());
        assert(rs.drop_first() =~= Seq::<IndexRecordV>::empty());
        assert(encode_record(rs[0]) + Seq::<u8>::empty() =~= encode_record(rs[0]));
        assert(Seq::<u8>::empty() + encode_record(rs[0]) =~= encode_record(rs[0]));
    }
}

#[verifier::rlimit(40)]
#[verifier::spinoff_prover]
proof fn lemma_decode_record_of_encoded(r: IndexRecordV, tail: Seq<u8>)
    requires
        record_fits(r),
    ensures
        decode_record(encode_record(r) + tail) == Ok::<(IndexRecordV, int), IndexError>((r, encode_record(r).len() as int)),
        (encode_record(r) + tail).skip(encode_record(r).len() as int) == tail,
        encode_record(r).len() >= 2,
{
    let k = encode_utf8(r.key);
    let f = encode_utf8(r.file_key);
    let b = encode_record(r) + tail;
    reveal_with_fuel(pow256, 9);
    lemma_be_round_trip(k.len() as int, 2);
    lemma_be_round_trip(f.len() as int, 2);
    lemma_be_round_trip(r.mtime as int, 8);
    let kl = k.len() as int;
    let fl = f.len() as int;
    assert(kl % 65536 == kl);
    assert(fl % 65536 == fl);
    assert(b.take(2) =~= be_bytes(kl, 2));
    assert(key_len_at(b) == kl);
    assert(b.subrange(2, 2 + kl) =~= k);
    assert(b.subrange(2 + kl, 2 + kl + 8) =~= be_bytes(r.mtime as int, 8));
    assert(b.skip(2 + kl + 8).take(2) =~= be_bytes(fl, 2));
    assert(value_len_at(b) == fl);
    assert(b.subrange(2 + kl + 10, 2 + kl + 10 + fl) =~= f);
    vstd::utf8::encode_utf8_valid_utf8(r.key);
    vstd::utf8::encode_utf8_valid_utf8(r.file_key);
    vstd::utf8::encode_utf8_decode_utf8(r.key);
    vstd::utf8::encode_utf8_decode_utf8(r.file_key);
    assert(b.skip(encode_record(r).len() as int) =~= tail);
}

/// Reading back a written index gives its records, where each key and file
/// key fits the limits of the index.
pub proof fn lemma_index_round_trip(rs: Seq<IndexRecordV>)
    requires
        forall|i: int| 0 <= i < rs.len() ==> record_fits(#[trigger] rs[i]),
    ensures
        decode_records(encode_records(rs)) == (rs, None::<IndexError>),
    decreases rs.len(),
{
    if rs.len() == 0 {
        assert(encode_records(rs) =~= Seq::<u8>::empty());
        assert(rs =~= Seq::<IndexRecordV>::empty());
    } else {
        lemma_encode_records_front(rs);
        let tail = encode_records(rs.drop_first());
        assert(record_fits(rs[0]));
        lemma_decode_record_of_encoded(rs[0], tail);
        assert forall|i: int| 0 <= i < rs.drop_first().len() implies record_fits(#[trigger] rs.drop_first()[i]) by {
            assert(rs.drop_first()[i] == rs[i + 1]);
        };
        lemma_index_round_trip(rs.drop_first());
        assert(seq![rs[0]] + rs.drop_first() =~= rs);
    }
}

// ---------------------------------------------------------------------
// the index in memory

pub struct FileEntryV {
    pub key: Seq<char>,
    pub mtime: u64,
}

impl View for FileEntry {
    type V = FileEntryV;

    open spec fn view(&self) -> FileEntryV {
        FileEntryV { key: self.key@, mtime: self.mtime }
    }
}

#[verifier::external_type_specification]
#[verifier::external_body]
#[verifier::reject_recursive_types(K)]
#[verifier::reject_recursive_types(V)]
#[verifier::reject_recursive_types(S)]
pub struct ExLinkedHashMap<K, V, S>(linked_hash_map::LinkedHashMap<K, V, S>);

/// The entries of the map of finished files, least recently used first.
pub uninterp spec fn lru_entries(m: linked_hash_map::LinkedHashMap<String, FileEntry>) -> Seq<(Seq<char>, FileEntryV)>;

/// The index of `key` in the entries, if it is there.
pub open spec fn lru_index(e: Seq<(Seq<char>, FileEntryV)>, key: Seq<char>) -> Option<int> {
    if exists|i: int| 0 <= i < e.len() && e[i].0 == key {
        Some(choose|i: int| 0 <= i < e.len() && e[i].0 == key)
    } else {
        None
    }
}

/// The entries after `LinkedHashMap::insert`: the key, with its new value,
/// becomes the most recent.
pub open spec fn lru_after_insert(e: Seq<(Seq<char>, FileEntryV)>, key: Seq<char>, v: FileEntryV) -> Seq<(Seq<char>, FileEntryV)> {
    match lru_index(e, key) {
        Some(i) => e.remove(i).push((key, v)),
        None => e.push((key, v)),
    }
}

/// Whether no key occurs twice among the entries.
pub open spec fn keys_distinct(e: Seq<(Seq<char>, FileEntryV)>) -> bool {
    forall|i: int, j: int| 0 <= i < j < e.len() ==> #[trigger] e[i].0 != #[trigger] e[j].0
}

/// An index keeps each key once, and what is added under a key is what a
/// lookup of that key then finds: the most recent entry, with the value
/// added.
pub proof fn lemma_added_entry_found(e: Seq<(Seq<char>, FileEntryV)>, key: Seq<char>, v: FileEntryV)
    requires
        keys_distinct(e),
    ensures
        keys_distinct(lru_after_insert(e, key, v)),
        lru_after_insert(e, key, v).last() == (key, v),
        lru_index(lru_after_insert(e, key, v), key) == Some(lru_after_insert(e, key, v).len() - 1),
{
    let after = lru_after_insert(e, key, v);
    let n = after.len() - 1;
    let rest = after.drop_last();
    match lru_index(e, key) {
        Some(i) => {
            assert(rest =~= e.remove(i));
            assert forall|t: int| 0 <= t < rest.len() implies rest[t].0 != key by {
                if t < i {
                    assert(rest[t] == e[t]);
                } else {
                    assert(rest[t] == e[t + 1]);
                }
            }
            assert forall|a: int, b: int| 0 <= a < b < rest.len() implies #[trigger] rest[a].0 != #[trigger] rest[b].0 by {
                let ea = if a < i { a } else { a + 1 };
                let eb = if b < i { b } else { b + 1 };
                assert(rest[a] == e[ea]);
                assert(rest[b] == e[eb]);
            }
        },
        None => {
            assert(rest =~= e);
        },
    }
    assert forall|a: int, b: int| 0 <= a < b < after.len() implies #[trigger] after[a].0 != #[trigger] after[b].0 by {
        assert(after[a] == rest[a]);
        if b < n {
            assert(after[b] == rest[b]);
        }
    }
    assert(after[n].0 == key);
    let c = choose|t: int| 0 <= t < after.len() && after[t].0 == key;
    assert(c == n) by {
        if c < n {
            assert(after[c] == rest[c]);
        }
    }
}

/// Calls `LinkedHashMap::new`: an empty map.
#[verifier::external_body]
fn lru_new() -> (r: linked_hash_map::LinkedHashMap<String, FileEntry>)
    ensures
        lru_entries(r) == Seq::<(Seq<char>, FileEntryV)>::empty(),
{
    linked_hash_map::LinkedHashMap::new()
}

/// Calls `LinkedHashMap::insert`, which (by its source) replaces the value
/// of an existing key and moves it to the back, or adds a new key at the
/// back.
#[verifier::external_body]
fn lru_insert(m: &mut linked_hash_map::LinkedHashMap<String, FileEntry>, key: String, v: FileEntry)
    ensures
        lru_entries(*final(m)) == lru_after_insert(lru_entries(*old(m)), key@, v@),
{
    m.insert(key, v);
}

/// Calls `LinkedHashMap::get_refresh` and clones the value: a found key
/// moves to the back.
#[verifier::external_body]
fn lru_get_refresh(m: &mut linked_hash_map::LinkedHashMap<String, FileEntry>, key: &str) -> (r: Option<FileEntry>)
    ensures
        match lru_index(lru_entries(*old(m)), key@) {
            Some(i) => r matches Some(v) && v@ == lru_entries(*old(m))[i].1
                && lru_entries(*final(m)) == lru_entries(*old(m)).remove(i).push(lru_entries(*old(m))[i]),
            None => r is None && lru_entries(*final(m)) == lru_entries(*old(m)),
        },
{
    m.get_refresh(key).map(|v| v.clone())
}

/// Calls `LinkedHashMap::remove`.
#[verifier::external_body]
fn lru_remove(m: &mut linked_hash_map::LinkedHashMap<String, FileEntry>, key: &str) -> (r: Option<FileEntry>)
    ensures
        match lru_index(lru_entries(*old(m)), key@) {
            Some(i) => r matches Some(v) && v@ == lru_entries(*old(m))[i].1
                && lru_entries(*final(m)) == lru_entries(*old(m)).remove(i),
            None => r is None && lru_entries(*final(m)) == lru_entries(*old(m)),
        },
{
    m.remove(key)
}

/// Calls `LinkedHashMap::pop_front`: the least recently used entry.
#[verifier::external_body]
fn lru_pop_front(m: &mut linked_hash_map::LinkedHashMap<String, FileEntry>) -> (r: Option<(String, FileEntry)>)
    ensures
        lru_entries(*old(m)).len() == 0 ==> r is None && lru_entries(*final(m)) == lru_entries(*old(m)),
        lru_entries(*old(m)).len() > 0 ==> (r matches Some(x) && (x.0@, x.1@) == lru_entries(*old(m))[0]
            && lru_entries(*final(m)) == lru_entries(*old(m)).drop_first()),
{
    m.pop_front()
}

/// Calls `LinkedHashMap::contains_key`.
#[verifier::external_body]
fn lru_contains(m: &linked_hash_map::LinkedHashMap<String, FileEntry>, key: &str) -> (r: bool)
    ensures
        r == lru_index(lru_entries(*m), key@) is Some,
{
    m.contains_key(key)
}

/// Calls `LinkedHashMap::iter` and collects the entries in order.
#[verifier::external_body]
fn lru_records(m: &linked_hash_map::LinkedHashMap<String, FileEntry>) -> (r: Vec<IndexRecord>)
    ensures
        records_view(r@) == lru_entries(*m).map_values(|e: (Seq<char>, FileEntryV)| IndexRecordV { key: e.0, mtime: e.1.mtime, file_key: e.1.key }),
{
    m.iter().map(|(k, v)| IndexRecord { key: k.clone(), mtime: v.mtime, file_key: v.key.clone() }).collect()
}

/// Why the cache refuses a request.
#[derive(Clone, Copy, Debug, PartialEq, Eq, Structural)]
pub enum CacheError {
    /// the key is longer than `MAX_KEY_SIZE` bytes
    InvalidKey,
    /// the key is being written
    KeyOpened,
    /// the key is already in the cache
    KeyAlreadyExists,
    /// the file is larger than the whole cache
    FileTooBig,
}

/// What a lookup found.
#[derive(Debug, PartialEq, Eq)]
pub enum Lookup {
    /// the entry, with the file key of its file
    Found(String),
    /// the entry is older than the file it caches: it should be removed
    Stalled,
    /// no entry
    Missing,
}

/// The finished entries of a file cache, least recently used first, with
/// the count and total size of their files and the limits on both.
pub struct CacheIndex {
    pub files: linked_hash_map::LinkedHashMap<String, FileEntry>,
    pub max_size: u64,
    pub max_files: u64,
    pub size: u64,
    pub num_files: u64,
}

impl CacheIndex {
    pub open spec fn entries(&self) -> Seq<(Seq<char>, FileEntryV)> {
        lru_entries(self.files)
    }

    /// An empty index with the limits `max_size` and `max_files`.
    pub fn new(max_size: u64, max_files: u64) -> (r: Self)
        ensures
            r.entries() == Seq::<(Seq<char>, FileEntryV)>::empty(),
            r.max_size == max_size,
            r.max_files == max_files,
            r.size == 0,
            r.num_files == 0,
    {
        CacheIndex { files: lru_new(), max_size, max_files, size: 0, num_files: 0 }
    }

    /// Whether a new entry may be opened for `key`: it is short enough, not
    /// being written, and not cached yet.
    pub fn check_new_key(&self, key: &str, opened: bool) -> (r: Result<(), CacheError>)
        ensures
            r == (if vstd::utf8::encode_utf8(key@).len() > MAX_KEY_SIZE {
                Err(CacheError::InvalidKey)
            } else if opened {
                Err(CacheError::KeyOpened)
            } else if lru_index(self.entries(), key@) is Some {
                Err(CacheError::KeyAlreadyExists)
            } else {
                Ok(())
            }),
    {
        if key.as_bytes().len() > 4096 {
            return Err(CacheError::InvalidKey);
        }
        if opened {
            return Err(CacheError::KeyOpened);
        }
        if lru_contains(&self.files, key) {
            return Err(CacheError::KeyAlreadyExists);
        }
        Ok(())
    }

    /// Looks up `key` for a file modified at `mtime`: a found entry becomes
    /// the most recently used; it is stale where the file is newer than it.
    pub fn lookup(&mut self, key: &str, mtime: u64) -> (r: Lookup)
        ensures
            final(self).max_size == old(self).max_size,
            final(self).max_files == old(self).max_files,
            final(self).size == old(self).size,
            final(self).num_files == old(self).num_files,
            match lru_index(old(self).entries(), key@) {
                Some(i) => final(self).entries() == old(self).entries().remove(i).push(old(self).entries()[i])
                    && (if mtime > old(self).entries()[i].1.mtime {
                        r == Lookup::Stalled
                    } else {
                        r matches Lookup::Found(f) && f@ == old(self).entries()[i].1.key
                    }),
                None => r == Lookup::Missing && final(self).entries() == old(self).entries(),
            },
    {
        match lru_get_refresh(&mut self.files, key) {
            Some(entry) => {
                if mtime > entry.mtime {
                    Lookup::Stalled
                } else {
                    Lookup::Found(entry.key)
                }
            },
            None => Lookup::Missing,
        }
    }

    /// Removes the entry of `key` from the index, and gives it back.
    pub fn remove_entry(&mut self, key: &str) -> (r: Option<FileEntry>)
        ensures
            final(self).max_size == old(self).max_size,
            final(self).max_files == old(self).max_files,
            final(self).size == old(self).size,
            final(self).num_files == old(self).num_files,
            match lru_index(old(self).entries(), key@) {
                Some(i) => r matches Some(v) && v@ == old(self).entries()[i].1
                    && final(self).entries() == old(self).entries().remove(i),
                None => r is None && final(self).entries() == old(self).entries(),
            },
    {
        lru_remove(&mut self.files, key)
    }

    /// Takes the least recently used entry out of the index.
    pub fn pop_oldest(&mut self) -> (r: Option<(String, FileEntry)>)
        ensures
            final(self).max_size == old(self).max_size,
            final(self).max_files == old(self).max_files,
            final(self).size == old(self).size,
            final(self).num_files == old(self).num_files,
            old(self).entries().len() == 0 ==> r is None && final(self).entries() == old(self).entries(),
            old(self).entries().len() > 0 ==> (r matches Some(x) && (x.0@, x.1@) == old(self).entries()[0]
                && final(self).entries() == old(self).entries().drop_first()),
    {
        lru_pop_front(&mut self.files)
    }

    /// Counts a removed file of `file_size` bytes out.
    pub fn release(&mut self, file_size: u64)
        requires
            old(self).num_files >= 1,
            old(self).size >= file_size,
        ensures
            final(self).num_files == old(self).num_files - 1,
            final(self).size == old(self).size - file_size,
            final(self).entries() == old(self).entries(),
            final(self).max_size == old(self).max_size,
            final(self).max_files == old(self).max_files,
    {
        self.num_files = self.num_files - 1;
        self.size = self.size - file_size;
    }

    /// Whether a new file of `new_size` bytes needs older files removed
    /// first: it would go over the size or the number of files.
    pub fn needs_room(&self, new_size: u64) -> (r: bool)
        requires
            self.size + new_size <= u64::MAX,
            self.num_files + 1 <= u64::MAX,
        ensures
            r == (self.size + new_size > self.max_size || self.num_files + 1 > self.max_files),
    {
        self.size + new_size > self.max_size || self.num_files + 1 > self.max_files
    }

    /// Whether a new file of `new_size` bytes would go over the size or
    /// the number of files.
    pub open spec fn room_needed(&self, new_size: u64) -> bool {
        self.size + new_size > self.max_size || self.num_files + 1 > self.max_files
    }

    /// One step of making room for a new file of `new_size` bytes: where
    /// room is needed and an entry is left, the least recently used entry
    /// is taken out and given back, for its file to be removed and counted
    /// out with `release`; else nothing changes.
    pub fn evict_step(&mut self, new_size: u64) -> (r: Option<(String, FileEntry)>)
        requires
            old(self).size + new_size <= u64::MAX,
            old(self).num_files + 1 <= u64::MAX,
        ensures
            final(self).max_size == old(self).max_size,
            final(self).max_files == old(self).max_files,
            final(self).size == old(self).size,
            final(self).num_files == old(self).num_files,
            !(old(self).room_needed(new_size) && old(self).entries().len() > 0) ==> r is None
                && final(self).entries() == old(self).entries(),
            (old(self).room_needed(new_size) && old(self).entries().len() > 0) ==> (r matches Some(x)
                && (x.0@, x.1@) == old(self).entries()[0] && final(self).entries() == old(self).entries().drop_first()),
    {
        if self.needs_room(new_size) {
            self.pop_oldest()
        } else {
            None
        }
    }

    /// Whether a finished file of `new_size` bytes can be cached at all.
    pub fn fits(&self, new_size: u64) -> (r: Result<(), CacheError>)
        ensures
            r == (if new_size > self.max_size { Err(CacheError::FileTooBig) } else { Ok(()) }),
    {
        if new_size > self.max_size {
            Err(CacheError::FileTooBig)
        } else {
            Ok(())
        }
    }

    /// Adds a finished file of `file_size` bytes under `key` as the most
    /// recently used entry, and counts it in.
    pub fn add_finished(&mut self, key: String, entry: FileEntry, file_size: u64)
        requires
            old(self).size + file_size <= u64::MAX,
            old(self).num_files + 1 <= u64::MAX,
        ensures
            final(self).entries() == lru_after_insert(old(self).entries(), key@, entry@),
            final(self).num_files == old(self).num_files + 1,
            final(self).size == old(self).size + file_size,
            final(self).max_size == old(self).max_size,
            final(self).max_files == old(self).max_files,
    {
        lru_insert(&mut self.files, key, entry);
        self.num_files = self.num_files + 1;
        self.size = self.size + file_size;
    }

    /// Whether a file of `file_size` bytes read from the saved index is
    /// kept: it stays within both limits.
    pub fn admits(&self, file_size: u64) -> (r: bool)
        ensures
            r == (self.num_files + 1 <= self.max_files && self.size + file_size <= self.max_size),
    {
        self.num_files < self.max_files && file_size <= self.max_size && self.size <= self.max_size - file_size
    }

    /// Restores the saved `records`, in order, given the sizes of their
    /// files (`None` where the file is gone): a record whose file is gone is
    /// skipped, one the index admits is added, and the others are refused,
    /// for their files to be removed. Says for each record whether it was
    /// added.
    pub fn restore(&mut self, records: &Vec<IndexRecord>, sizes: &Vec<Option<u64>>) -> (r: Vec<bool>)
        requires
            records@.len() == sizes@.len(),
        ensures
            final(self).max_size == old(self).max_size,
            final(self).max_files == old(self).max_files,
            ({
                let st = restored(
                    (old(self).entries(), old(self).size as int, old(self).num_files as int),
                    old(self).max_size as int,
                    old(self).max_files as int,
                    records_view(records@),
                    sizes@,
                );
                &&& final(self).entries() == st.0.0
                &&& final(self).size == st.0.1
                &&& final(self).num_files == st.0.2
                &&& r@ == st.1
            }),
    {
        let ghost start = (self.entries(), self.size as int, self.num_files as int);
        let ghost rv = records_view(records@);
        let mut kept: Vec<bool> = Vec::new();
        let mut k: usize = 0;
        while k < records.len()
            invariant
                k <= records@.len(),
                records@.len() == sizes@.len(),
                rv == records_view(records@),
                self.max_size == old(self).max_size,
                self.max_files == old(self).max_files,
                ({
                    let st = restored(start, self.max_size as int, self.max_files as int, rv.take(k as int), sizes@.take(k as int));
                    &&& self.entries() == st.0.0
                    &&& self.size == st.0.1
                    &&& self.num_files == st.0.2
                    &&& kept@ == st.1
                }),
            decreases records@.len() - k,
        {
            proof {
                assert(rv.take(k + 1).drop_last() =~= rv.take(k as int));
                assert(sizes@.take(k + 1).drop_last() =~= sizes@.take(k as int));
                assert(rv.take(k + 1).last() == records@[k as int]@);
                assert(sizes@.take(k + 1).last() == sizes@[k as int]);
            }
            match sizes[k] {
                None => {
                    kept.push(false);
                },
                Some(file_size) => {
                    if self.admits(file_size) {
                        let key = records[k].key.clone();
                        let entry = FileEntry { key: records[k].file_key.clone(), mtime: records[k].mtime };
                        self.add_finished(key, entry, file_size);
                        kept.push(true);
                    } else {
                        kept.push(false);
                    }
                },
            }
            k = k + 1;
        }
        proof {
            assert(rv.take(records@.len() as int) =~= rv);
            assert(sizes@.take(records@.len() as int) =~= sizes@);
        }
        kept
    }

    /// The records of the index, least recently used first, for saving.
    pub fn records(&self) -> (r: Vec<IndexRecord>)
        ensures
            records_view(r@) == self.entries().map_values(|e: (Seq<char>, FileEntryV)| IndexRecordV { key: e.0, mtime: e.1.mtime, file_key: e.1.key }),
    {
        lru_records(&self.files)
    }
}

/// The entry a saved record stands for.
pub open spec fn record_entry(r: IndexRecordV) -> (Seq<char>, FileEntryV) {
    (r.key, FileEntryV { key: r.file_key, mtime: r.mtime })
}

/// The entries, total size and count of an index, after the saved records
/// `recs` were restored in turn given the sizes of their files, and for
/// each record whether it was added.
pub open spec fn restored(
    st: (Seq<(Seq<char>, FileEntryV)>, int, int),
    max_size: int,
    max_files: int,
    recs: Seq<IndexRecordV>,
    sizes: Seq<Option<u64>>,
) -> ((Seq<(Seq<char>, FileEntryV)>, int, int), Seq<bool>)
    decreases recs.len(),
{
    if recs.len() == 0 || sizes.len() == 0 {
        (st, Seq::empty())
    } else {
        let prev = restored(st, max_size, max_files, recs.drop_last(), sizes.drop_last());
        let (e, size, num) = prev.0;
        match sizes.last() {
            Some(fsz) => if num + 1 <= max_files && size + fsz <= max_size {
                let (k, v) = record_entry(recs.last());
                ((lru_after_insert(e, k, v), size + fsz, num + 1), prev.1.push(true))
            } else {
                (prev.0, prev.1.push(false))
            },
            None => (prev.0, prev.1.push(false)),
        }
    }
}

/// The total size of files of the sizes `sizes`.
pub open spec fn sum_sizes(sizes: Seq<Option<u64>>) -> int
    decreases sizes.len(),
{
    if sizes.len() == 0 {
        0
    } else {
        sum_sizes(sizes.drop_last()) + match sizes.last() {
            Some(z) => z as int,
            None => 0,
        }
    }
}

/// Restoring, into an empty index, the records that an index saved, whose
/// files are all still there with sizes together within its size limit
/// and no more of them than its file limit, gives back all of them, in the
/// order they were saved.
pub proof fn lemma_restore_keeps_entries(recs: Seq<IndexRecordV>, sizes: Seq<Option<u64>>, max_size: int, max_files: int)
    requires
        recs.len() == sizes.len(),
        forall|i: int, j: int| 0 <= i < j < recs.len() ==> #[trigger] recs[i].key != #[trigger] recs[j].key,
        forall|i: int| 0 <= i < sizes.len() ==> #[trigger] sizes[i] is Some,
        sum_sizes(sizes) <= max_size,
        recs.len() <= max_files,
    ensures
        ({
            let st = restored((Seq::empty(), 0, 0), max_size, max_files, recs, sizes);
            &&& st.0.0 == recs.map_values(|r: IndexRecordV| record_entry(r))
            &&& st.0.1 == sum_sizes(sizes)
            &&& st.0.2 == recs.len()
            &&& st.1 == Seq::new(recs.len(), |i: int| true)
        }),
    decreases recs.len(),
{
    let st = restored((Seq::empty(), 0, 0), max_size, max_files, recs, sizes);
    if recs.len() == 0 {
        assert(recs.map_values(|r: IndexRecordV| record_entry(r)) =~= Seq::<(Seq<char>, FileEntryV)>::empty());
        assert(st.1 =~= Seq::new(recs.len(), |i: int| true));
    } else {
        let r0 = recs.drop_last();
        let s0 = sizes.drop_last();
        assert forall|i: int, j: int| 0 <= i < j < r0.len() implies #[trigger] r0[i].key != #[trigger] r0[j].key by {
            assert(r0[i] == recs[i] && r0[j] == recs[j]);
        }
        assert forall|i: int| 0 <= i < s0.len() implies #[trigger] s0[i] is Some by {
            assert(s0[i] == sizes[i]);
        }
        lemma_sum_sizes_nonneg(s0);
        assert(sizes[sizes.len() - 1] is Some);
        lemma_restore_keeps_entries(r0, s0, max_size, max_files);
        let prev = restored((Seq::empty(), 0, 0), max_size, max_files, r0, s0);
        let e = prev.0.0;
        let last = recs.last();
        assert(e == r0.map_values(|r: IndexRecordV| record_entry(r)));
        assert(lru_index(e, last.key) is None) by {
            if exists|i: int| 0 <= i < e.len() && e[i].0 == last.key {
                let i = choose|i: int| 0 <= i < e.len() && e[i].0 == last.key;
                assert(e[i] == record_entry(recs[i]));
                assert(recs[recs.len() - 1] == last);
            }
        }
        assert(st.0.0 =~= recs.map_values(|r: IndexRecordV| record_entry(r)));
        assert(st.1 =~= Seq::new(recs.len(), |i: int| true));
    }
}

proof fn lemma_sum_sizes_nonneg(sizes: Seq<Option<u64>>)
    ensures
        sum_sizes(sizes) >= 0,
    decreases sizes.len(),
{
    if sizes.len() > 0 {
        lemma_sum_sizes_nonneg(sizes.drop_last());
    }
}

/// Making room for a file that fits the cache: where the index counts
/// exactly its entries, an empty index holds no bytes, and at least one
/// file is allowed, the run of `evict_step` ends (gives nothing back) only
/// once room is made.
pub proof fn lemma_evict_ends_with_room(idx: CacheIndex, new_size: u64)
    requires
        idx.num_files == idx.entries().len(),
        idx.entries().len() == 0 ==> idx.size == 0,
        new_size <= idx.max_size,
        idx.max_files >= 1,
        !(idx.room_needed(new_size) && idx.entries().len() > 0),
    ensures
        !idx.room_needed(new_size),
{
}

/// Once no more room is needed for a file of `new_size` bytes, adding it
/// leaves the cache within both of its limits.
pub proof fn lemma_add_within_limits(before: CacheIndex, after: CacheIndex, new_size: u64)
    requires
        !before.room_needed(new_size),
        after.size == before.size + new_size,
        after.num_files == before.num_files + 1,
        after.max_size == before.max_size,
        after.max_files == before.max_files,
    ensures
        after.size <= after.max_size,
        after.num_files <= after.max_files,
{
}

} // verus!
