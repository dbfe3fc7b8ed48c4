//! The records of a stored (uncompressed) ZIP archive that is written as a
//! stream: local file headers, data descriptors, the central directory and
//! its end record, with DOS dates and the archive's size known in advance.
use vstd::prelude::*;
use bytes::BufMut;
use vstd::utf8::encode_utf8;
use crate::util::{path_file_name, spec_path_file_name};

verus! {

pub const DIRECTORY_END_SIZE: u32 = 22;
pub const FILE_HEADER_SIZE: u32 = 30;
pub const DATA_DESCRIPTOR_SIZE: u32 = 16;
pub const DIRECTORY_ENTRY_SIZE: u32 = 46;

pub const LOCAL_FILE_HEADER_SIGNATURE: u32 = 0x04034b50;
pub const CENTRAL_DIRECTORY_HEADER_SIGNATURE: u32 = 0x02014b50;
pub const CENTRAL_DIRECTORY_END_SIGNATURE: u32 = 0x06054b50;
pub const DATA_DESCRIPTOR_SIGNATURE: u32 = 0x08074b50;

pub const MIN_VERSION: u16 = 20;
pub const FLAGS: u16 = 0x0808;
pub const COMPRESS_STORE: u16 = 0;

/// Why a record cannot be written.
#[derive(Clone, Copy, Debug, PartialEq, Eq)]
pub enum ZipError {
    /// The year lies outside the DOS range 1980 - 2107.
    InvalidYear(i32),
    /// A file is over 4 GB.
    FileTooBig(u64),
    /// A file name is longer than 65535 bytes.
    FileNameTooBig,
    /// The archive is over 4 GB.
    ArchiveTooBig,
    /// A path without a file name.
    InvalidPath,
}

// ---------------------------------------------------------------------
// byte buffer of the `bytes` crate

#[verifier::external_type_specification]
#[verifier::external_body]
pub struct ExBytesMut(bytes::BytesMut);

/// The bytes a `BytesMut` holds.
pub uninterp spec fn bytes_mut_contents(b: bytes::BytesMut) -> Seq<u8>;

/// `BytesMut::with_capacity`: an empty buffer.
#[verifier::external_body]
fn bytes_with_capacity(capacity: usize) -> (r: bytes::BytesMut)
    requires
        capacity <= isize::MAX,
    ensures
        bytes_mut_contents(r) == Seq::<u8>::empty(),
{
    bytes::BytesMut::with_capacity(capacity)
}

/// `BufMut::put_u16_le` of `BytesMut`: appends the two bytes of `n`, low first.
#[verifier::external_body]
fn put_u16_le(b: &mut bytes::BytesMut, n: u16)
    requires
        bytes_mut_contents(*old(b)).len() + 2 <= isize::MAX,
    ensures
        bytes_mut_contents(*final(b)) == bytes_mut_contents(*old(b)) + le16(n),
{
    b.put_u16_le(n)
}

/// `BufMut::put_u32_le` of `BytesMut`: appends the four bytes of `n`, low first.
#[verifier::external_body]
fn put_u32_le(b: &mut bytes::BytesMut, n: u32)
    requires
        bytes_mut_contents(*old(b)).len() + 4 <= isize::MAX,
    ensures
        bytes_mut_contents(*final(b)) == bytes_mut_contents(*old(b)) + le32(n),
{
    b.put_u32_le(n)
}

/// `BufMut::put_slice` of `BytesMut`: appends the bytes of `src`.
#[verifier::external_body]
fn put_slice(b: &mut bytes::BytesMut, src: &[u8])
    requires
        bytes_mut_contents(*old(b)).len() + src@.len() <= isize::MAX,
    ensures
        bytes_mut_contents(*final(b)) == bytes_mut_contents(*old(b)) + src@,
{
    b.put_slice(src)
}

/// `BytesMut::len`: the number of bytes held.
#[verifier::external_body]
fn bytes_len(b: &bytes::BytesMut) -> (r: usize)
    ensures
        r == bytes_mut_contents(*b).len(),
{
    b.len()
}

/// `<[u8]>::to_vec` of the bytes held.
#[verifier::external_body]
fn bytes_to_vec(b: &bytes::BytesMut) -> (r: Vec<u8>)
    ensures
        r@ == bytes_mut_contents(*b),
{
    b.to_vec()
}

/// The two bytes of `v`, least significant first.
pub open spec fn le16(v: u16) -> Seq<u8> {
    seq![(v % 256) as u8, (v / 256) as u8]
}

/// The four bytes of `v`, least significant first.
pub open spec fn le32(v: u32) -> Seq<u8> {
    seq![(v % 256) as u8, ((v / 256) % 256) as u8, ((v / 65536) % 256) as u8, (v / 16777216) as u8]
}

// ---------------------------------------------------------------------
// DOS time stamps

/// A local date and time, as a calendar gives it.
#[derive(Clone, Copy, Debug, PartialEq, Eq)]
pub struct Timestamp {
    pub year: i32,
    pub month: u32,
    pub day: u32,
    pub hour: u32,
    pub minute: u32,
    pub second: u32,
}

impl Timestamp {
    /// Whether the fields form a calendar date and a time of day.
    pub open spec fn is_valid(&self) -> bool {
        1 <= self.month <= 12 && 1 <= self.day <= 31 && self.hour < 24 && self.minute < 60
            && self.second < 60
    }

    /// A time stamp from its fields, where they are in range.
    pub fn from_parts(year: i32, month: u32, day: u32, hour: u32, minute: u32, second: u32) -> (r:
        Option<Timestamp>)
        ensures
            match r {
                Some(t) => t.is_valid() && t == (Timestamp { year, month, day, hour, minute, second }),
                None => !(Timestamp { year, month, day, hour, minute, second }).is_valid(),
            },
    {
        let t = Timestamp { year, month, day, hour, minute, second };
        if month >= 1 && month <= 12 && day >= 1 && day <= 31 && hour < 24 && minute < 60
            && second < 60 {
            Some(t)
        } else {
            None
        }
    }

    /// The DOS time: seconds / 2 in bits 0-4, minutes in 5-10, hours in 11-15.
    pub open spec fn spec_dos_timepart(&self) -> u16 {
        (self.second / 2 + self.minute * 32 + self.hour * 2048) as u16
    }

    /// The DOS date: day in bits 0-4, month in 5-8, years since 1980 in 9-15.
    pub open spec fn spec_dos_datepart(&self) -> Result<u16, ZipError> {
        if self.year < 1980 || self.year > 2107 {
            Err(ZipError::InvalidYear(self.year))
        } else {
            Ok((self.day + self.month * 32 + (self.year - 1980) * 512) as u16)
        }
    }

    pub fn dos_timepart(&self) -> (r: u16)
        requires
            self.is_valid(),
        ensures
            r == self.spec_dos_timepart(),
    {
        let s = self.second as u16;
        let m = self.minute as u16;
        let h = self.hour as u16;
        let r = (s >> 1) | (m << 5) | (h << 11);
        assert(r == s / 2 + m * 32 + h * 2048) by (bit_vector)
            requires
                s < 60,
                m < 60,
                h < 24,
                r == (s >> 1) | (m << 5) | (h << 11),
        ;
        r
    }

    pub fn dos_datepart(&self) -> (r: Result<u16, ZipError>)
        requires
            self.is_valid(),
        ensures
            r == self.spec_dos_datepart(),
    {
        if self.year < 1980 || self.year > 2107 {
            return Err(ZipError::InvalidYear(self.year));
        }
        let d = self.day as u16;
        let m = self.month as u16;
        let y = (self.year - 1980) as u16;
        let r = d | (m << 5) | (y << 9);
        assert(r == d + m * 32 + y * 512) by (bit_vector)
            requires
                d < 32,
                m < 16,
                y < 128,
                r == d | (m << 5) | (y << 9),
        ;
        Ok(r)
    }
}


// ---------------------------------------------------------------------
// records

/// A record that can be written as bytes.
pub trait ToBytes {
    /// The bytes of the record, or why it cannot be written.
    spec fn spec_to_bytes(&self) -> Result<Seq<u8>, ZipError>;

    /// Whether the record is complete enough to be written.
    spec fn ready(&self) -> bool;

    fn to_bytes(&self) -> (r: Result<Vec<u8>, ZipError>)
        requires
            self.ready(),
        ensures
            match self.spec_to_bytes() {
                Ok(b) => r matches Ok(v) && v@ == b,
                Err(e) => r matches Err(x) && x == e,
            },
    ;
}

/// The local file header of a file named `name` (as UTF-8 bytes).
pub open spec fn local_header_bytes(name: Seq<u8>, time: u16, date: u16) -> Seq<u8> {
    le32(LOCAL_FILE_HEADER_SIGNATURE) + le16(MIN_VERSION) + le16(FLAGS) + le16(COMPRESS_STORE)
        + le16(time) + le16(date) + le32(0) + le32(0) + le32(0) + le16(name.len() as u16) + le16(
        0,
    ) + name
}

/// The data descriptor of a file of `size` bytes with checksum `crc`.
pub open spec fn descriptor_bytes(size: u32, crc: u32) -> Seq<u8> {
    le32(DATA_DESCRIPTOR_SIGNATURE) + le32(crc) + le32(size) + le32(size)
}

/// The central directory entry of one file.
pub open spec fn directory_entry_bytes(
    name: Seq<u8>,
    time: u16,
    date: u16,
    crc: u32,
    size: u32,
    offset: u32,
) -> Seq<u8> {
    le32(CENTRAL_DIRECTORY_HEADER_SIGNATURE) + le16(MIN_VERSION) + le16(MIN_VERSION) + le16(FLAGS)
        + le16(COMPRESS_STORE) + le16(time) + le16(date) + le32(crc) + le32(size) + le32(size)
        + le16(name.len() as u16) + le16(0) + le16(0) + le16(0) + le16(0) + le32(0) + le32(offset)
        + name
}

/// The end record of a central directory.
pub open spec fn directory_end_bytes(number_of_files: u16, dir_size: u32, dir_offset: u32) -> Seq<
    u8,
> {
    le32(CENTRAL_DIRECTORY_END_SIGNATURE) + le16(0) + le16(0) + le16(number_of_files) + le16(
        number_of_files,
    ) + le32(dir_size) + le32(dir_offset) + le16(0)
}

/// The local header of one file.
pub struct FileHeader {
    file_name: String,
    modified: Timestamp,
}

impl FileHeader {
    #[verifier::type_invariant]
    spec fn valid_time(&self) -> bool {
        self.modified.is_valid()
    }

    /// The file name.
    pub closed spec fn name(&self) -> Seq<char> {
        self.file_name@
    }

    /// The modification time.
    pub closed spec fn modified(&self) -> Timestamp {
        self.modified
    }

    /// A header for the file name of `path`.
    pub fn new(path: &str, modified: Timestamp) -> (r: Result<FileHeader, ZipError>)
        requires
            modified.is_valid(),
        ensures
            match spec_path_file_name(path@) {
                Some(n) => r matches Ok(h) && h.name() == n && h.modified() == modified,
                None => r matches Err(e) && e == ZipError::InvalidPath,
            },
    {
        match path_file_name(path) {
            Some(file_name) => Ok(FileHeader { file_name, modified }),
            None => Err(ZipError::InvalidPath),
        }
    }
}

impl ToBytes for FileHeader {
    closed spec fn spec_to_bytes(&self) -> Result<Seq<u8>, ZipError> {
        let name = encode_utf8(self.file_name@);
        match self.modified.spec_dos_datepart() {
            Err(e) => Err(e),
            Ok(date) => if name.len() > 0xffff {
                Err(ZipError::FileNameTooBig)
            } else {
                Ok(local_header_bytes(name, self.modified.spec_dos_timepart(), date))
            },
        }
    }

    open spec fn ready(&self) -> bool {
        true
    }

    fn to_bytes(&self) -> (r: Result<Vec<u8>, ZipError>) {
        proof {
            use_type_invariant(self);
        }
        let name = self.file_name.as_str().as_bytes();
        let time = self.modified.dos_timepart();
        let date = match self.modified.dos_datepart() {
            Ok(d) => d,
            Err(e) => return Err(e),
        };
        if name.len() > 0xffff {
            return Err(ZipError::FileNameTooBig);
        }
        let mut h = bytes_with_capacity(FILE_HEADER_SIZE as usize + name.len());
        put_u32_le(&mut h, LOCAL_FILE_HEADER_SIGNATURE);
        put_u16_le(&mut h, MIN_VERSION);
        put_u16_le(&mut h, FLAGS);
        put_u16_le(&mut h, COMPRESS_STORE);
        put_u16_le(&mut h, time);
        put_u16_le(&mut h, date);
        put_u32_le(&mut h, 0);
        put_u32_le(&mut h, 0);
        put_u32_le(&mut h, 0);
        put_u16_le(&mut h, name.len() as u16);
        put_u16_le(&mut h, 0);
        put_slice(&mut h, name);
        let v = bytes_to_vec(&h);
        proof {
            assert(v@ =~= local_header_bytes(name@, time, date));
        }
        Ok(v)
    }
}

/// The data descriptor that follows the data of one file.
pub struct Descriptor {
    size: u64,
    crc: u32,
}

impl Descriptor {
    pub closed spec fn size(&self) -> u64 {
        self.size
    }

    pub closed spec fn crc(&self) -> u32 {
        self.crc
    }

    pub fn new(size: u64, crc: u32) -> (r: Descriptor)
        ensures
            r.size() == size && r.crc() == crc,
    {
        Descriptor { size, crc }
    }
}

impl ToBytes for Descriptor {
    closed spec fn spec_to_bytes(&self) -> Result<Seq<u8>, ZipError> {
        if self.size > u32::MAX {
            Err(ZipError::FileTooBig(self.size))
        } else {
            Ok(descriptor_bytes(self.size as u32, self.crc))
        }
    }

    open spec fn ready(&self) -> bool {
        true
    }

    fn to_bytes(&self) -> (r: Result<Vec<u8>, ZipError>) {
        let mut d = bytes_with_capacity(DATA_DESCRIPTOR_SIZE as usize);
        if self.size > u32::MAX as u64 {
            return Err(ZipError::FileTooBig(self.size));
        }
        put_u32_le(&mut d, DATA_DESCRIPTOR_SIGNATURE);
        put_u32_le(&mut d, self.crc);
        put_u32_le(&mut d, self.size as u32);
        put_u32_le(&mut d, self.size as u32);
        let v = bytes_to_vec(&d);
        proof {
            assert(v@ =~= descriptor_bytes(self.size as u32, self.crc));
        }
        Ok(v)
    }
}

/// The central directory entry of one file.
pub struct DirectoryEntry {
    header: FileHeader,
    desc: Descriptor,
    offset: u64,
}

/// The bytes of one entry, or why it cannot be written: a year out of
/// range, a file over 4 GB, a name over 65535 bytes, an offset over 4 GB.
pub closed spec fn spec_entry_bytes(e: DirectoryEntry) -> Result<Seq<u8>, ZipError> {
    let name = encode_utf8(e.header.file_name@);
    match e.header.modified.spec_dos_datepart() {
        Err(x) => Err(x),
        Ok(date) => if e.desc.size > u32::MAX {
            Err(ZipError::FileTooBig(e.desc.size))
        } else if name.len() > 0xffff {
            Err(ZipError::FileNameTooBig)
        } else if e.offset > u32::MAX {
            Err(ZipError::ArchiveTooBig)
        } else {
            Ok(
                directory_entry_bytes(
                    name,
                    e.header.modified.spec_dos_timepart(),
                    date,
                    e.desc.crc,
                    e.desc.size as u32,
                    e.offset as u32,
                ),
            )
        },
    }
}

/// The bytes of a data descriptor: the signature `PK 07 08`, the checksum
/// and the size twice; a file over 4 GB cannot be described.
pub proof fn lemma_descriptor_bytes(d: &Descriptor)
    ensures
        d.spec_to_bytes() == (if d.size() > u32::MAX {
            Err::<Seq<u8>, ZipError>(ZipError::FileTooBig(d.size()))
        } else {
            Ok(descriptor_bytes(d.size() as u32, d.crc()))
        }),
{
}

/// The bytes of a local file header: its fixed fields, the DOS time and
/// date of its modification, and the UTF-8 name.
pub proof fn lemma_header_bytes(h: &FileHeader)
    ensures
        h.spec_to_bytes() == (match h.modified().spec_dos_datepart() {
            Err(e) => Err(e),
            Ok(date) => if encode_utf8(h.name()).len() > 0xffff {
                Err(ZipError::FileNameTooBig)
            } else {
                Ok(local_header_bytes(encode_utf8(h.name()), h.modified().spec_dos_timepart(), date))
            },
        }),
{
}

/// The bytes of the directory entry of a file with header `h` and
/// descriptor `d` whose local header starts at `offset`.
pub proof fn lemma_entry_bytes(h: FileHeader, d: Descriptor, offset: u64)
    ensures
        spec_entry_bytes(entry_of(h, d, offset)) == (match h.modified().spec_dos_datepart() {
            Err(x) => Err(x),
            Ok(date) => if d.size() > u32::MAX {
                Err(ZipError::FileTooBig(d.size()))
            } else if encode_utf8(h.name()).len() > 0xffff {
                Err(ZipError::FileNameTooBig)
            } else if offset > u32::MAX {
                Err(ZipError::ArchiveTooBig)
            } else {
                Ok(directory_entry_bytes(
                    encode_utf8(h.name()),
                    h.modified().spec_dos_timepart(),
                    date,
                    d.crc(),
                    d.size() as u32,
                    offset as u32,
                ))
            },
        }),
{
}

/// The entry of a file whose local header starts at `offset`.
pub closed spec fn entry_of(header: FileHeader, desc: Descriptor, offset: u64) -> DirectoryEntry {
    DirectoryEntry { header, desc, offset }
}

/// Upper bound of the bytes of one entry.
pub open spec fn max_entry_len() -> int {
    46int + 0xffff
}

impl DirectoryEntry {
    /// The bytes the entry reserves in the directory buffer.
    fn size(&self) -> (r: u32)
        ensures
            r == (encode_utf8(self.header.file_name@).len() + DIRECTORY_END_SIZE) % 0x1_0000_0000,
    {
        let n = self.header.file_name.as_str().as_bytes().len() as u64;
        proof {
            vstd::arithmetic::div_mod::lemma_add_mod_noop(n as int, 22, 0x1_0000_0000);
        }
        (((n % 0x1_0000_0000) + DIRECTORY_END_SIZE as u64) % 0x1_0000_0000) as u32
    }

    #[verifier::rlimit(40)]
    #[verifier::spinoff_prover]
    fn add_to_bytes(&self, buf: &mut bytes::BytesMut) -> (r: Result<(), ZipError>)
        requires
            bytes_mut_contents(*old(buf)).len() + max_entry_len() <= isize::MAX,
        ensures
            match spec_entry_bytes(*self) {
                Ok(b) => r is Ok && bytes_mut_contents(*final(buf)) == bytes_mut_contents(*old(buf)) + b,
                Err(e) => r matches Err(x) && x == e,
            },
    {
        proof {
            use_type_invariant(&self.header);
        }
        let ghost start = bytes_mut_contents(*buf);
        let name = self.header.file_name.as_str().as_bytes();
        let time = self.header.modified.dos_timepart();
        put_u32_le(buf, CENTRAL_DIRECTORY_HEADER_SIGNATURE);
        put_u16_le(buf, MIN_VERSION);
        put_u16_le(buf, MIN_VERSION);
        put_u16_le(buf, FLAGS);
        put_u16_le(buf, COMPRESS_STORE);
        put_u16_le(buf, time);
        let date = match self.header.modified.dos_datepart() {
            Ok(d) => d,
            Err(e) => return Err(e),
        };
        put_u16_le(buf, date);
        put_u32_le(buf, self.desc.crc);
        if self.desc.size > u32::MAX as u64 {
            return Err(ZipError::FileTooBig(self.desc.size));
        }
        put_u32_le(buf, self.desc.size as u32);
        put_u32_le(buf, self.desc.size as u32);
        if name.len() > 0xffff {
            return Err(ZipError::FileNameTooBig);
        }
        put_u16_le(buf, name.len() as u16);
        put_u16_le(buf, 0);
        put_u16_le(buf, 0);
        put_u16_le(buf, 0);
        put_u16_le(buf, 0);
        put_u32_le(buf, 0);
        if self.offset > u32::MAX as u64 {
            return Err(ZipError::ArchiveTooBig);
        }
        put_u32_le(buf, self.offset as u32);
        put_slice(buf, name);
        proof {
            assert(bytes_mut_contents(*buf) =~= start + directory_entry_bytes(
                name@,
                time,
                date,
                self.desc.crc,
                self.desc.size as u32,
                self.offset as u32,
            ));
        }
        Ok(())
    }
}

/// The entries' bytes one after another; the first error of an entry wins.
pub open spec fn spec_entries_bytes(es: Seq<DirectoryEntry>) -> Result<Seq<u8>, ZipError>
    decreases es.len(),
{
    if es.len() == 0 {
        Ok(Seq::empty())
    } else {
        match spec_entries_bytes(es.drop_last()) {
            Err(x) => Err(x),
            Ok(b) => match spec_entry_bytes(es.last()) {
                Err(x) => Err(x),
                Ok(eb) => Ok(b + eb),
            },
        }
    }
}

/// The central directory: one entry per file written, then the end record.
pub struct Directory {
    entries: Vec<DirectoryEntry>,
    offset: Option<u64>,
}

impl Directory {
    pub closed spec fn entries(&self) -> Seq<DirectoryEntry> {
        self.entries@
    }

    pub closed spec fn offset(&self) -> Option<u64> {
        self.offset
    }

    pub fn new() -> (r: Directory)
        ensures
            r.entries() == Seq::<DirectoryEntry>::empty(),
            r.offset() is None,
    {
        Directory { entries: Vec::new(), offset: None }
    }

    /// Records a file whose local header starts at `offset`.
    pub fn add_entry(&mut self, header: FileHeader, desc: Descriptor, offset: u64)
        ensures
            final(self).entries() == old(self).entries().push(entry_of(header, desc, offset)),
            final(self).offset() == old(self).offset(),
    {
        self.entries.push(DirectoryEntry { header, desc, offset })
    }

    /// The directory's bytes, for a directory that starts at `offset`.
    pub fn finalize(self, offset: u64) -> (r: Result<Vec<u8>, ZipError>)
        requires
            self.entries().len() * max_entry_len() + 22 <= isize::MAX,
        ensures
            match spec_directory_bytes(self.entries(), offset) {
                Ok(b) => r matches Ok(v) && v@ == b,
                Err(e) => r matches Err(x) && x == e,
            },
    {
        let mut d = self;
        d.offset = Some(offset);
        d.to_bytes()
    }
}

/// The bytes of a directory of `es` that starts at `offset`.
pub open spec fn spec_directory_bytes(es: Seq<DirectoryEntry>, offset: u64) -> Result<Seq<u8>, ZipError> {
    match spec_entries_bytes(es) {
        Err(x) => Err(x),
        Ok(b) => if offset > u32::MAX {
            Err(ZipError::ArchiveTooBig)
        } else {
            Ok(
                b + directory_end_bytes(
                    (es.len() % 0x10000) as u16,
                    (b.len() % 0x1_0000_0000) as u32,
                    offset as u32,
                ),
            )
        },
    }
}

proof fn lemma_entry_len(e: DirectoryEntry)
    ensures
        spec_entry_bytes(e) matches Ok(b) ==> b.len() <= max_entry_len(),
{
}

proof fn lemma_entries_len(es: Seq<DirectoryEntry>)
    ensures
        spec_entries_bytes(es) matches Ok(b) ==> b.len() <= es.len() * max_entry_len(),
    decreases es.len(),
{
    if es.len() > 0 {
        lemma_entries_len(es.drop_last());
        lemma_entry_len(es.last());
        let n = es.len();
        assert((n - 1) * max_entry_len() + max_entry_len() == n * max_entry_len()) by (nonlinear_arith);
    }
}

/// An entry that cannot be written spoils every directory that holds it
/// after entries that can.
proof fn lemma_entries_err_prefix(es: Seq<DirectoryEntry>, k: int)
    requires
        0 <= k <= es.len(),
        spec_entries_bytes(es.subrange(0, k)) is Err,
    ensures
        spec_entries_bytes(es) == spec_entries_bytes(es.subrange(0, k)),
    decreases es.len() - k,
{
    if k == es.len() {
        assert(es.subrange(0, k) =~= es);
    } else {
        assert(es.subrange(0, k + 1).drop_last() =~= es.subrange(0, k));
        lemma_entries_err_prefix(es, k + 1);
    }
}

impl ToBytes for Directory {
    open spec fn spec_to_bytes(&self) -> Result<Seq<u8>, ZipError> {
        spec_directory_bytes(self.entries(), self.offset().unwrap())
    }

    open spec fn ready(&self) -> bool {
        &&& self.offset() is Some
        &&& self.entries().len() * max_entry_len() + 22 <= isize::MAX
    }

    #[verifier::rlimit(40)]
    fn to_bytes(&self) -> (r: Result<Vec<u8>, ZipError>) {
        let num_files = self.entries.len();
        let mut d = bytes_with_capacity(DIRECTORY_END_SIZE as usize);
        let ghost es = self.entries@;
        let mut i: usize = 0;
        proof {
            assert(es.subrange(0, 0) =~= Seq::<DirectoryEntry>::empty());
        }
        while i < num_files
            invariant
                num_files == es.len(),
                es == self.entries@,
                i <= num_files,
                num_files * max_entry_len() + 22 <= isize::MAX,
                spec_entries_bytes(es.subrange(0, i as int)) == Ok::<Seq<u8>, ZipError>(
                    bytes_mut_contents(d),
                ),
            decreases num_files - i,
        {
            proof {
                lemma_entries_len(es.subrange(0, i as int));
                assert(i * max_entry_len() + max_entry_len() <= num_files * max_entry_len()) by (nonlinear_arith)
                    requires
                        i < num_files,
                ;
                assert(es.subrange(0, i + 1).drop_last() =~= es.subrange(0, i as int));
                assert(es.subrange(0, i + 1).last() == es[i as int]);
            }
            match self.entries[i].add_to_bytes(&mut d) {
                Ok(()) => {},
                Err(e) => {
                    proof {
                        lemma_entries_err_prefix(es, i + 1);
                    }
                    return Err(e);
                },
            }
            i += 1;
        }
        proof {
            assert(es.subrange(0, num_files as int) =~= es);
            lemma_entries_len(es);
        }
        let dir_size = bytes_len(&d);
        let offset = match self.offset {
            Some(o) => o,
            None => 0,
        };
        if offset > u32::MAX as u64 {
            return Err(ZipError::ArchiveTooBig);
        }
        let ghost entries_bytes = bytes_mut_contents(d);
        let number_of_files = (num_files % 0x10000) as u16;
        let dir_size32 = (dir_size as u64 % 0x1_0000_0000) as u32;
        put_u32_le(&mut d, CENTRAL_DIRECTORY_END_SIGNATURE);
        put_u16_le(&mut d, 0);
        put_u16_le(&mut d, 0);
        put_u16_le(&mut d, number_of_files);
        put_u16_le(&mut d, number_of_files);
        put_u32_le(&mut d, dir_size32);
        put_u32_le(&mut d, offset as u32);
        put_u16_le(&mut d, 0);
        let v = bytes_to_vec(&d);
        proof {
            assert(v@ =~= entries_bytes + directory_end_bytes(number_of_files, dir_size32, offset as u32));
        }
        Ok(v)
    }
}

// ---------------------------------------------------------------------
// archive size

/// Bytes that an archive spends on a file whose name has `name_len` bytes
/// and whose data has `size` bytes: local header, data, descriptor and
/// directory entry.
pub open spec fn file_cost(name_len: int, size: int) -> int {
    FILE_HEADER_SIZE + 2 * name_len + size + DATA_DESCRIPTOR_SIZE + DIRECTORY_ENTRY_SIZE
}

/// The size of an archive of the given files (path and data size), or
/// `InvalidPath` for the first path without a file name.
pub open spec fn spec_calc_size(files: Seq<(Seq<char>, u64)>) -> Result<int, ZipError>
    decreases files.len(),
{
    if files.len() == 0 {
        Ok(DIRECTORY_END_SIZE as int)
    } else {
        match spec_calc_size(files.drop_last()) {
            Err(x) => Err(x),
            Ok(total) => match spec_path_file_name(files.last().0) {
                None => Err(ZipError::InvalidPath),
                Some(n) => Ok(total + file_cost(encode_utf8(n).len() as int, files.last().1 as int)),
            },
        }
    }
}

/// What the sizes of an archive of the given files can add up to at most.
pub open spec fn calc_size_bound(files: Seq<(Seq<char>, u64)>) -> int
    decreases files.len(),
{
    if files.len() == 0 {
        DIRECTORY_END_SIZE as int
    } else {
        calc_size_bound(files.drop_last()) + file_cost(
            encode_utf8(files.last().0).len() as int,
            files.last().1 as int,
        )
    }
}

pub open spec fn files_view(files: Seq<(String, u64)>) -> Seq<(Seq<char>, u64)> {
    files.map_values(|f: (String, u64)| (f.0@, f.1))
}

proof fn lemma_calc_size_err_prefix(files: Seq<(Seq<char>, u64)>, k: int)
    requires
        0 <= k <= files.len(),
        spec_calc_size(files.subrange(0, k)) is Err,
    ensures
        spec_calc_size(files) == spec_calc_size(files.subrange(0, k)),
    decreases files.len() - k,
{
    if k == files.len() {
        assert(files.subrange(0, k) =~= files);
    } else {
        assert(files.subrange(0, k + 1).drop_last() =~= files.subrange(0, k));
        lemma_calc_size_err_prefix(files, k + 1);
    }
}

proof fn lemma_bound_monotone(files: Seq<(Seq<char>, u64)>, i: int)
    requires
        0 <= i <= files.len(),
    ensures
        calc_size_bound(files.subrange(0, i)) <= calc_size_bound(files),
    decreases files.len() - i,
{
    if i < files.len() {
        lemma_bound_monotone(files, i + 1);
        assert(files.subrange(0, i + 1).drop_last() =~= files.subrange(0, i));
    } else {
        assert(files.subrange(0, i) =~= files);
    }
}

/// The size of a stored archive of files with the given paths and sizes.
pub fn calc_size(sizes: &Vec<(String, u64)>) -> (r: Result<u64, ZipError>)
    requires
        calc_size_bound(files_view(sizes@)) <= u64::MAX,
    ensures
        match spec_calc_size(files_view(sizes@)) {
            Ok(t) => r == Ok::<u64, ZipError>(t as u64),
            Err(e) => r == Err::<u64, ZipError>(e),
        },
{
    let ghost fs = files_view(sizes@);
    let mut total: u64 = DIRECTORY_END_SIZE as u64;
    let mut i: usize = 0;
    proof {
        assert(fs.subrange(0, 0) =~= Seq::<(Seq<char>, u64)>::empty());
    }
    while i < sizes.len()
        invariant
            i <= sizes@.len(),
            fs == files_view(sizes@),
            calc_size_bound(fs) <= u64::MAX,
            spec_calc_size(fs.subrange(0, i as int)) == Ok::<int, ZipError>(total as int),
            total <= calc_size_bound(fs.subrange(0, i as int)),
        decreases sizes@.len() - i,
    {
        let (path, sz) = &sizes[i];
        let ghost pre = fs.subrange(0, i + 1);
        proof {
            assert(pre.drop_last() =~= fs.subrange(0, i as int));
            assert(pre.last() == (path@, *sz));
            lemma_bound_monotone(fs, i + 1);
        }
        let name = match path_file_name(path.as_str()) {
            Some(n) => n,
            None => {
                proof {
                    lemma_calc_size_err_prefix(fs, i + 1);
                }
                return Err(ZipError::InvalidPath);
            },
        };
        let name_len = name.as_str().as_bytes().len() as u64;
        proof {
            assert(spec_path_file_name(pre.last().0) == Some(name@));
            assert(name_len == encode_utf8(name@).len());
            assert(spec_calc_size(pre) == Ok::<int, ZipError>(
                total + file_cost(encode_utf8(name@).len() as int, *sz as int),
            ));
        }
        total = total + FILE_HEADER_SIZE as u64 + 2 * name_len + *sz + DATA_DESCRIPTOR_SIZE as u64
            + DIRECTORY_ENTRY_SIZE as u64;
        i += 1;
    }
    proof {
        assert(fs.subrange(0, i as int) =~= fs);
    }
    Ok(total)
}

/// The size computed for an archive is the length of what is sent for it:
/// with no file, the end record of the directory; each further file adds
/// its local header, its data, its data descriptor and its entry in the
/// directory, whatever their times, checksum and offset, so its name is
/// counted twice, in the header and in the entry. A path without a file
/// name is refused.
pub proof fn lemma_calc_size_is_sent_length(
    files: Seq<(Seq<char>, u64)>,
    path: Seq<char>,
    size: u64,
    time: u16,
    date: u16,
    crc: u32,
    offset: u32,
    count: u16,
    dir_size: u32,
)
    ensures
        spec_calc_size(Seq::empty()) == Ok::<int, ZipError>(directory_end_bytes(count, dir_size, offset).len() as int),
        spec_calc_size(files) is Ok && spec_path_file_name(path) is Some ==> spec_calc_size(files.push((path, size)))
            == Ok::<int, ZipError>(
            spec_calc_size(files)->Ok_0 + local_header_bytes(encode_utf8(spec_path_file_name(path)->Some_0), time, date).len()
                + size + descriptor_bytes(size as u32, crc).len() + directory_entry_bytes(
                encode_utf8(spec_path_file_name(path)->Some_0),
                time,
                date,
                crc,
                size as u32,
                offset,
            ).len(),
        ),
        spec_calc_size(files) is Ok && spec_path_file_name(path) is None ==> spec_calc_size(files.push((path, size)))
            == Err::<int, ZipError>(ZipError::InvalidPath),
        spec_calc_size(files) is Err ==> spec_calc_size(files.push((path, size))) == spec_calc_size(files),
{
    assert(files.push((path, size)).drop_last() =~= files);
    assert(files.push((path, size)).last() == (path, size));
    assert(Seq::<(Seq<char>, u64)>::empty().len() == 0);
}

} // verus!
