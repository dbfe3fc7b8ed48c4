//! A tar archive sent as a stream: for each file a 512-byte header, its data
//! padded to whole 512-byte blocks, and two empty blocks at the end. Only the
//! file name is stored, cut to fit the basic header.
use vstd::prelude::*;
use crate::util::{path_extension, path_file_name, spec_path_extension, spec_path_file_name};

verus! {

/// The size of a tar block.
pub const BLOCK: u64 = 512;
/// The size of the buffer of file data; a multiple of `BLOCK`.
pub const BUFFER_LENGTH: usize = 8192;
/// The longest file name in a basic tar header.
pub const PATH_MAX_LEN: usize = 100;

/// The size in the archive of a file of `size` bytes: a header block and
/// its data in whole blocks.
pub open spec fn file_blocks_size(size: int) -> int {
    512 + 512 * ((size + 511) / 512)
}

/// The size of an archive of files of the sizes `sizes`: their blocks and
/// two empty blocks.
pub open spec fn tar_size(sizes: Seq<u64>) -> int
    decreases sizes.len(),
{
    if sizes.len() == 0 {
        1024
    } else {
        tar_size(sizes.drop_last()) + file_blocks_size(sizes.last() as int)
    }
}

/// Whether computing the size stays within `u64`.
pub open spec fn tar_size_fits(sizes: Seq<u64>) -> bool {
    &&& tar_size(sizes) <= u64::MAX
    &&& forall|i: int| 0 <= i < sizes.len() ==> #[trigger] sizes[i] + 511 <= u64::MAX
}

proof fn lemma_tar_size_grows(sizes: Seq<u64>, k: int)
    requires
        0 <= k <= sizes.len(),
    ensures
        tar_size(sizes.take(k)) <= tar_size(sizes),
        tar_size(sizes.take(k)) >= 1024,
    decreases sizes.len() - k,
{
    if k < sizes.len() {
        lemma_tar_size_grows(sizes.drop_last(), k);
        assert(sizes.drop_last().take(k) =~= sizes.take(k));
        assert((sizes.last() + 511) / 512 >= 0);
    } else {
        assert(sizes.take(k) =~= sizes);
        lemma_tar_size_min(sizes);
    }
}

proof fn lemma_tar_size_min(sizes: Seq<u64>)
    ensures
        tar_size(sizes) >= 1024,
    decreases sizes.len(),
{
    if sizes.len() > 0 {
        lemma_tar_size_min(sizes.drop_last());
    }
}

/// The size of the archive of files of the given sizes.
pub fn calc_size(sizes: &[u64]) -> (r: u64)
    requires
        tar_size_fits(sizes@),
    ensures
        r == tar_size(sizes@),
{
    let mut total: u64 = 1024;
    let mut i: usize = 0;
    assert(sizes@.take(0) =~= Seq::<u64>::empty());
    while i < sizes.len()
        invariant
            i <= sizes@.len(),
            tar_size_fits(sizes@),
            total == tar_size(sizes@.take(i as int)),
        decreases sizes@.len() - i,
    {
        let sz = sizes[i];
        proof {
            assert(sizes@.take(i + 1).drop_last() =~= sizes@.take(i as int));
            lemma_tar_size_grows(sizes@, i + 1);
            assert(sizes@[i as int] + 511 <= u64::MAX);
        }
        total = total + 512 + 512 * ((sz + 511) / 512);
        i = i + 1;
    }
    assert(sizes@.take(sizes@.len() as int) =~= sizes@);
    total
}

// ---------------------------------------------------------------------
// file names

/// What `Path::file_stem` gives for a path.
pub uninterp spec fn spec_path_file_stem(p: Seq<char>) -> Option<Seq<char>>;

/// Calls `Path::file_stem`.
#[verifier::external_body]
fn path_file_stem(p: &str) -> (r: Option<String>)
    ensures
        match r {
            Some(s) => spec_path_file_stem(p@) == Some(s@),
            None => spec_path_file_stem(p@) is None,
        },
{
    std::path::Path::new(p).file_stem().map(|s| s.to_string_lossy().into_owned())
}

/// The byte length of `.ext` for a path with an extension, else 0.
pub open spec fn ext_len(p: Seq<char>) -> int {
    match spec_path_extension(p) {
        Some(e) => vstd::utf8::encode_utf8(e).len() + 1int,
        None => 0,
    }
}

/// Whether a name can be cut without failing: a name over the limit has a
/// stem, and its extension fits in the limit.
pub open spec fn cut_path_ok(p: Seq<char>, max_len: usize) -> bool {
    vstd::utf8::encode_utf8(p).len() > max_len ==> spec_path_file_stem(p) is Some && ext_len(p) <= max_len
}

/// A name over `max_len` bytes becomes the first `max_len - |.ext|`
/// characters of its stem followed by its extension; a shorter name stays.
pub open spec fn spec_cut_path(p: Seq<char>, max_len: usize) -> Seq<char> {
    if vstd::utf8::encode_utf8(p).len() > max_len {
        let stem = spec_path_file_stem(p).unwrap();
        let n = max_len - ext_len(p);
        let base = if n < stem.len() { stem.take(n) } else { stem };
        match spec_path_extension(p) {
            Some(e) => base + seq!['.'] + e,
            None => base,
        }
    } else {
        p
    }
}

/// The file name cut to `max_len` bytes for a tar header.
pub fn cut_path(p: &str, max_len: usize) -> (r: String)
    requires
        cut_path_ok(p@, max_len),
    ensures
        r@ == spec_cut_path(p@, max_len),
{
    if p.as_bytes().len() > max_len {
        let ext = path_extension(p);
        let el: usize = match &ext {
            Some(e) => e.as_str().as_bytes().len() + 1,
            None => 0,
        };
        let stem = match path_file_stem(p) {
            Some(s) => s,
            None => String::new(),
        };
        let n = max_len - el;
        let sl = stem.as_str().unicode_len();
        let mut name = if n < sl {
            stem.as_str().substring_char(0, n).to_owned()
        } else {
            stem
        };
        proof {
            if n < sl {
                assert(stem@.subrange(0, n as int) =~= stem@.take(n as int));
            }
        }
        match ext {
            Some(e) => {
                name.append(".");
                name.append(e.as_str());
                proof {
                    reveal_strlit(".");
                    assert("."@ =~= seq!['.']);
                }
            },
            None => {},
        }
        name
    } else {
        p.to_owned()
    }
}

// ---------------------------------------------------------------------
// the data of a file, in blocks

/// The zero bytes that fill `pos` bytes up to a whole block.
pub open spec fn padding(pos: int) -> int {
    if pos % 512 > 0 { 512 - pos % 512 } else { 0 }
}

/// The data of one file as it is sent: read into a buffer, sent whenever
/// the buffer is full, and at the end of the file sent with zeros up to a
/// whole block.
pub struct TarBody {
    buf: Vec<u8>,
    position: usize,
    /// bytes of the current file read so far
    read_total: Ghost<nat>,
    /// bytes of the current file sent so far
    sent_total: Ghost<nat>,
    /// the data of the current file read so far
    read_data: Ghost<Seq<u8>>,
    /// the data of the current file sent so far
    sent_data: Ghost<Seq<u8>>,
}

impl TarBody {
    /// Whether the buffer holds `position` bytes of data and what was sent
    /// so far is whole blocks of the file's data.
    pub closed spec fn wf(&self) -> bool {
        &&& self.buf@.len() == BUFFER_LENGTH
        &&& self.position < BUFFER_LENGTH
        &&& self.sent_total@ % 512 == 0
        &&& self.read_total@ == self.sent_total@ + self.position
        &&& self.read_data@.len() == self.read_total@
        &&& self.sent_data@.len() == self.sent_total@
        &&& self.read_data@ == self.sent_data@ + self.buf@.take(self.position as int)
    }

    /// The data of the current file read so far.
    pub closed spec fn data_read(&self) -> Seq<u8> {
        self.read_data@
    }

    /// The data of the current file sent so far.
    pub closed spec fn data_sent(&self) -> Seq<u8> {
        self.sent_data@
    }

    /// The bytes of the current file read so far.
    pub closed spec fn read_so_far(&self) -> nat {
        self.read_total@
    }

    /// The bytes of the current file sent so far.
    pub closed spec fn sent_so_far(&self) -> nat {
        self.sent_total@
    }

    /// The number of bytes in the buffer.
    pub closed spec fn buffered(&self) -> nat {
        self.position as nat
    }

    /// The data waiting in the buffer.
    pub closed spec fn pending(&self) -> Seq<u8> {
        self.buf@.take(self.position as int)
    }

    /// An empty buffer, before the data of a file.
    pub fn new() -> (r: Self)
        ensures
            r.wf(),
            r.buffered() == 0,
            r.read_so_far() == 0,
            r.sent_so_far() == 0,
            r.data_read() == Seq::<u8>::empty(),
            r.data_sent() == Seq::<u8>::empty(),
    {
        let buf = crate::http::create_output_buffer(BUFFER_LENGTH);
        let r = TarBody {
            buf,
            position: 0,
            read_total: Ghost(0),
            sent_total: Ghost(0),
            read_data: Ghost(Seq::empty()),
            sent_data: Ghost(Seq::empty()),
        };
        assert(r.buf@.take(0) =~= Seq::<u8>::empty());
        assert(r.read_data@ =~= r.sent_data@ + r.buf@.take(0));
        r
    }

    /// How many bytes may be read next.
    pub fn space(&self) -> (r: usize)
        requires
            self.wf(),
        ensures
            r == BUFFER_LENGTH - self.buffered(),
            r > 0,
    {
        BUFFER_LENGTH - self.position
    }

    /// Takes `data` read from the file; a full buffer is sent.
    pub fn on_data(&mut self, data: &[u8]) -> (r: Option<Vec<u8>>)
        requires
            old(self).wf(),
            old(self).buffered() + data@.len() <= BUFFER_LENGTH,
        ensures
            final(self).wf(),
            final(self).read_so_far() == old(self).read_so_far() + data@.len(),
            final(self).sent_so_far() == old(self).sent_so_far() + match r { Some(c) => c@.len(), None => 0 },
            final(self).data_read() == old(self).data_read() + data@,
            final(self).data_sent() == old(self).data_sent() + match r { Some(c) => c@, None => Seq::<u8>::empty() },
            match r {
                Some(c) => c@ == old(self).pending() + data@ && c@.len() == BUFFER_LENGTH
                    && final(self).buffered() == 0,
                None => final(self).pending() == old(self).pending() + data@,
            },
    {
        let ghost before = self.pending();
        let mut j: usize = 0;
        while j < data.len()
            invariant
                self.buf@.len() == BUFFER_LENGTH,
                self.position == old(self).position,
                self.position + data@.len() <= BUFFER_LENGTH,
                j <= data@.len(),
                self.buf@.take(self.position as int) == before,
                self.buf@.subrange(self.position as int, self.position + j) == data@.take(j as int),
                self.read_total == old(self).read_total,
                self.sent_total == old(self).sent_total,
                self.read_data == old(self).read_data,
                self.sent_data == old(self).sent_data,
            decreases data@.len() - j,
        {
            let p = self.position + j;
            self.buf.set(p, data[j]);
            j = j + 1;
            assert(self.buf@.take(self.position as int) =~= before);
            assert(self.buf@.subrange(self.position as int, self.position + j) =~= data@.take(j as int));
        }
        let new_pos = self.position + data.len();
        proof {
            assert(self.buf@.take(new_pos as int) =~= before + data@) by {
                assert(data@.take(data@.len() as int) =~= data@);
            };
        }
        self.read_total = Ghost(self.read_total@ + data@.len());
        self.read_data = Ghost(self.read_data@ + data@);
        if new_pos == BUFFER_LENGTH {
            let chunk = copy_prefix(&self.buf, new_pos);
            self.position = 0;
            self.sent_total = Ghost(self.sent_total@ + BUFFER_LENGTH as nat);
            self.sent_data = Ghost(self.sent_data@ + chunk@);
            assert(self.buf@.take(0) =~= Seq::<u8>::empty());
            assert(self.read_data@ =~= self.sent_data@ + self.buf@.take(0));
            Some(chunk)
        } else {
            self.position = new_pos;
            assert(self.read_data@ =~= self.sent_data@ + self.buf@.take(self.position as int));
            None
        }
    }

    /// Ends the data of the file: what is buffered is sent with zeros up to a
    /// whole block. All that was sent of the file is then its data padded to
    /// whole blocks.
    pub fn on_eof(&mut self) -> (r: Option<Vec<u8>>)
        requires
            old(self).wf(),
        ensures
            final(self).wf(),
            final(self).buffered() == 0,
            final(self).read_so_far() == 0,
            final(self).sent_so_far() == 0,
            old(self).buffered() == 0 ==> r is None,
            old(self).buffered() > 0 ==> (r matches Some(c) && c@ == old(self).pending() + Seq::new(
                padding(old(self).buffered() as int) as nat,
                |i: int| 0u8,
            )),
            old(self).sent_so_far() + match r { Some(c) => c@.len() as int, None => 0 } == 512 * ((old(self).read_so_far() + 511) / 512),
            old(self).data_sent() + match r { Some(c) => c@, None => Seq::<u8>::empty() } == padded(old(self).data_read()),
            final(self).data_read() == Seq::<u8>::empty(),
            final(self).data_sent() == Seq::<u8>::empty(),
    {
        let pos = self.position;
        let ghost sent = self.sent_total@;
        let ghost read = self.read_total@;
        proof {
            lemma_padding_total(sent as int, pos as int);
        }
        let ghost rd = self.read_data@;
        let ghost sd = self.sent_data@;
        self.read_total = Ghost(0);
        self.sent_total = Ghost(0);
        self.read_data = Ghost(Seq::empty());
        self.sent_data = Ghost(Seq::empty());
        if pos > 0 {
            let rem = pos % 512;
            let padding_length = if rem > 0 { 512 - rem } else { 0 };
            let new_position = pos + padding_length;
            let mut k = pos;
            let ghost data = self.buf@.take(pos as int);
            while k < new_position
                invariant
                    self.buf@.len() == BUFFER_LENGTH,
                    pos <= k <= new_position,
                    new_position <= BUFFER_LENGTH,
                    self.buf@.take(pos as int) == data,
                    forall|t: int| pos <= t < k ==> self.buf@[t] == 0u8,
                    self.read_total@ == 0,
                    self.sent_total@ == 0,
                    self.read_data@ == Seq::<u8>::empty(),
                    self.sent_data@ == Seq::<u8>::empty(),
                decreases new_position - k,
            {
                self.buf.set(k, 0u8);
                k = k + 1;
                assert(self.buf@.take(pos as int) =~= data);
            }
            let chunk = copy_prefix(&self.buf, new_position);
            self.position = 0;
            assert(chunk@ =~= data + Seq::new(padding(pos as int) as nat, |i: int| 0u8));
            proof {
                assert(sent % 512 == 0);
                assert(padding(rd.len() as int) == padding(pos as int)) by {
                    assert((sent + pos) % 512 == pos % 512) by (nonlinear_arith)
                        requires
                            sent % 512 == 0,
                            sent >= 0,
                            pos >= 0,
                    ;
                }
                assert(sd + chunk@ =~= padded(rd));
                assert(self.buf@.take(0) =~= Seq::<u8>::empty());
            }
            Some(chunk)
        } else {
            proof {
                assert(rd =~= sd);
                assert(padding(rd.len() as int) == 0);
                assert(sd + Seq::<u8>::empty() =~= padded(rd));
                assert(self.buf@.take(0) =~= Seq::<u8>::empty());
            }
            None
        }
    }
}

proof fn lemma_padding_total(sent: int, pos: int)
    requires
        sent >= 0,
        sent % 512 == 0,
        0 <= pos,
    ensures
        sent + (if pos > 0 { pos + padding(pos) } else { 0 }) == 512 * ((sent + pos + 511) / 512),
        pos + padding(pos) <= pos + 511,
{
    let q = sent / 512;
    assert(sent == 512 * q);
    let pq = pos / 512;
    let pr = pos % 512;
    assert(pos == 512 * pq + pr);
    if pr > 0 {
        assert((sent + pos + 511) / 512 == q + pq + 1) by (nonlinear_arith)
            requires
                sent == 512 * q,
                pos == 512 * pq + pr,
                0 < pr < 512,
        ;
    } else {
        assert((sent + pos + 511) / 512 == q + pq) by (nonlinear_arith)
            requires
                sent == 512 * q,
                pos == 512 * pq,
        ;
    }
}

/// The data of a file as the archive holds it: padded with zeros to whole
/// blocks.
pub open spec fn padded(data: Seq<u8>) -> Seq<u8> {
    data + Seq::new(padding(data.len() as int) as nat, |i: int| 0u8)
}

/// For each file its header and its padded data, in order.
pub open spec fn archive_entries(headers: Seq<Seq<u8>>, datas: Seq<Seq<u8>>) -> Seq<u8>
    decreases headers.len(),
{
    if headers.len() == 0 || datas.len() == 0 {
        Seq::empty()
    } else {
        archive_entries(headers.drop_last(), datas.drop_last()) + headers.last() + padded(datas.last())
    }
}

/// The archive of files with headers `headers` and data `datas`: their
/// entries, then two empty blocks.
pub open spec fn archive(headers: Seq<Seq<u8>>, datas: Seq<Seq<u8>>) -> Seq<u8> {
    archive_entries(headers, datas) + Seq::new(1024, |i: int| 0u8)
}

proof fn lemma_padded_len(n: int)
    requires
        n >= 0,
    ensures
        n + padding(n) == 512 * ((n + 511) / 512),
{
    lemma_padding_total(0, n);
}

/// An archive of files whose headers are one block each and whose data are
/// of the sizes `sizes` has `tar_size(sizes)` bytes: what `calc_size` gives
/// as its length.
pub proof fn lemma_archive_len(headers: Seq<Seq<u8>>, datas: Seq<Seq<u8>>, sizes: Seq<u64>)
    requires
        headers.len() == sizes.len(),
        datas.len() == sizes.len(),
        forall|i: int| 0 <= i < sizes.len() ==> (#[trigger] headers[i]).len() == 512,
        forall|i: int| 0 <= i < sizes.len() ==> (#[trigger] datas[i]).len() == sizes[i],
    ensures
        archive(headers, datas).len() == tar_size(sizes),
    decreases sizes.len(),
{
    if sizes.len() > 0 {
        let h = headers.drop_last();
        let d = datas.drop_last();
        let z = sizes.drop_last();
        assert forall|i: int| 0 <= i < z.len() implies (#[trigger] h[i]).len() == 512 by {
            assert(h[i] == headers[i]);
        }
        assert forall|i: int| 0 <= i < z.len() implies (#[trigger] d[i]).len() == z[i] by {
            assert(d[i] == datas[i]);
            assert(z[i] == sizes[i]);
        }
        lemma_archive_len(h, d, z);
        assert(headers.last().len() == 512);
        assert(datas.last().len() == sizes.last());
        lemma_padded_len(sizes.last() as int);
    }
}

/// A copy of `buf[..n]`.
fn copy_prefix(buf: &Vec<u8>, n: usize) -> (r: Vec<u8>)
    requires
        n <= buf@.len(),
    ensures
        r@ == buf@.take(n as int),
{
    let mut v: Vec<u8> = Vec::new();
    let mut i: usize = 0;
    while i < n
        invariant
            i <= n,
            n <= buf@.len(),
            v@ == buf@.take(i as int),
        decreases n - i,
    {
        v.push(buf[i]);
        i = i + 1;
        assert(v@ =~= buf@.take(i as int));
    }
    v
}

/// The trailer of an archive: the block sent at step `block`, while fewer
/// than two were sent.
pub fn finish_block(block: u8) -> (r: Option<Vec<u8>>)
    ensures
        block < 2 ==> (r matches Some(c) && c@ == Seq::new(512, |i: int| 0u8)),
        block >= 2 ==> r is None,
{
    if block < 2 {
        Some(crate::http::create_output_buffer(512))
    } else {
        None
    }
}

// ---------------------------------------------------------------------
// file headers

/// The permissions given to every file in an archive: read and write for
/// the owner, read for the others.
pub const FILE_MODE: u32 = 0o644;

/// What `tar::Header::new_gnu` holds as bytes after `set_path(name)`,
/// `set_size(size)`, `set_mode(mode)`, `set_mtime(mtime)` and `set_cksum()`;
/// `None` where `set_path` refuses the name.
pub uninterp spec fn spec_tar_header(name: Seq<char>, size: u64, mode: u32, mtime: u64) -> Option<Seq<u8>>;

/// Builds a GNU tar header with the `tar` crate: `Header::new_gnu`, then
/// `set_path`, `set_size`, `set_mode`, `set_mtime` and `set_cksum`, and the
/// bytes of `Header::as_bytes`. `None` where `set_path` refuses the name (one
/// over 100 bytes, with a nul byte, absolute, with `..`, or empty). The
/// header is named, not described; that it is 512 bytes long is stated, as
/// `as_bytes` gives an array of that length.
#[verifier::external_body]
fn tar_file_header(name: &str, size: u64, mode: u32, mtime: u64) -> (r: Option<Vec<u8>>)
    ensures
        match r {
            Some(h) => spec_tar_header(name@, size, mode, mtime) == Some(h@) && h@.len() == 512,
            None => spec_tar_header(name@, size, mode, mtime) is None,
        },
{
    let mut header = tar::Header::new_gnu();
    if header.set_path(name).is_err() {
        return None;
    }
    header.set_size(size);
    header.set_mode(mode);
    header.set_mtime(mtime);
    header.set_cksum();
    Some(header.as_bytes().to_vec())
}

/// The seconds from the Unix epoch to now, 0 for a clock set before the
/// epoch. Nothing is stated of the value.
#[verifier::external_body]
fn unix_now_secs() -> u64 {
    std::time::SystemTime::now().duration_since(std::time::UNIX_EPOCH).map(|d| d.as_secs()).unwrap_or(0)
}

/// Whether the name `p` can be cut to `max_len` bytes.
fn can_cut(p: &str, max_len: usize) -> (r: bool)
    ensures
        r == cut_path_ok(p@, max_len),
{
    if p.as_bytes().len() <= max_len {
        return true;
    }
    let ext = path_extension(p);
    let stem = path_file_stem(p);
    match stem {
        None => false,
        Some(_) => match ext {
            Some(e) => e.as_str().as_bytes().len() < max_len,
            None => true,
        },
    }
}

/// The header of the file at `path`, as it goes into an archive.
pub open spec fn spec_file_header(path: Seq<char>, size: u64, mtime: u64) -> Option<Seq<u8>> {
    match spec_path_file_name(path) {
        None => None,
        Some(n) => if cut_path_ok(n, PATH_MAX_LEN) {
            spec_tar_header(spec_cut_path(n, PATH_MAX_LEN), size, FILE_MODE, mtime)
        } else {
            None
        },
    }
}

/// The header of the file at `path` of `size` bytes in an archive, stamped
/// `mtime`: only its file name, cut to fit, with the mode `FILE_MODE`.
/// `None` where the path has no file name, or the name cannot be cut or
/// set in a header.
pub fn file_header_at(path: &str, size: u64, mtime: u64) -> (r: Option<Vec<u8>>)
    ensures
        match r {
            Some(h) => spec_file_header(path@, size, mtime) == Some(h@) && h@.len() == 512,
            None => spec_file_header(path@, size, mtime) is None,
        },
{
    let name = match path_file_name(path) {
        Some(n) => n,
        None => return None,
    };
    if !can_cut(name.as_str(), PATH_MAX_LEN) {
        return None;
    }
    let cut = cut_path(name.as_str(), PATH_MAX_LEN);
    tar_file_header(cut.as_str(), size, FILE_MODE, mtime)
}

/// The header of the file at `path` of `size` bytes in an archive, stamped
/// with the current time; see `file_header_at`.
pub fn file_header(path: &str, size: u64) -> (r: Option<Vec<u8>>)
    ensures
        exists|mtime: u64| match r {
            Some(h) => spec_file_header(path@, size, mtime) == Some(h@) && h@.len() == 512,
            None => spec_file_header(path@, size, mtime) is None,
        },
{
    let now = unix_now_secs();
    file_header_at(path, size, now)
}

// ---------------------------------------------------------------------
// a whole archive

/// Where an archive being written stands.
#[derive(Clone, Copy, Debug, PartialEq, Eq, Structural)]
pub enum TarPhase {
    /// between files: the next header or the trailer may come
    BetweenFiles,
    /// the data of a file are being sent
    InFile,
    /// the trailer is being sent
    Trailer,
}

/// An archive being written, one piece after another: for each file its
/// header, then its data, then the two empty blocks that end the archive.
/// It keeps what has been sent, the headers and the data of the files.
pub struct TarWriter {
    body: TarBody,
    phase: TarPhase,
    trailer_sent: u8,
    headers: Ghost<Seq<Seq<u8>>>,
    datas: Ghost<Seq<Seq<u8>>>,
    sizes: Ghost<Seq<u64>>,
    emitted: Ghost<Seq<u8>>,
}

/// `n` empty bytes.
pub open spec fn zeros(n: nat) -> Seq<u8> {
    Seq::new(n, |i: int| 0u8)
}

impl TarWriter {
    /// The headers of the files begun, in order.
    pub closed spec fn headers_v(&self) -> Seq<Seq<u8>> {
        self.headers@
    }

    /// The data of the files ended, in order.
    pub closed spec fn datas_v(&self) -> Seq<Seq<u8>> {
        self.datas@
    }

    /// The sizes the headers of the files begun give, in order.
    pub closed spec fn sizes_v(&self) -> Seq<u64> {
        self.sizes@
    }

    /// All that was sent, joined.
    pub closed spec fn emitted_v(&self) -> Seq<u8> {
        self.emitted@
    }

    pub closed spec fn phase_v(&self) -> TarPhase {
        self.phase
    }

    /// How many empty blocks of the trailer were sent.
    pub closed spec fn trailer_v(&self) -> nat {
        self.trailer_sent as nat
    }

    /// The bytes of the current file waiting in the buffer.
    pub closed spec fn buffered_v(&self) -> nat {
        self.body.buffered()
    }

    /// The data of the current file read so far.
    pub closed spec fn current_read(&self) -> Seq<u8> {
        self.body.data_read()
    }

    /// What was sent is the entries of the files ended; then, within a
    /// file, its header and the whole blocks of its data sent so far, or,
    /// in the trailer, the empty blocks sent.
    pub closed spec fn wf(&self) -> bool {
        &&& self.body.wf()
        &&& self.headers@.len() == self.sizes@.len()
        &&& forall|i: int| 0 <= i < self.headers@.len() ==> (#[trigger] self.headers@[i]).len() == 512
        &&& self.trailer_sent <= 2
        &&& (self.phase is InFile) ==> {
            &&& self.trailer_sent == 0
            &&& self.headers@.len() == self.datas@.len() + 1
            &&& self.emitted@ == archive_entries(self.headers@.drop_last(), self.datas@) + self.headers@.last()
                + self.body.data_sent()
        }
        &&& !(self.phase is InFile) ==> {
            &&& self.headers@.len() == self.datas@.len()
            &&& self.body.data_read() == Seq::<u8>::empty()
            &&& self.body.data_sent() == Seq::<u8>::empty()
            &&& self.emitted@ == archive_entries(self.headers@, self.datas@) + zeros(512 * self.trailer_sent as nat)
        }
        &&& (self.phase is BetweenFiles) ==> self.trailer_sent == 0
    }

    /// An archive with nothing sent yet.
    pub fn new() -> (r: Self)
        ensures
            r.wf(),
            r.phase_v() is BetweenFiles,
            r.headers_v() == Seq::<Seq<u8>>::empty(),
            r.datas_v() == Seq::<Seq<u8>>::empty(),
            r.emitted_v() == Seq::<u8>::empty(),
    {
        let r = TarWriter {
            body: TarBody::new(),
            phase: TarPhase::BetweenFiles,
            trailer_sent: 0,
            headers: Ghost(Seq::empty()),
            datas: Ghost(Seq::empty()),
            sizes: Ghost(Seq::empty()),
            emitted: Ghost(Seq::empty()),
        };
        assert(zeros(0) =~= Seq::<u8>::empty());
        assert(r.emitted@ =~= archive_entries(r.headers@, r.datas@) + zeros(0));
        r
    }

    /// Where the archive stands.
    pub fn phase(&self) -> (r: TarPhase)
        ensures
            r == self.phase_v(),
    {
        self.phase
    }

    /// Begins the file at `path` of `size` bytes: its header is sent.
    /// `None` where no header can be made for it, and nothing changes.
    pub fn start_file(&mut self, path: &str, size: u64) -> (r: Option<Vec<u8>>)
        requires
            old(self).wf(),
            old(self).phase_v() is BetweenFiles,
        ensures
            final(self).wf(),
            final(self).datas_v() == old(self).datas_v(),
            exists|mtime: u64| match r {
                Some(h) => spec_file_header(path@, size, mtime) == Some(h@),
                None => spec_file_header(path@, size, mtime) is None,
            },
            match r {
                Some(h) => {
                    &&& h@.len() == 512
                    &&& final(self).phase_v() is InFile
                    &&& final(self).headers_v() == old(self).headers_v().push(h@)
                    &&& final(self).sizes_v() == old(self).sizes_v().push(size)
                    &&& final(self).emitted_v() == old(self).emitted_v() + h@
                    &&& final(self).current_read() == Seq::<u8>::empty()
                },
                None => {
                    &&& final(self).phase_v() is BetweenFiles
                    &&& final(self).headers_v() == old(self).headers_v()
                    &&& final(self).emitted_v() == old(self).emitted_v()
                },
            },
    {
        let h = file_header(path, size);
        match h {
            Some(header) => {
                proof {
                    let hs = self.headers@.push(header@);
                    assert(header@.len() == 512);
                    assert forall|i: int| 0 <= i < hs.len() implies (#[trigger] hs[i]).len() == 512 by {
                        if i < self.headers@.len() {
                            assert(hs[i] == self.headers@[i]);
                        }
                    }
                    assert(hs.drop_last() =~= self.headers@);
                    assert(zeros(0) =~= Seq::<u8>::empty());
                    assert(self.emitted@ + header@ =~= archive_entries(hs.drop_last(), self.datas@) + hs.last()
                        + Seq::<u8>::empty());
                    self.headers@ = hs;
                    self.sizes@ = self.sizes@.push(size);
                    self.emitted@ = self.emitted@ + header@;
                }
                self.phase = TarPhase::InFile;
                Some(header)
            },
            None => None,
        }
    }

    /// Takes `data` read from the current file; a full buffer is sent.
    pub fn on_data(&mut self, data: &[u8]) -> (r: Option<Vec<u8>>)
        requires
            old(self).wf(),
            old(self).phase_v() is InFile,
            data@.len() <= BUFFER_LENGTH - old(self).buffered_v(),
        ensures
            final(self).wf(),
            final(self).phase_v() is InFile,
            final(self).headers_v() == old(self).headers_v(),
            final(self).datas_v() == old(self).datas_v(),
            final(self).sizes_v() == old(self).sizes_v(),
            final(self).current_read() == old(self).current_read() + data@,
            final(self).emitted_v() == old(self).emitted_v() + match r { Some(c) => c@, None => Seq::<u8>::empty() },
    {
        let r = self.body.on_data(data);
        proof {
            let c = match &r { Some(c) => c@, None => Seq::<u8>::empty() };
            assert(self.emitted@ + c =~= archive_entries(self.headers@.drop_last(), self.datas@) + self.headers@.last()
                + self.body.data_sent());
            self.emitted@ = self.emitted@ + c;
        }
        r
    }

    /// How many bytes of the current file may be read next, at most.
    pub fn room(&self) -> (r: usize)
        requires
            self.wf(),
        ensures
            r == BUFFER_LENGTH - self.buffered_v(),
            r > 0,
    {
        self.body.space()
    }

    /// Ends the current file: what is buffered is sent with zeros up to a
    /// whole block, and the file's data join the files ended.
    pub fn end_file(&mut self) -> (r: Option<Vec<u8>>)
        requires
            old(self).wf(),
            old(self).phase_v() is InFile,
        ensures
            final(self).wf(),
            final(self).phase_v() is BetweenFiles,
            final(self).headers_v() == old(self).headers_v(),
            final(self).datas_v() == old(self).datas_v().push(old(self).current_read()),
            final(self).sizes_v() == old(self).sizes_v(),
            final(self).emitted_v() == old(self).emitted_v() + match r { Some(c) => c@, None => Seq::<u8>::empty() },
            final(self).emitted_v() == archive_entries(final(self).headers_v(), final(self).datas_v()),
    {
        let ghost read = self.body.data_read();
        let ghost sent = self.body.data_sent();
        let r = self.body.on_eof();
        self.phase = TarPhase::BetweenFiles;
        proof {
            let c = match &r { Some(c) => c@, None => Seq::<u8>::empty() };
            let ds = self.datas@.push(read);
            assert(ds.drop_last() =~= self.datas@);
            assert(zeros(0) =~= Seq::<u8>::empty());
            assert(self.emitted@ + c =~= archive_entries(self.headers@.drop_last(), self.datas@) + self.headers@.last()
                + (sent + c));
            assert(self.headers@.len() > 0);
            assert(archive_entries(self.headers@, ds) == archive_entries(self.headers@.drop_last(), ds.drop_last())
                + self.headers@.last() + padded(ds.last()));
            self.datas@ = ds;
            self.emitted@ = self.emitted@ + c;
            assert(self.emitted@ =~= archive_entries(self.headers@, self.datas@) + zeros(0));
        }
        r
    }

    /// The next block of the trailer, while fewer than two were sent.
    pub fn trailer_block(&mut self) -> (r: Option<Vec<u8>>)
        requires
            old(self).wf(),
            !(old(self).phase_v() is InFile),
        ensures
            final(self).wf(),
            final(self).phase_v() is Trailer,
            final(self).headers_v() == old(self).headers_v(),
            final(self).datas_v() == old(self).datas_v(),
            final(self).sizes_v() == old(self).sizes_v(),
            old(self).trailer_v() < 2 ==> (r matches Some(c) && c@ == zeros(512)
                && final(self).trailer_v() == old(self).trailer_v() + 1
                && final(self).emitted_v() == old(self).emitted_v() + c@),
            old(self).trailer_v() >= 2 ==> r is None && final(self).trailer_v() == old(self).trailer_v()
                && final(self).emitted_v() == old(self).emitted_v(),
    {
        let r = finish_block(self.trailer_sent);
        self.phase = TarPhase::Trailer;
        match &r {
            Some(c) => {
                proof {
                    let t = self.trailer_sent as nat;
                    assert(c@ =~= zeros(512));
                    assert(zeros(512 * t) + zeros(512) =~= zeros(512 * (t + 1)));
                    let e = archive_entries(self.headers@, self.datas@);
                    assert(e + zeros(512 * t) + zeros(512) =~= e + zeros(512 * (t + 1)));
                    self.emitted@ = self.emitted@ + c@;
                }
                self.trailer_sent = self.trailer_sent + 1;
            },
            None => {},
        }
        r
    }

    /// Once both empty blocks are sent, what was sent is the archive of the
    /// headers and the data of the files, in the order they came; where
    /// each file's data were as long as its header says, the archive is as
    /// long as `calc_size` of the sizes.
    pub proof fn lemma_complete_archive(&self)
        requires
            self.wf(),
            self.trailer_v() == 2,
        ensures
            self.emitted_v() == archive(self.headers_v(), self.datas_v()),
            self.headers_v().len() == self.datas_v().len(),
            (forall|i: int| 0 <= i < self.datas_v().len() ==> (#[trigger] self.datas_v()[i]).len() == self.sizes_v()[i])
                ==> self.emitted_v().len() == tar_size(self.sizes_v()),
    {
        assert(zeros(1024) =~= Seq::new(1024, |i: int| 0u8));
        if forall|i: int| 0 <= i < self.datas_v().len() ==> (#[trigger] self.datas_v()[i]).len() == self.sizes_v()[i] {
            lemma_archive_len(self.headers_v(), self.datas_v(), self.sizes_v());
        }
    }
}

} // verus!
