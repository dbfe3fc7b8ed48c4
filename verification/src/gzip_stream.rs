//! A gzip stream produced chunk by chunk from input that arrives in pieces:
//! the header first, then what the deflate compressor writes, then the
//! CRC-32 and length of the input, all cut into chunks of at most a given
//! size. The reading of the input is left to the caller.
use vstd::prelude::*;
use crate::http::{create_output_buffer, crc_footer, gzip_header, spec_crc_footer, spec_gzip_header};

verus! {

#[verifier::external_type_specification]
#[verifier::external_body]
pub struct ExCompress(flate2::Compress);

#[verifier::external_type_specification]
#[verifier::external_body]
pub struct ExCrc(flate2::Crc);

/// The level of `flate2::Compression::default`.
pub const DEFAULT_LEVEL: u32 = 6;

/// The CRC-32 (IEEE) of `data`, as `flate2::Crc::sum` gives it.
pub uninterp spec fn spec_crc32(data: Seq<u8>) -> u32;

/// The bytes a `flate2::Crc` has been fed, in order.
pub uninterp spec fn crc_input(c: flate2::Crc) -> Seq<u8>;

/// Calls `flate2::Crc::new`: a CRC fed nothing yet.
#[verifier::external_body]
fn crc_new() -> (r: flate2::Crc)
    ensures
        crc_input(r) == Seq::<u8>::empty(),
{
    flate2::Crc::new()
}

/// Calls `flate2::Crc::update`: `data` is fed after what came before.
#[verifier::external_body]
fn crc_update(c: &mut flate2::Crc, data: &[u8])
    ensures
        crc_input(*final(c)) == crc_input(*old(c)) + data@,
{
    c.update(data)
}

/// Calls `flate2::Crc::sum`: the CRC-32 of all that was fed.
#[verifier::external_body]
fn crc_sum(c: &flate2::Crc) -> (r: u32)
    ensures
        r == spec_crc32(crc_input(*c)),
{
    c.sum()
}

/// Calls `flate2::Crc::amount`: how many bytes were fed, modulo 2^32.
#[verifier::external_body]
fn crc_amount(c: &flate2::Crc) -> (r: u32)
    ensures
        r == crc_input(*c).len() % 0x1_0000_0000,
{
    c.amount()
}

/// The bytes a `flate2::Compress` has taken as input so far, in order.
pub uninterp spec fn compress_input(c: flate2::Compress) -> Seq<u8>;

/// The bytes a `flate2::Compress` has written so far, in order.
pub uninterp spec fn compress_output(c: flate2::Compress) -> Seq<u8>;

/// Whether `flate2::Compress::compress`, called on a compressor in state
/// `c` with `input`, an output slice of `space` bytes, and
/// `FlushCompress::Finish` where `finish` holds (else `FlushCompress::None`),
/// returns an error.
pub uninterp spec fn spec_deflate_fails(c: flate2::Compress, input: Seq<u8>, space: nat, finish: bool) -> bool;

/// Calls `flate2::Compress::new` at the default level without a zlib
/// header, for a raw deflate stream: a compressor that has taken and
/// written nothing yet.
#[verifier::external_body]
fn compress_new() -> (r: flate2::Compress)
    ensures
        compress_input(r) == Seq::<u8>::empty(),
        compress_output(r) == Seq::<u8>::empty(),
{
    flate2::Compress::new(flate2::Compression::default(), false)
}

/// Calls `flate2::Compress::total_in`: how many bytes the compressor has
/// taken so far.
#[verifier::external_body]
fn compress_total_in(c: &flate2::Compress) -> (r: u64)
    ensures
        r == compress_input(*c).len(),
{
    c.total_in()
}

/// Calls `flate2::Compress::total_out`: how many bytes the compressor has
/// written so far.
#[verifier::external_body]
fn compress_total_out(c: &flate2::Compress) -> (r: u64)
    ensures
        r == compress_output(*c).len(),
{
    c.total_out()
}

/// Calls `flate2::Compress::compress` with `FlushCompress::None` on `input`,
/// writing into `out` from `from` on; `true` where it succeeded. Whether it
/// fails is named by `spec_deflate_fails`. Success or not, the compressor
/// takes a prefix of `input` and writes its new output at the start of the
/// slice after `from`, and its totals grow by those two counts; the length
/// of `out` and its bytes before `from` stay. Which bytes it writes, and how
/// much input it takes, is not stated.
#[verifier::external_body]
fn deflate_some(c: &mut flate2::Compress, input: &[u8], out: &mut Vec<u8>, from: usize) -> (r: bool)
    requires
        from <= old(out).len(),
    ensures
        r == !spec_deflate_fails(*old(c), input@, (old(out).len() - from) as nat, false),
        final(out).len() == old(out).len(),
        final(out)@.take(from as int) == old(out)@.take(from as int),
        compress_input(*old(c)).len() <= compress_input(*final(c)).len()
            <= compress_input(*old(c)).len() + input.len(),
        compress_input(*final(c)) == compress_input(*old(c)) + input@.take(
            compress_input(*final(c)).len() - compress_input(*old(c)).len(),
        ),
        compress_output(*old(c)).len() <= compress_output(*final(c)).len()
            <= compress_output(*old(c)).len() + (old(out).len() - from),
        compress_output(*final(c)) == compress_output(*old(c)) + final(out)@.subrange(
            from as int,
            from + compress_output(*final(c)).len() - compress_output(*old(c)).len(),
        ),
{
    c.compress(input, &mut out[from..], flate2::FlushCompress::None).is_ok()
}

/// Calls `flate2::Compress::compress` with no input and
/// `FlushCompress::Finish`, writing into `out` from `from` on; `true` where
/// it succeeded. The same is stated as of `deflate_some`: the compressor
/// takes nothing, and what it writes lands after `from`.
#[verifier::external_body]
fn deflate_finish(c: &mut flate2::Compress, out: &mut Vec<u8>, from: usize) -> (r: bool)
    requires
        from <= old(out).len(),
    ensures
        r == !spec_deflate_fails(*old(c), Seq::<u8>::empty(), (old(out).len() - from) as nat, true),
        final(out).len() == old(out).len(),
        final(out)@.take(from as int) == old(out)@.take(from as int),
        compress_input(*final(c)) == compress_input(*old(c)),
        compress_output(*old(c)).len() <= compress_output(*final(c)).len()
            <= compress_output(*old(c)).len() + (old(out).len() - from),
        compress_output(*final(c)) == compress_output(*old(c)) + final(out)@.subrange(
            from as int,
            from + compress_output(*final(c)).len() - compress_output(*old(c)).len(),
        ),
{
    c.compress(&[], &mut out[from..], flate2::FlushCompress::Finish).is_ok()
}

/// The seconds from the Unix epoch to now, cut to 32 bits, 0 for a clock
/// set before the epoch. Nothing is stated of the value.
#[verifier::external_body]
fn now_unix_secs() -> u32 {
    std::time::SystemTime::now().duration_since(std::time::UNIX_EPOCH).map(|d| d.as_secs() as u32).unwrap_or(0)
}

/// Where a stream stands.
#[derive(Clone, Copy, Debug, PartialEq, Eq, Structural)]
pub enum GzipPhase {
    /// input is read and compressed
    Reading,
    /// the input has ended; the compressor's last output is collected
    Dumping,
    /// the CRC-32 and length are written
    Footer,
    /// the stream has ended, completely or on an error
    Done,
}

/// Why a stream stopped.
#[derive(Clone, Copy, Debug, PartialEq, Eq, Structural)]
pub enum GzipError {
    /// the compressor reported an error
    Compress,
}

/// A gzip stream under way.
pub struct GzipFramer {
    compressor: flate2::Compress,
    crc: flate2::Crc,
    chunk_size: usize,
    buf_out: Vec<u8>,
    offset_out: usize,
    buf_in: Vec<u8>,
    phase: GzipPhase,
    footer: Vec<u8>,
    footer_written: usize,
    failed: bool,
    mtime: Ghost<u32>,
    body: Ghost<Seq<u8>>,
    emitted: Ghost<Seq<u8>>,
    read: Ghost<Seq<u8>>,
}

/// The eight bytes that end a stream whose input was `data`.
pub open spec fn footer_of(data: Seq<u8>) -> Seq<u8> {
    spec_crc_footer(spec_crc32(data), (data.len() % 0x1_0000_0000) as u32)
}

impl GzipFramer {
    pub closed spec fn phase_v(&self) -> GzipPhase {
        self.phase
    }

    pub closed spec fn failed_v(&self) -> bool {
        self.failed
    }

    pub closed spec fn chunk_size_v(&self) -> nat {
        self.chunk_size as nat
    }

    /// The deflate compressor.
    pub closed spec fn compressor_v(&self) -> flate2::Compress {
        self.compressor
    }

    /// The modification time written into the header.
    pub closed spec fn mtime_v(&self) -> u32 {
        self.mtime@
    }

    /// The header of the stream.
    pub open spec fn header_v(&self) -> Seq<u8> {
        spec_gzip_header(self.mtime_v(), DEFAULT_LEVEL)
    }

    /// All the compressor has written so far.
    pub closed spec fn body_v(&self) -> Seq<u8> {
        self.body@
    }

    /// All the chunks handed out so far, joined.
    pub closed spec fn emitted_v(&self) -> Seq<u8> {
        self.emitted@
    }

    /// The output not yet handed out.
    pub closed spec fn out_v(&self) -> Seq<u8> {
        self.buf_out@.take(self.offset_out as int)
    }

    /// All the input read so far.
    pub closed spec fn read_v(&self) -> Seq<u8> {
        self.read@
    }

    /// The input the compressor has taken so far.
    pub closed spec fn consumed_v(&self) -> Seq<u8> {
        crc_input(self.crc)
    }

    /// The input read but not yet taken by the compressor.
    pub closed spec fn pending_v(&self) -> Seq<u8> {
        self.buf_in@
    }

    /// The footer, once the input has ended and been compressed.
    pub closed spec fn footer_v(&self) -> Seq<u8> {
        self.footer@
    }

    /// How much of the footer is written.
    pub closed spec fn footer_written_v(&self) -> nat {
        self.footer_written as nat
    }

    /// What every stream keeps: the chunks handed out and the output held
    /// back are the header, what the compressor wrote and the part of the
    /// footer written; the input read is what the compressor took and what
    /// waits for it; and, until an error, the compressor has taken exactly
    /// the input consumed and written exactly the body.
    pub closed spec fn keeps_framing(&self) -> bool {
        &&& 10 <= self.chunk_size
        &&& self.buf_out@.len() == self.chunk_size
        &&& self.offset_out <= self.chunk_size
        &&& self.buf_in@.len() <= self.chunk_size
        &&& self.footer_written <= self.footer@.len()
        &&& self.emitted@ + self.out_v() == self.header_v() + self.body@ + self.footer@.take(
            self.footer_written as int,
        )
        &&& self.read@ == crc_input(self.crc) + self.buf_in@
        &&& !self.failed ==> compress_input(self.compressor) == crc_input(self.crc)
        &&& !self.failed ==> compress_output(self.compressor) == self.body@
        &&& (self.phase is Reading || self.phase is Dumping) ==> self.footer@.len() == 0
        &&& (self.phase is Dumping || self.phase is Footer) ==> self.buf_in@.len() == 0
        &&& self.phase is Footer ==> self.footer@ == footer_of(crc_input(self.crc))
        &&& (self.phase is Done && !self.failed) ==> {
            &&& self.buf_in@.len() == 0
            &&& self.footer@ == footer_of(crc_input(self.crc))
            &&& self.footer_written == 8
        }
        &&& self.failed ==> self.phase is Done
    }

    /// `keeps_framing`, and no output is held back once the footer is being
    /// written or the stream has ended.
    pub closed spec fn well_formed(&self) -> bool {
        &&& self.keeps_framing()
        &&& (self.phase is Footer && self.footer_written > 0) ==> self.offset_out == 0
        &&& (self.phase is Done && !self.failed) ==> self.offset_out == 0
    }

    /// A stream cutting its output into chunks of `chunk_size` bytes, its
    /// header, stamped with the current time, waiting as the first output.
    pub fn new_with_chunk_size(chunk_size: usize) -> (r: Self)
        requires
            chunk_size >= 10,
        ensures
            r.well_formed(),
            r.phase_v() is Reading,
            !r.failed_v(),
            r.chunk_size_v() == chunk_size,
            r.out_v() == r.header_v(),
            r.emitted_v() == Seq::<u8>::empty(),
            r.body_v() == Seq::<u8>::empty(),
            r.read_v() == Seq::<u8>::empty(),
            r.consumed_v() == Seq::<u8>::empty(),
            r.pending_v() == Seq::<u8>::empty(),
    {
        let mtime = now_unix_secs();
        let header = gzip_header(mtime, DEFAULT_LEVEL);
        let mut buf_out = create_output_buffer(chunk_size);
        let mut i: usize = 0;
        while i < 10
            invariant
                i <= 10,
                header@ == spec_gzip_header(mtime, DEFAULT_LEVEL),
                buf_out@.len() == chunk_size,
                chunk_size >= 10,
                buf_out@.take(i as int) == header@.take(i as int),
            decreases 10 - i,
        {
            buf_out.set(i, header[i]);
            proof {
                assert(buf_out@.take(i + 1) =~= header@.take(i + 1));
            }
            i = i + 1;
        }
        let crc = crc_new();
        let r = GzipFramer {
            compressor: compress_new(),
            crc,
            chunk_size,
            buf_out,
            offset_out: 10,
            buf_in: Vec::new(),
            phase: GzipPhase::Reading,
            footer: Vec::new(),
            footer_written: 0,
            failed: false,
            mtime: Ghost(mtime),
            body: Ghost(Seq::empty()),
            emitted: Ghost(Seq::empty()),
            read: Ghost(Seq::empty()),
        };
        proof {
            assert(header@.take(10) =~= header@);
            assert(r.footer@.take(0) =~= Seq::<u8>::empty());
            assert(r.emitted@ + r.out_v() =~= r.header_v() + r.body@ + r.footer@.take(0));
            assert(r.read@ =~= crc_input(r.crc) + r.buf_in@);
        }
        r
    }

    /// Where the stream stands.
    pub fn phase(&self) -> (r: GzipPhase)
        ensures
            r == self.phase_v(),
    {
        self.phase
    }

    /// How many bytes the next read may bring.
    pub fn input_space(&self) -> (r: usize)
        requires
            self.well_formed(),
        ensures
            r == self.chunk_size_v() - self.pending_v().len(),
    {
        self.chunk_size - self.buf_in.len()
    }

    /// Ends the stream on an error of the input.
    pub fn fail(&mut self)
        requires
            old(self).well_formed(),
        ensures
            final(self).well_formed(),
            final(self).phase_v() is Done,
            final(self).failed_v(),
            final(self).emitted_v() == old(self).emitted_v(),
    {
        self.phase = GzipPhase::Done;
        self.failed = true;
    }

    /// Hands out the output held back, and starts a fresh buffer.
    fn take_output(&mut self) -> (r: Vec<u8>)
        requires
            old(self).keeps_framing(),
        ensures
            final(self).well_formed(),
            r@ == old(self).out_v(),
            final(self).out_v() == Seq::<u8>::empty(),
            final(self).emitted_v() == old(self).emitted_v() + old(self).out_v(),
            final(self).phase == old(self).phase,
            final(self).failed == old(self).failed,
            final(self).chunk_size == old(self).chunk_size,
            final(self).body == old(self).body,
            final(self).read == old(self).read,
            final(self).crc == old(self).crc,
            final(self).compressor == old(self).compressor,
            final(self).buf_in == old(self).buf_in,
            final(self).footer == old(self).footer,
            final(self).footer_written == old(self).footer_written,
            final(self).mtime == old(self).mtime,
    {
        let mut chunk = create_output_buffer(self.chunk_size);
        std::mem::swap(&mut chunk, &mut self.buf_out);
        chunk.truncate(self.offset_out);
        proof {
            self.emitted@ = self.emitted@ + chunk@;
        }
        self.offset_out = 0;
        proof {
            assert(self.out_v() =~= Seq::<u8>::empty());
            assert(self.emitted@ + self.out_v() =~= old(self).emitted@ + old(self).out_v());
        }
        chunk
    }

    /// Whether the output held back, `out`, is handed out after the
    /// compressor took `used` bytes: when the buffer is full, or when the
    /// compressor took nothing and something is waiting.
    pub open spec fn emits(&self, out: Seq<u8>, used: nat) -> bool {
        out.len() >= self.chunk_size_v() || (used == 0 && out.len() > 0)
    }

    /// `data` has been read: it joins the input waiting, and unless nothing
    /// waits at all (the input has ended; the stream moves on to collect the
    /// compressor's last output) the compressor is given all of it. What it
    /// takes leaves the waiting input, what it writes joins the output held
    /// back, and that output is handed out when `emits` says so. The stream
    /// fails exactly where the compressor reports an error.
    pub fn on_read(&mut self, data: &[u8]) -> (r: Result<Option<Vec<u8>>, GzipError>)
        requires
            old(self).well_formed(),
            old(self).phase_v() is Reading,
            data.len() <= old(self).chunk_size_v() - old(self).pending_v().len(),
        ensures
            final(self).well_formed(),
            final(self).read_v() == old(self).read_v() + data@,
            final(self).chunk_size_v() == old(self).chunk_size_v(),
            final(self).mtime_v() == old(self).mtime_v(),
            old(self).pending_v() + data@ == Seq::<u8>::empty() ==> {
                &&& r == Ok::<Option<Vec<u8>>, GzipError>(None)
                &&& final(self).phase_v() is Dumping
                &&& final(self).emitted_v() == old(self).emitted_v()
                &&& final(self).out_v() == old(self).out_v()
                &&& final(self).body_v() == old(self).body_v()
            },
            old(self).pending_v() + data@ != Seq::<u8>::empty() ==> (r is Err <==> spec_deflate_fails(
                old(self).compressor_v(),
                old(self).pending_v() + data@,
                (old(self).chunk_size_v() - old(self).out_v().len()) as nat,
                false,
            )),
            old(self).pending_v() + data@ != Seq::<u8>::empty() ==> match r {
                Err(_) => final(self).phase_v() is Done && final(self).failed_v()
                    && final(self).emitted_v() == old(self).emitted_v(),
                Ok(c) => {
                    let used = (final(self).consumed_v().len() - old(self).consumed_v().len()) as nat;
                    let produced = final(self).body_v().skip(old(self).body_v().len() as int);
                    let out = old(self).out_v() + produced;
                    &&& final(self).phase_v() is Reading
                    &&& final(self).body_v() == old(self).body_v() + produced
                    &&& final(self).consumed_v() == old(self).consumed_v() + (old(self).pending_v() + data@).take(used as int)
                    &&& final(self).pending_v() == (old(self).pending_v() + data@).skip(used as int)
                    &&& out.len() <= final(self).chunk_size_v()
                    &&& match c {
                        Some(chunk) => old(self).emits(out, used) && chunk@ == out
                            && final(self).out_v() == Seq::<u8>::empty()
                            && final(self).emitted_v() == old(self).emitted_v() + chunk@,
                        None => !old(self).emits(out, used) && final(self).out_v() == out
                            && final(self).emitted_v() == old(self).emitted_v(),
                    }
                },
            },
    {
        let mut pending: Vec<u8> = Vec::new();
        std::mem::swap(&mut pending, &mut self.buf_in);
        let ghost old_pending = pending@;
        let mut k: usize = 0;
        while k < data.len()
            invariant
                k <= data.len(),
                pending@ == old_pending + data@.take(k as int),
            decreases data.len() - k,
        {
            pending.push(data[k]);
            proof {
                assert(data@.take(k + 1) =~= data@.take(k as int).push(data@[k as int]));
            }
            k = k + 1;
        }
        std::mem::swap(&mut pending, &mut self.buf_in);
        proof {
            assert(data@.take(data.len() as int) =~= data@);
            assert(self.buf_in@ =~= old(self).buf_in@ + data@);
            self.read@ = self.read@ + data@;
            assert(self.read@ =~= crc_input(self.crc) + self.buf_in@);
        }
        if self.buf_in.len() == 0 {
            assert(old(self).buf_in@ + data@ =~= Seq::<u8>::empty());
            self.phase = GzipPhase::Dumping;
            return Ok(None);
        }
        let space = self.chunk_size - self.offset_out;
        let in_before = compress_total_in(&self.compressor);
        let out_before = compress_total_out(&self.compressor);
        let ok = deflate_some(&mut self.compressor, self.buf_in.as_slice(), &mut self.buf_out, self.offset_out);
        proof {
            assert(self.out_v() =~= old(self).out_v());
        }
        if !ok {
            self.phase = GzipPhase::Done;
            self.failed = true;
            return Err(GzipError::Compress);
        }
        let in_after = compress_total_in(&self.compressor);
        let out_after = compress_total_out(&self.compressor);
        let used = (in_after - in_before) as usize;
        let produced = (out_after - out_before) as usize;
        let ghost produced_bytes = self.buf_out@.subrange(self.offset_out as int, self.offset_out + produced);
        // the compressor took the first `used` bytes
        let ghost all_in = self.buf_in@;
        let mut rest: Vec<u8> = Vec::new();
        let mut j: usize = used;
        while j < self.buf_in.len()
            invariant
                used <= j <= self.buf_in@.len(),
                rest@ == self.buf_in@.subrange(used as int, j as int),
            decreases self.buf_in@.len() - j,
        {
            rest.push(self.buf_in[j]);
            proof {
                assert(self.buf_in@.subrange(used as int, j + 1) =~= self.buf_in@.subrange(used as int, j as int).push(self.buf_in@[j as int]));
            }
            j = j + 1;
        }
        crc_update(&mut self.crc, vstd::slice::slice_subrange(self.buf_in.as_slice(), 0, used));
        self.buf_in = rest;
        proof {
            assert(all_in.subrange(0, used as int) =~= all_in.take(used as int));
            assert(all_in.take(used as int) + all_in.skip(used as int) =~= all_in);
            assert(self.buf_in@ =~= all_in.skip(used as int));
            assert(self.read@ =~= crc_input(self.crc) + self.buf_in@);
        }
        let ghost old_offset = self.offset_out;
        self.offset_out = self.offset_out + produced;
        proof {
            assert(self.buf_out@.take(self.offset_out as int) =~= self.buf_out@.take(old_offset as int) + produced_bytes);
            assert(self.footer@.take(self.footer_written as int) =~= Seq::<u8>::empty());
            assert(old(self).footer@.take(old(self).footer_written as int) =~= Seq::<u8>::empty());
            assert(self.buf_out@.take(old_offset as int) == old(self).out_v());
            assert(old(self).emitted@ + old(self).out_v() =~= self.header_v() + old(self).body@);
            assert(self.emitted@ + (old(self).out_v() + produced_bytes) =~= (self.emitted@ + old(self).out_v()) + produced_bytes);
            assert(self.header_v() + (old(self).body@ + produced_bytes) =~= (self.header_v() + old(self).body@) + produced_bytes);
            self.body@ = self.body@ + produced_bytes;
            assert(self.out_v() =~= old(self).out_v() + produced_bytes);
            assert(self.body@.skip(old(self).body@.len() as int) =~= produced_bytes);
            assert(self.emitted@ + self.out_v() =~= self.header_v() + self.body@ + self.footer@.take(self.footer_written as int));
        }
        if self.offset_out >= self.chunk_size || (used == 0 && self.offset_out > 0) {
            let chunk = self.take_output();
            Ok(Some(chunk))
        } else {
            Ok(None)
        }
    }
    /// The input has ended: collects the compressor's last output. Where it
    /// writes nothing more, the footer of the input is made and the stream
    /// moves on to write it; else the output held back is handed out once
    /// the buffer is full. The stream fails exactly where the compressor
    /// reports an error.
    pub fn dump(&mut self) -> (r: Result<Option<Vec<u8>>, GzipError>)
        requires
            old(self).well_formed(),
            old(self).phase_v() is Dumping,
        ensures
            final(self).well_formed(),
            final(self).read_v() == old(self).read_v(),
            final(self).consumed_v() == old(self).consumed_v(),
            final(self).chunk_size_v() == old(self).chunk_size_v(),
            final(self).mtime_v() == old(self).mtime_v(),
            r is Err <==> spec_deflate_fails(
                old(self).compressor_v(),
                Seq::<u8>::empty(),
                (old(self).chunk_size_v() - old(self).out_v().len()) as nat,
                true,
            ),
            match r {
                Err(_) => final(self).phase_v() is Done && final(self).failed_v()
                    && final(self).emitted_v() == old(self).emitted_v(),
                Ok(c) => {
                    let produced = final(self).body_v().skip(old(self).body_v().len() as int);
                    let out = old(self).out_v() + produced;
                    &&& final(self).body_v() == old(self).body_v() + produced
                    &&& out.len() <= final(self).chunk_size_v()
                    &&& produced.len() == 0 ==> {
                        &&& c is None
                        &&& final(self).phase_v() is Footer
                        &&& final(self).footer_v() == footer_of(old(self).consumed_v())
                        &&& final(self).footer_written_v() == 0
                        &&& final(self).out_v() == old(self).out_v()
                        &&& final(self).emitted_v() == old(self).emitted_v()
                    }
                    &&& produced.len() > 0 ==> {
                        &&& final(self).phase_v() is Dumping
                        &&& match c {
                            Some(chunk) => out.len() >= final(self).chunk_size_v() && chunk@ == out
                                && final(self).out_v() == Seq::<u8>::empty()
                                && final(self).emitted_v() == old(self).emitted_v() + chunk@,
                            None => out.len() < final(self).chunk_size_v() && final(self).out_v() == out
                                && final(self).emitted_v() == old(self).emitted_v(),
                        }
                    }
                },
            },
    {
        let space = self.chunk_size - self.offset_out;
        let out_before = compress_total_out(&self.compressor);
        let ok = deflate_finish(&mut self.compressor, &mut self.buf_out, self.offset_out);
        proof {
            assert(self.out_v() =~= old(self).out_v());
        }
        if !ok {
            self.phase = GzipPhase::Done;
            self.failed = true;
            return Err(GzipError::Compress);
        }
        let out_after = compress_total_out(&self.compressor);
        let produced = (out_after - out_before) as usize;
        if produced == 0 {
            let sum = crc_sum(&self.crc);
            let amount = crc_amount(&self.crc);
            self.footer = crc_footer(sum, amount);
            self.footer_written = 0;
            self.phase = GzipPhase::Footer;
            proof {
                assert(self.body@.skip(old(self).body@.len() as int) =~= Seq::<u8>::empty());
                assert(self.body@ =~= old(self).body@ + Seq::<u8>::empty());
                assert(self.footer@.take(0) =~= Seq::<u8>::empty());
                assert(old(self).footer@.take(old(self).footer_written as int) =~= Seq::<u8>::empty());
                assert(old(self).out_v() + Seq::<u8>::empty() =~= old(self).out_v());
            }
            return Ok(None);
        }
        let ghost produced_bytes = self.buf_out@.subrange(self.offset_out as int, self.offset_out + produced);
        let ghost old_offset = self.offset_out;
        self.offset_out = self.offset_out + produced;
        proof {
            assert(self.buf_out@.take(self.offset_out as int) =~= self.buf_out@.take(old_offset as int) + produced_bytes);
            assert(self.footer@.take(self.footer_written as int) =~= Seq::<u8>::empty());
            assert(old(self).footer@.take(old(self).footer_written as int) =~= Seq::<u8>::empty());
            assert(self.buf_out@.take(old_offset as int) == old(self).out_v());
            assert(old(self).emitted@ + old(self).out_v() =~= self.header_v() + old(self).body@);
            assert(self.emitted@ + (old(self).out_v() + produced_bytes) =~= (self.emitted@ + old(self).out_v()) + produced_bytes);
            assert(self.header_v() + (old(self).body@ + produced_bytes) =~= (self.header_v() + old(self).body@) + produced_bytes);
            self.body@ = self.body@ + produced_bytes;
            assert(self.out_v() =~= old(self).out_v() + produced_bytes);
            assert(self.body@.skip(old(self).body@.len() as int) =~= produced_bytes);
        }
        if self.offset_out >= self.chunk_size {
            let chunk = self.take_output();
            Ok(Some(chunk))
        } else {
            Ok(None)
        }
    }

    /// Writes as much of the footer as the buffer holds and hands out the
    /// output; once the footer is all written, the stream ends.
    pub fn footer_chunk(&mut self) -> (r: Option<Vec<u8>>)
        requires
            old(self).well_formed(),
            old(self).phase_v() is Footer,
        ensures
            final(self).well_formed(),
            final(self).read_v() == old(self).read_v(),
            final(self).consumed_v() == old(self).consumed_v(),
            final(self).body_v() == old(self).body_v(),
            final(self).footer_v() == old(self).footer_v(),
            final(self).chunk_size_v() == old(self).chunk_size_v(),
            final(self).mtime_v() == old(self).mtime_v(),
            old(self).footer_written_v() >= 8 ==> {
                &&& r is None
                &&& final(self).phase_v() is Done
                &&& !final(self).failed_v()
                &&& final(self).emitted_v() == old(self).emitted_v()
            },
            old(self).footer_written_v() < 8 ==> {
                let w = old(self).footer_written_v();
                let space = old(self).chunk_size_v() - old(self).out_v().len();
                let n = if space < 8 - w { space } else { 8 - w };
                &&& r matches Some(chunk) && chunk@ == old(self).out_v() + old(self).footer_v().subrange(w as int, w + n)
                    && final(self).emitted_v() == old(self).emitted_v() + chunk@
                &&& final(self).footer_written_v() == w + n
                &&& final(self).phase_v() is Footer
                &&& final(self).out_v() == Seq::<u8>::empty()
            },
    {
        let left = 8 - self.footer_written;
        if left == 0 {
            self.phase = GzipPhase::Done;
            return None;
        }
        let space = self.chunk_size - self.offset_out;
        let can_write = if space < left { space } else { left };
        let w = self.footer_written;
        let o = self.offset_out;
        let mut buf: Vec<u8> = Vec::new();
        std::mem::swap(&mut buf, &mut self.buf_out);
        let ghost before = buf@;
        let mut i: usize = 0;
        while i < can_write
            invariant
                i <= can_write,
                o + can_write <= buf@.len(),
                o + can_write <= usize::MAX,
                w + can_write <= usize::MAX,
                w + can_write <= self.footer@.len(),
                buf@.len() == before.len(),
                buf@.take(o as int) == before.take(o as int),
                buf@.subrange(o as int, o + i) == self.footer@.subrange(w as int, w + i),
            decreases can_write - i,
        {
            buf.set(o + i, self.footer[w + i]);
            proof {
                assert(buf@.take(o as int) =~= before.take(o as int));
                assert(buf@.subrange(o as int, o + i + 1) =~= self.footer@.subrange(w as int, w + i + 1));
            }
            i = i + 1;
        }
        std::mem::swap(&mut buf, &mut self.buf_out);
        self.footer_written = self.footer_written + can_write;
        self.offset_out = self.offset_out + can_write;
        proof {
            let fw = self.footer@.subrange(w as int, w + can_write);
            assert(self.out_v() =~= old(self).out_v() + fw);
            assert(self.footer@.take(self.footer_written as int) =~= self.footer@.take(w as int) + fw);
            assert(self.emitted@ + (old(self).out_v() + fw) =~= (self.emitted@ + old(self).out_v()) + fw);
            assert(self.header_v() + self.body@ + (self.footer@.take(w as int) + fw) =~= (self.header_v() + self.body@ + self.footer@.take(w as int)) + fw);
        }
        let chunk = self.take_output();
        Some(chunk)
    }

    /// While no error has come, the compressor has taken exactly the input
    /// counted as consumed, and written exactly the body.
    pub proof fn lemma_compressor_tracks(&self)
        requires
            self.well_formed(),
            !self.failed_v(),
        ensures
            compress_input(self.compressor_v()) == self.consumed_v(),
            compress_output(self.compressor_v()) == self.body_v(),
    {
    }

    /// A stream that ended without an error handed out, in order, the gzip
    /// header, all that the compressor wrote, and the CRC-32 and length of
    /// the input; and the compressor was given all the input read, once and
    /// in order.
    pub proof fn lemma_complete_stream(&self)
        requires
            self.well_formed(),
            self.phase_v() is Done,
            !self.failed_v(),
        ensures
            self.emitted_v() == self.header_v() + self.body_v() + footer_of(self.read_v()),
            self.consumed_v() == self.read_v(),
            compress_input(self.compressor_v()) == self.read_v(),
            self.body_v() == compress_output(self.compressor_v()),
    {
        assert(self.read@ =~= crc_input(self.crc));
        assert(self.out_v() =~= Seq::<u8>::empty());
        assert(self.footer@.take(8) =~= self.footer@);
        assert(self.emitted@ + Seq::<u8>::empty() =~= self.emitted@);
    }
}

} // verus!
