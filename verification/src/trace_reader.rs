//! ChampSim trace records, the memory accesses they carry, and the reader
//! that decodes them from a byte stream.

use vstd::prelude::*;
use vstd::string::*;
use vstd::bytes::{spec_u64_from_le_bytes, spec_u64_to_le_bytes, u64_from_le_bytes, lemma_auto_spec_u64_to_from_le_bytes};
use vstd::slice::slice_subrange;
use std::io::Read;
use crate::error::{AsterError, ErrorKind, error_is, kind_of};

verus! {

#[verifier::external_type_specification]
#[verifier::external_body]
#[verifier::reject_recursive_types(R)]
pub struct ExBufReader<R: ?Sized>(std::io::BufReader<R>);

/// A single load or store extracted from an [`InputInstruction`], passed
/// through the cache hierarchy. `hit` is filled in by the cache that serves it.
#[derive(Clone, Copy, Debug)]
pub struct MemAccess {
    pub addr: u64,
    pub pc: u64,
    pub is_write: bool,
    pub hit: Option<bool>,
}

/// Number of memory destinations of a ChampSim instruction.
pub const NUM_INSTR_DESTINATIONS: usize = 2;

/// Number of memory sources of a ChampSim instruction.
pub const NUM_INSTR_SOURCES: usize = 4;

/// Size in bytes of one ChampSim instruction record.
pub const RECORD_BYTES: usize = 64;

/// One ChampSim instruction record.
#[derive(Clone, Copy, Debug, PartialEq, Eq)]
pub struct InputInstruction {
    pub ip: u64,
    pub is_branch: u8,
    pub branch_taken: u8,
    pub dst_regs: [u8; NUM_INSTR_DESTINATIONS],
    pub src_regs: [u8; NUM_INSTR_SOURCES],
    pub dst_mem: [u64; NUM_INSTR_DESTINATIONS],
    pub src_mem: [u64; NUM_INSTR_SOURCES],
}

/// The accesses of `addrs` that are not zero (zero means "no access"), in
/// order, each by `pc`.
pub open spec fn nonzero_accesses(addrs: Seq<u64>, pc: u64, is_write: bool) -> Seq<MemAccess>
    decreases addrs.len(),
{
    if addrs.len() == 0 {
        Seq::empty()
    } else {
        let rest = nonzero_accesses(addrs.drop_last(), pc, is_write);
        if addrs.last() != 0 {
            rest.push(MemAccess { addr: addrs.last(), pc, is_write, hit: None })
        } else {
            rest
        }
    }
}

/// The memory accesses of an instruction: its loads, then its stores.
pub open spec fn accesses_of(i: InputInstruction) -> Seq<MemAccess> {
    nonzero_accesses(i.src_mem@, i.ip, false) + nonzero_accesses(i.dst_mem@, i.ip, true)
}

/// The 64 record bytes of an instruction: `ip`, the two branch flags, the
/// destination and source registers, the destination addresses and the
/// source addresses, every number little-endian.
pub open spec fn encoded(i: InputInstruction) -> Seq<u8> {
    spec_u64_to_le_bytes(i.ip) + seq![i.is_branch, i.branch_taken] + i.dst_regs@ + i.src_regs@
        + spec_u64_to_le_bytes(i.dst_mem@[0]) + spec_u64_to_le_bytes(i.dst_mem@[1])
        + spec_u64_to_le_bytes(i.src_mem@[0]) + spec_u64_to_le_bytes(i.src_mem@[1])
        + spec_u64_to_le_bytes(i.src_mem@[2]) + spec_u64_to_le_bytes(i.src_mem@[3])
}

/// The little-endian number in the eight bytes of `b` from `at`.
pub open spec fn le_u64_at(b: Seq<u8>, at: int) -> u64 {
    spec_u64_from_le_bytes(b.subrange(at, at + 8))
}

/// `i` is what the record bytes `b` hold.
pub open spec fn decodes(b: Seq<u8>, i: InputInstruction) -> bool {
    &&& b.len() == RECORD_BYTES
    &&& i.ip == le_u64_at(b, 0)
    &&& i.is_branch == b[8]
    &&& i.branch_taken == b[9]
    &&& i.dst_regs@ == b.subrange(10, 12)
    &&& i.src_regs@ == b.subrange(12, 16)
    &&& i.dst_mem@ == seq![le_u64_at(b, 16), le_u64_at(b, 24)]
    &&& i.src_mem@ == seq![le_u64_at(b, 32), le_u64_at(b, 40), le_u64_at(b, 48), le_u64_at(b, 56)]
}

/// Decoding an encoded instruction gives the instruction back, and the
/// record of a decoded instruction is the bytes it was decoded from.
pub proof fn lemma_record_roundtrip(i: InputInstruction, b: Seq<u8>)
    ensures
        decodes(encoded(i), i),
        decodes(b, i) ==> encoded(i) == b,
{
    lemma_auto_spec_u64_to_from_le_bytes();
    let e = encoded(i);
    assert(spec_u64_to_le_bytes(i.ip).len() == 8);
    assert(e.subrange(0, 8) =~= spec_u64_to_le_bytes(i.ip));
    assert(e.subrange(10, 12) =~= i.dst_regs@);
    assert(e.subrange(12, 16) =~= i.src_regs@);
    assert(e.subrange(16, 24) =~= spec_u64_to_le_bytes(i.dst_mem@[0]));
    assert(e.subrange(24, 32) =~= spec_u64_to_le_bytes(i.dst_mem@[1]));
    assert(e.subrange(32, 40) =~= spec_u64_to_le_bytes(i.src_mem@[0]));
    assert(e.subrange(40, 48) =~= spec_u64_to_le_bytes(i.src_mem@[1]));
    assert(e.subrange(48, 56) =~= spec_u64_to_le_bytes(i.src_mem@[2]));
    assert(e.subrange(56, 64) =~= spec_u64_to_le_bytes(i.src_mem@[3]));
    assert(i.dst_mem@ =~= seq![le_u64_at(e, 16), le_u64_at(e, 24)]);
    assert(i.src_mem@ =~= seq![le_u64_at(e, 32), le_u64_at(e, 40), le_u64_at(e, 48), le_u64_at(e, 56)]);
    if decodes(b, i) {
        assert(spec_u64_to_le_bytes(spec_u64_from_le_bytes(b.subrange(0, 8))) == b.subrange(0, 8));
        assert(spec_u64_to_le_bytes(spec_u64_from_le_bytes(b.subrange(16, 24))) == b.subrange(16, 24));
        assert(spec_u64_to_le_bytes(spec_u64_from_le_bytes(b.subrange(24, 32))) == b.subrange(24, 32));
        assert(spec_u64_to_le_bytes(spec_u64_from_le_bytes(b.subrange(32, 40))) == b.subrange(32, 40));
        assert(spec_u64_to_le_bytes(spec_u64_from_le_bytes(b.subrange(40, 48))) == b.subrange(40, 48));
        assert(spec_u64_to_le_bytes(spec_u64_from_le_bytes(b.subrange(48, 56))) == b.subrange(48, 56));
        assert(spec_u64_to_le_bytes(spec_u64_from_le_bytes(b.subrange(56, 64))) == b.subrange(56, 64));
        assert(i.dst_mem@[0] == le_u64_at(b, 16));
        assert(i.dst_mem@[1] == le_u64_at(b, 24));
        assert(i.src_mem@[0] == le_u64_at(b, 32));
        assert(i.src_mem@[1] == le_u64_at(b, 40));
        assert(i.src_mem@[2] == le_u64_at(b, 48));
        assert(i.src_mem@[3] == le_u64_at(b, 56));
        assert(e =~= b);
    }
}

/// The little-endian number in the eight bytes of `record` from `at`.
fn read_u64(record: &[u8; RECORD_BYTES], at: usize) -> (r: u64)
    requires
        at + 8 <= RECORD_BYTES,
    ensures
        r == le_u64_at(record@, at as int),
{
    let bytes: &[u8] = record.as_slice();
    u64_from_le_bytes(slice_subrange(bytes, at, at + 8))
}

/// Decodes one record.
pub fn decode_instruction(record: &[u8; RECORD_BYTES]) -> (i: InputInstruction)
    ensures
        decodes(record@, i),
{
    let i = InputInstruction {
        ip: read_u64(record, 0),
        is_branch: record[8],
        branch_taken: record[9],
        dst_regs: [record[10], record[11]],
        src_regs: [record[12], record[13], record[14], record[15]],
        dst_mem: [read_u64(record, 16), read_u64(record, 24)],
        src_mem: [read_u64(record, 32), read_u64(record, 40), read_u64(record, 48), read_u64(record, 56)],
    };
    proof {
        assert(i.dst_regs@ =~= record@.subrange(10, 12));
        assert(i.src_regs@ =~= record@.subrange(12, 16));
        assert(i.dst_mem@ =~= seq![le_u64_at(record@, 16), le_u64_at(record@, 24)]);
        assert(i.src_mem@ =~= seq![
            le_u64_at(record@, 32),
            le_u64_at(record@, 40),
            le_u64_at(record@, 48),
            le_u64_at(record@, 56),
        ]);
    }
    i
}

/// Appends the nonzero addresses of `addrs` to `out` as accesses by `pc`.
fn push_nonzero(out: &mut Vec<MemAccess>, addrs: &[u64], pc: u64, is_write: bool)
    ensures
        final(out)@ == old(out)@ + nonzero_accesses(addrs@, pc, is_write),
{
    let ghost start = out@;
    let n = addrs.len();
    let mut k: usize = 0;
    proof {
        assert(addrs@.take(0) =~= Seq::<u64>::empty());
        assert(start + Seq::<MemAccess>::empty() =~= start);
    }
    while k < n
        invariant
            k <= n,
            n == addrs@.len(),
            out@ == start + nonzero_accesses(addrs@.take(k as int), pc, is_write),
        decreases n - k,
    {
        proof {
            assert(addrs@.take(k as int + 1).drop_last() =~= addrs@.take(k as int));
        }
        let a = addrs[k];
        if a != 0 {
            out.push(MemAccess { addr: a, pc, is_write, hit: None });
            proof {
                let ghost r = nonzero_accesses(addrs@.take(k as int), pc, is_write);
                assert(start + r.push(MemAccess { addr: a, pc, is_write, hit: None }) =~= (start + r).push(
                    MemAccess { addr: a, pc, is_write, hit: None },
                ));
            }
        }
        k = k + 1;
    }
    proof {
        assert(addrs@.take(n as int) =~= addrs@);
    }
}

impl InputInstruction {
    /// One [`MemAccess`] per nonzero load/store address, loads before
    /// stores. A zero address is treated as "no access" (ChampSim's
    /// convention for unused source/dest slots).
    pub fn mem_access(&self) -> (r: Vec<MemAccess>)
        ensures
            r@ == accesses_of(*self),
    {
        let mut out: Vec<MemAccess> = Vec::new();
        push_nonzero(&mut out, self.src_mem.as_slice(), self.ip, false);
        push_nonzero(&mut out, self.dst_mem.as_slice(), self.ip, true);
        proof {
            assert(out@ =~= accesses_of(*self));
        }
        out
    }

    /// The instruction pointer.
    pub fn ip(&self) -> (r: u64)
        ensures
            r == self.ip,
    {
        self.ip
    }
}

/// What reading one record from a byte stream gave: a whole record, the end
/// of the stream (no byte, or too few bytes for a whole record), or another
/// failure.
pub enum RecordRead {
    Record([u8; RECORD_BYTES]),
    End(std::io::Error),
    Failed(std::io::Error),
}

/// Turns what reading one record gave into a decoded instruction, or the
/// I/O error (at the end of the stream as on another failure).
pub fn instruction_from_record(read: RecordRead) -> (r: Result<InputInstruction, AsterError>)
    ensures
        match read {
            RecordRead::Record(b) => r matches Ok(i) && decodes(b@, i),
            RecordRead::End(e) => r == Err::<InputInstruction, AsterError>(AsterError::Io(e)),
            RecordRead::Failed(e) => r == Err::<InputInstruction, AsterError>(AsterError::Io(e)),
        },
{
    match read {
        RecordRead::Record(buf) => Ok(decode_instruction(&buf)),
        RecordRead::End(e) => Err(AsterError::Io(e)),
        RecordRead::Failed(e) => Err(AsterError::Io(e)),
    }
}

/// The I/O error is of kind `std::io::ErrorKind::UnexpectedEof`.
pub uninterp spec fn is_unexpected_eof(e: std::io::Error) -> bool;

/// Reads one record with `std::io::Read::read_exact`.
///
/// Nothing is claimed of the bytes: they are whatever the stream holds. An
/// error of kind `UnexpectedEof` is reported as the end of the stream, every
/// other error as a failure; that split is all the contract claims.
#[verifier::external_body]
fn read_record<R: Read>(reader: &mut std::io::BufReader<R>) -> (r: RecordRead)
    ensures
        r matches RecordRead::End(e) ==> is_unexpected_eof(e),
        r matches RecordRead::Failed(e) ==> !is_unexpected_eof(e),
{
    let mut buf = [0u8; RECORD_BYTES];
    match reader.read_exact(&mut buf) {
        Ok(()) => RecordRead::Record(buf),
        Err(e) => if e.kind() == std::io::ErrorKind::UnexpectedEof {
            RecordRead::End(e)
        } else {
            RecordRead::Failed(e)
        },
    }
}

/// Wraps `reader` with `std::io::BufReader::new`.
#[verifier::external_body]
fn buffered<R: Read>(reader: R) -> std::io::BufReader<R> {
    std::io::BufReader::new(reader)
}

/// Reader of ChampSim's fixed-size binary instruction trace
/// format, read from any byte stream.
#[verifier::reject_recursive_types(R)]
pub struct ChampSimReader<R> {
    reader: std::io::BufReader<R>,
    pub instructions_read: usize,
}

impl<R> ChampSimReader<R> {
    /// Number of instructions successfully read so far.
    pub closed spec fn read_count(&self) -> nat {
        self.instructions_read as nat
    }

    /// Number of instructions successfully read so far.
    pub fn instructions_read(&self) -> (n: usize)
        ensures
            n == self.read_count(),
    {
        self.instructions_read
    }
}

impl<R: Read> ChampSimReader<R> {
    /// A reader over `reader` that has read nothing yet.
    pub fn new(reader: R) -> (r: Self)
        ensures
            r.read_count() == 0,
    {
        Self { reader: buffered(reader), instructions_read: 0 }
    }

    /// Reads and decodes one fixed-size [`InputInstruction`] record.
    ///
    /// # Errors
    /// Returns [`AsterError::Io`] if the record cannot be read in full, at
    /// the end of the trace as on a genuine I/O failure.
    pub fn read_instruction(&mut self) -> (r: Result<InputInstruction, AsterError>)
        ensures
            final(self).read_count() == old(self).read_count(),
            r matches Err(e) ==> kind_of(e) == ErrorKind::Io,
    {
        let read = read_record(&mut self.reader);
        instruction_from_record(read)
    }

    /// Turns what reading one record gave into the next item of the trace:
    /// a decoded instruction (counted), `None` at the end, or the I/O error.
    pub fn take_record(&mut self, read: RecordRead) -> (r: Option<Result<InputInstruction, AsterError>>)
        requires
            old(self).read_count() < usize::MAX,
        ensures
            match read {
                RecordRead::Record(b) => r matches Some(Ok(i)) && decodes(b@, i)
                    && final(self).read_count() == old(self).read_count() + 1,
                RecordRead::End(_) => r is None && final(self).read_count() == old(self).read_count(),
                RecordRead::Failed(e) => r == Some(Err::<InputInstruction, AsterError>(AsterError::Io(e)))
                    && final(self).read_count() == old(self).read_count(),
            },
    {
        match read {
            RecordRead::Record(buf) => {
                let instr = decode_instruction(&buf);
                self.instructions_read = self.instructions_read + 1;
                Some(Ok(instr))
            },
            RecordRead::End(_) => None,
            RecordRead::Failed(e) => Some(Err(AsterError::Io(e))),
        }
    }

    /// Returns the next instruction, `None` at the end of the trace, or
    /// `Some(Err)` on a read failure; only decoded instructions are counted.
    pub fn next_instruction(&mut self) -> (r: Option<Result<InputInstruction, AsterError>>)
        requires
            old(self).read_count() < usize::MAX,
        ensures
            final(self).read_count() == old(self).read_count() + (if r matches Some(Ok(_)) {
                1int
            } else {
                0int
            }),
            r matches Some(Err(e)) ==> kind_of(e) == ErrorKind::Io,
            r matches Some(Err(e)) ==> (e matches AsterError::Io(io) && !is_unexpected_eof(io)),
    {
        let read = read_record(&mut self.reader);
        self.take_record(read)
    }
}

/// The trace formats the simulator reads.
#[derive(Clone, Copy, Debug, PartialEq, Eq, Structural)]
pub enum TraceFormat {
    /// ChampSim's binary format, gzip-compressed.
    ChampSim,
}

/// The extension of the last component of `path`, as
/// `std::path::Path::extension` finds it.
pub uninterp spec fn path_extension_of(path: Seq<char>) -> Option<Seq<char>>;

/// The extension of `path`, by `std::path::Path::extension`, turned into a
/// `String` (lossless here: the path came from a `&str`, so it is UTF-8).
///
/// Nothing more is claimed of the rules by which the standard library
/// splits a path into components and a file name into stem and extension;
/// the result is named by `path_extension_of`.
#[verifier::external_body]
fn path_extension(path: &str) -> (r: Option<String>)
    ensures
        match r {
            Some(e) => path_extension_of(path@) == Some(e@),
            None => path_extension_of(path@) is None,
        },
{
    match std::path::Path::new(path).extension() {
        Some(e) => Some(e.to_string_lossy().into_owned()),
        None => None,
    }
}

/// `path` ends with `suffix`.
pub open spec fn has_suffix(path: Seq<char>, suffix: Seq<char>) -> bool {
    path.len() >= suffix.len() && path.subrange(path.len() - suffix.len(), path.len() as int)
        == suffix
}

/// `path` without its gzip suffix: a trailing `.trace.gz` if it has one,
/// else a trailing `.gz` if it has one.
pub open spec fn strip_gz(path: Seq<char>) -> Seq<char> {
    if has_suffix(path, ".trace.gz"@) {
        path.subrange(0, path.len() - 9)
    } else if has_suffix(path, ".gz"@) {
        path.subrange(0, path.len() - 3)
    } else {
        path
    }
}

/// The message for a path without an extension.
pub open spec fn no_extension_message() -> Seq<char> {
    "no extension"@
}

/// The format that an extension names, or the error for one that names
/// none.
pub open spec fn format_for(ext: Option<Seq<char>>) -> Result<TraceFormat, (ErrorKind, Seq<char>)> {
    match ext {
        Some(e) => if e == "champsimtrace"@ {
            Ok(TraceFormat::ChampSim)
        } else {
            Err((ErrorKind::InvalidTrace, e))
        },
        None => Err((ErrorKind::InvalidTrace, no_extension_message())),
    }
}

/// Picks the trace format that a path extension names.
///
/// # Errors
/// Returns [`AsterError::InvalidTrace`] naming the extension if it names no
/// format, or saying there is no extension.
pub fn format_from_extension(ext: Option<String>) -> (r: Result<TraceFormat, AsterError>)
    ensures
        match format_for(
            match ext {
                Some(e) => Some(e@),
                None => None,
            },
        ) {
            Ok(f) => r == Ok::<TraceFormat, AsterError>(f),
            Err((kind, text)) => r matches Err(e) && error_is(e, kind, text),
        },
{
    match ext {
        Some(e) => {
            if crate::text::str_equal(e.as_str(), "champsimtrace") {
                Ok(TraceFormat::ChampSim)
            } else {
                Err(AsterError::InvalidTrace { fmt: e })
            }
        },
        None => Err(AsterError::InvalidTrace { fmt: String::from_str("no extension") }),
    }
}

/// `path` without the trailing `suffix`, if it ends with it.
fn strip_suffix<'a>(path: &'a str, suffix: &str) -> (r: Option<&'a str>)
    ensures
        has_suffix(path@, suffix@) ==> (r matches Some(p) && p@ == path@.subrange(
            0,
            path@.len() - suffix@.len(),
        )),
        !has_suffix(path@, suffix@) ==> r is None,
{
    let n = path.unicode_len();
    let m = suffix.unicode_len();
    if n < m {
        return None;
    }
    let tail = path.substring_char(n - m, n);
    if crate::text::str_equal(tail, suffix) {
        Some(path.substring_char(0, n - m))
    } else {
        None
    }
}

/// Removes the gzip suffix from `path` (see [`strip_gz`]).
fn strip_gz_suffix(path: &str) -> (r: &str)
    ensures
        r@ == strip_gz(path@),
{
    proof {
        reveal_strlit(".trace.gz");
        reveal_strlit(".gz");
    }
    match strip_suffix(path, ".trace.gz") {
        Some(p) => p,
        None => match strip_suffix(path, ".gz") {
            Some(p) => p,
            None => path,
        },
    }
}

/// Selects the trace format of the file at `path` by its extension, once
/// its gzip suffix (`.trace.gz`, else `.gz`) is stripped.
///
/// # Errors
/// Returns [`AsterError::InvalidTrace`] if the extension is unrecognized or
/// missing.
pub fn trace_format(path: &str) -> (r: Result<TraceFormat, AsterError>)
    ensures
        match format_for(path_extension_of(strip_gz(path@))) {
            Ok(f) => r == Ok::<TraceFormat, AsterError>(f),
            Err((kind, text)) => r matches Err(e) && error_is(e, kind, text),
        },
{
    let stem = strip_gz_suffix(path);
    format_from_extension(path_extension(stem))
}

} // verus!
