use aster::error::ErrorKind;
use aster::trace_reader::{
    decode_instruction, format_from_extension, instruction_from_record, trace_format, ChampSimReader, InputInstruction,
    MemAccess, RecordRead, TraceFormat,
};
use std::io::{self, Cursor, Read};

/// Builds one raw 64-byte ChampSim instruction record.
fn raw_instruction_bytes(ip: u64, loads: [u64; 4], stores: [u64; 2]) -> Vec<u8> {
    let mut buf = Vec::with_capacity(64);
    buf.extend_from_slice(&ip.to_le_bytes());
    buf.push(0); // is_branch
    buf.push(0); // branch_taken
    buf.extend_from_slice(&[0u8; 2]); // dst_regs
    buf.extend_from_slice(&[0u8; 4]); // src_regs
    for s in stores {
        buf.extend_from_slice(&s.to_le_bytes());
    }
    for l in loads {
        buf.extend_from_slice(&l.to_le_bytes());
    }
    assert_eq!(buf.len(), 64);
    buf
}

fn blank_instruction(ip: u64) -> InputInstruction {
    InputInstruction {
        ip,
        is_branch: 0,
        branch_taken: 0,
        dst_regs: [0, 0],
        src_regs: [0, 0, 0, 0],
        dst_mem: [0, 0],
        src_mem: [0, 0, 0, 0],
    }
}

#[test]
fn parse_known_instruction() {
    // bytes of first instruction from 462.libquantum trace
    let raw: Vec<u8> = vec![
        0x42, 0x14, 0x40, 0x00, 0x00, 0x00, 0x00, 0x00, // ip
        0x00, // is_branch
        0x00, // branch_taken
        0x03, 0x00, // dst_regs
        0x0d, 0x00, 0x00, 0x00, // src_regs
        0x00, 0x00, 0x00, 0x00, 0x00, 0x00, 0x00, 0x00, // dst_mem[0]
        0x00, 0x00, 0x00, 0x00, 0x00, 0x00, 0x00, 0x00, // dst_mem[1]
        0xc8, 0x05, 0xf1, 0xee, 0x43, 0x7f, 0x00, 0x00, // src_mem[0]
        0x00, 0x00, 0x00, 0x00, 0x00, 0x00, 0x00, 0x00, // src_mem[1]
        0x00, 0x00, 0x00, 0x00, 0x00, 0x00, 0x00, 0x00, // src_mem[2]
        0x00, 0x00, 0x00, 0x00, 0x00, 0x00, 0x00, 0x00, // src_mem[3]
    ];
    assert_eq!(raw.len(), 64);

    let cursor = Cursor::new(raw);
    let mut reader = ChampSimReader::new(cursor);
    let instr = reader.read_instruction().unwrap();

    assert_eq!(instr.ip, 0x0000000000401442);
    assert_eq!(instr.is_branch, 0);
    assert_eq!(instr.branch_taken, 0);
    assert_eq!(instr.dst_regs[0], 3);
    assert_eq!(instr.src_regs[0], 13);
    assert_eq!(instr.src_mem[0], 0x00007f43eef105c8);
    assert_eq!(instr.dst_mem[0], 0);
}

#[test]
fn decode_reads_every_field_in_place() {
    let mut raw = raw_instruction_bytes(0x1122334455667788, [1, 2, 3, 4], [5, 6]);
    raw[8] = 1;
    raw[9] = 1;
    raw[10] = 7;
    raw[15] = 9;
    let record: [u8; 64] = raw.clone().try_into().unwrap();
    let i = decode_instruction(&record);
    assert_eq!(i.ip, 0x1122334455667788);
    assert_eq!((i.is_branch, i.branch_taken), (1, 1));
    assert_eq!(i.dst_regs, [7, 0]);
    assert_eq!(i.src_regs, [0, 0, 0, 9]);
    assert_eq!(i.dst_mem, [5, 6]);
    assert_eq!(i.src_mem, [1, 2, 3, 4]);
}

#[test]
fn mem_access_yields_loads_before_stores_and_skips_zero_addresses() {
    let mut instr = blank_instruction(0xdead);
    instr.src_mem = [0x1000, 0, 0x1008, 0]; // two real loads, two unused slots
    instr.dst_mem = [0x2000, 0]; // one real store, one unused slot

    let accesses: Vec<MemAccess> = instr.mem_access();
    assert_eq!(accesses.len(), 3);

    assert_eq!(accesses[0].addr, 0x1000);
    assert!(!accesses[0].is_write);
    assert_eq!(accesses[1].addr, 0x1008);
    assert!(!accesses[1].is_write);
    assert_eq!(accesses[2].addr, 0x2000);
    assert!(accesses[2].is_write);

    assert!(accesses.iter().all(|a| a.pc == 0xdead));
    assert!(accesses.iter().all(|a| a.hit.is_none()));
}

#[test]
fn mem_access_yields_nothing_when_all_addresses_are_zero() {
    let instr = blank_instruction(0x10);
    assert_eq!(instr.mem_access().len(), 0);
}

#[test]
fn ip_getter_returns_instruction_pointer() {
    assert_eq!(blank_instruction(0x4242).ip(), 0x4242);
}

#[test]
fn trace_reader_open_trace_rejects_unsupported_extension() {
    match trace_format("foo.bar") {
        Err(e) => assert_eq!(e.kind(), ErrorKind::InvalidTrace),
        Ok(_) => panic!("expected InvalidTrace for an unsupported extension"),
    }
}

#[test]
fn trace_reader_open_trace_rejects_missing_extension() {
    match trace_format("foo") {
        Err(e) => assert_eq!(e.kind(), ErrorKind::InvalidTrace),
        Ok(_) => panic!("expected InvalidTrace for a path with no extension"),
    }
}

#[test]
fn trace_reader_tests_open_trace_rejects_unsupported_extension() {
    match trace_format("foo.bar") {
        Err(e) => assert_eq!(e.kind(), ErrorKind::InvalidTrace),
        Ok(_) => panic!("expected InvalidTrace for an unsupported extension"),
    }
}

#[test]
fn trace_reader_tests_open_trace_rejects_missing_extension() {
    match trace_format("foo") {
        Err(e) => assert_eq!(e.kind(), ErrorKind::InvalidTrace),
        Ok(_) => panic!("expected InvalidTrace for a path with no extension"),
    }
}

#[test]
fn trace_format_strips_the_gzip_suffix_and_names_the_extension() {
    assert_eq!(trace_format("a/b/x.champsimtrace.trace.gz").unwrap(), TraceFormat::ChampSim);
    assert_eq!(trace_format("x.champsimtrace").unwrap(), TraceFormat::ChampSim);
    assert_eq!(trace_format("t.champsimtrace.gz").unwrap(), TraceFormat::ChampSim);
    match trace_format("x.bin.gz") {
        Err(e) => assert_eq!(e.message(), "Unrecognized trace format bin"),
        Ok(_) => panic!("bin is no trace format"),
    }
    match trace_format("x.xz") {
        Err(e) => assert_eq!(e.message(), "Unrecognized trace format xz"),
        Ok(_) => panic!("xz is no trace format"),
    }
    match trace_format("x.trace.gz") {
        Err(e) => assert_eq!(e.message(), "Unrecognized trace format no extension"),
        Ok(_) => panic!("the stem has no extension"),
    }
    assert_eq!(format_from_extension(Some("champsimtrace".to_string())).unwrap(), TraceFormat::ChampSim);
    assert!(format_from_extension(None).is_err());
}

#[test]
fn next_instruction_returns_none_at_clean_eof() {
    let mut reader = ChampSimReader::new(Cursor::new(Vec::<u8>::new()));
    assert!(reader.next_instruction().is_none());
    assert_eq!(reader.instructions_read(), 0);
}

#[test]
fn next_instruction_silently_drops_a_truncated_trailing_record() {
    let mut raw = raw_instruction_bytes(0x1000, [0x2000, 0, 0, 0], [0, 0]);
    raw.extend_from_slice(&[0xAAu8; 30]); // partial second record
    let mut reader = ChampSimReader::new(Cursor::new(raw));

    let first = reader.next_instruction().unwrap().unwrap();
    assert_eq!(first.ip(), 0x1000);
    assert!(reader.next_instruction().is_none());
    assert_eq!(reader.instructions_read(), 1);
}

/// A `Read` that serves `good_bytes` and then fails with a non-EOF error,
/// simulating e.g. a disk failure or a corrupt gzip stream mid-trace.
struct FlakyReader {
    good_bytes: Vec<u8>,
    position: usize,
}

impl Read for FlakyReader {
    fn read(&mut self, buf: &mut [u8]) -> io::Result<usize> {
        if self.position >= self.good_bytes.len() {
            return Err(io::Error::new(io::ErrorKind::PermissionDenied, "simulated disk failure"));
        }
        let n = std::cmp::min(buf.len(), self.good_bytes.len() - self.position);
        buf[..n].copy_from_slice(&self.good_bytes[self.position..self.position + n]);
        self.position += n;
        Ok(n)
    }
}

#[test]
fn next_instruction_propagates_genuine_io_errors_instead_of_swallowing_them() {
    let good = raw_instruction_bytes(0x1000, [0, 0, 0, 0], [0, 0]);
    let mut reader = ChampSimReader::new(FlakyReader { good_bytes: good, position: 0 });

    let first = reader.next_instruction().unwrap().unwrap();
    assert_eq!(first.ip(), 0x1000);

    match reader.next_instruction() {
        Some(Err(e)) => assert_eq!(e.kind(), ErrorKind::Io),
        other => panic!("expected a propagated I/O error, got {other:?}"),
    }
}

#[test]
fn instructions_read_counts_only_successful_reads() {
    let good = raw_instruction_bytes(0x1000, [0, 0, 0, 0], [0, 0]);
    let mut reader = ChampSimReader::new(Cursor::new(good));
    assert_eq!(reader.instructions_read(), 0);
    assert!(reader.next_instruction().unwrap().is_ok());
    assert_eq!(reader.instructions_read(), 1);
    assert!(reader.next_instruction().is_none());
    assert_eq!(reader.instructions_read(), 1, "a clean EOF must not bump the counter");
}

#[test]
fn take_record_maps_each_outcome() {
    let mut reader = ChampSimReader::new(Cursor::new(Vec::<u8>::new()));
    let record: [u8; 64] = raw_instruction_bytes(0x77, [0x80, 0, 0, 0], [0, 0]).try_into().unwrap();
    let got = reader.take_record(RecordRead::Record(record)).unwrap().unwrap();
    assert_eq!(got.ip, 0x77);
    assert_eq!(got.src_mem[0], 0x80);
    assert_eq!(reader.instructions_read(), 1);
    let eof = io::Error::new(io::ErrorKind::UnexpectedEof, "eof");
    assert!(reader.take_record(RecordRead::End(eof)).is_none());
    let failed = io::Error::new(io::ErrorKind::Other, "boom");
    match reader.take_record(RecordRead::Failed(failed)) {
        Some(Err(e)) => assert_eq!(e.kind(), ErrorKind::Io),
        other => panic!("expected the failure, got {other:?}"),
    }
    assert_eq!(reader.instructions_read(), 1);
}

#[test]
fn read_instruction_reports_end_of_trace_as_io() {
    let mut reader = ChampSimReader::new(Cursor::new(vec![1u8; 10]));
    match reader.read_instruction() {
        Err(e) => assert_eq!(e.kind(), ErrorKind::Io),
        Ok(_) => panic!("ten bytes are no record"),
    }
}

#[test]
fn instruction_from_record_maps_each_outcome() {
    let record: [u8; 64] = raw_instruction_bytes(0x91, [0, 0, 0, 0], [0x44, 0]).try_into().unwrap();
    let got = instruction_from_record(RecordRead::Record(record)).unwrap();
    assert_eq!(got.ip, 0x91);
    assert_eq!(got.dst_mem[0], 0x44);
    let eof = io::Error::new(io::ErrorKind::UnexpectedEof, "eof");
    match instruction_from_record(RecordRead::End(eof)) {
        Err(e) => assert_eq!(e.kind(), ErrorKind::Io),
        Ok(_) => panic!("the end of the stream is no instruction"),
    }
    let failed = io::Error::new(io::ErrorKind::Other, "boom");
    match instruction_from_record(RecordRead::Failed(failed)) {
        Err(e) => assert_eq!(e.kind(), ErrorKind::Io),
        Ok(_) => panic!("a failed read is no instruction"),
    }
}
