//! Sequential I/O: plans, rings, readers and writers.

use rsl::durability::{Durability, FilePath, OpenMode};
use rsl::seqio_bench::{
    fill_pattern, next_in_block, parse_args, parse_plain_number, parse_ring_spec, read_window,
    ArgsFault, Mode, ModeFault, NumberFault, RingFault, RingTerm, Tally,
};
use rsl::seqread::{
    open_at, ConfigError, FillStep, ReadPlan, ReadRing, SeqReaderConfig, TakeStep, SECTOR,
};
use rsl::seqwrite::{
    self, DrainStep, DurableDevice, SeqWriteError, SeqWriter, SeqWriterConfig, SlotStep, WriteRing,
};
use rsl::sim::{CrashPolicy, Op, SimCrash};
use rsl::source::SliceSource;

fn pattern(len: usize) -> Vec<u8> {
    (0..len).map(|i| (i % 251) as u8).collect()
}

fn rcfg(threads: usize, slots: usize, block: usize) -> SeqReaderConfig {
    SeqReaderConfig {
        threads,
        slots,
        block,
    }
}

fn wcfg(threads: usize, slots: usize, block: usize) -> SeqWriterConfig {
    SeqWriterConfig {
        threads,
        slots,
        block,
    }
}

fn read_all(data: &[u8], size: u64, offset: u64, config: SeqReaderConfig, chunk: usize) -> Vec<u8> {
    let mut reader = match open_at(SliceSource::new(data), size, offset, config) {
        Ok(reader) => reader,
        Err(e) => panic!("{e:?}"),
    };
    assert_eq!(reader.file_size(), size);
    let mut out = Vec::new();
    loop {
        let part = reader.read(chunk).unwrap();
        if part.is_empty() {
            return out;
        }
        out.extend(part);
    }
}

#[test]
fn reads_a_whole_file_byte_for_byte() {
    let data = pattern(3 * (1 << 20) + 1234);
    let out = read_all(&data, data.len() as u64, 0, rcfg(4, 4, 1 << 20), 1 << 20);
    assert!(out == data);
}

#[test]
fn seqread_ring_shapes_all_agree() {
    let data = pattern(5 * SECTOR * 40 + 7);
    for (t, s, b) in [(1, 1, SECTOR), (8, 8, SECTOR), (2, 16, SECTOR * 4)] {
        let out = read_all(&data, data.len() as u64, 0, rcfg(t, s, b), 10_000);
        assert!(out == data, "threads={t} slots={s} block={b}");
    }
}

#[test]
fn unaligned_offsets_skip_exactly_the_prefix() {
    let data = pattern(SECTOR * 9 + 123);
    for off in [
        0,
        1,
        SECTOR - 1,
        SECTOR,
        SECTOR + 1,
        3 * SECTOR + 77,
        9 * SECTOR,
        9 * SECTOR + 122,
    ] {
        let out = read_all(&data, data.len() as u64, off as u64, rcfg(2, 4, SECTOR * 2), 999);
        assert_eq!(out, data[off..], "offset {off}");
    }
}

#[test]
fn offset_at_or_past_end_reads_nothing() {
    let data = pattern(SECTOR + 5);
    for off in [data.len(), data.len() + 1, data.len() * 10] {
        let out = read_all(&data, data.len() as u64, off as u64, rcfg(2, 2, SECTOR), 100);
        assert!(out.is_empty(), "offset {off}");
    }
}

#[test]
fn an_empty_file_is_immediately_eof() {
    assert!(read_all(&[], 0, 0, SeqReaderConfig::default(), 100).is_empty());
}

#[test]
fn a_file_shorter_than_one_block_still_reads() {
    let data = pattern(100);
    assert_eq!(read_all(&data, 100, 0, rcfg(4, 4, 1 << 20), 64), data);
}

#[test]
fn size_is_snapshotted_at_open() {
    let mut data = pattern(SECTOR * 3 + 10);
    let size = data.len() as u64;
    data.extend_from_slice(&[0xee; 5000]);
    let out = read_all(&data, size, 0, rcfg(2, 2, SECTOR), 777);
    assert_eq!(out.len() as u64, size);
}

#[test]
fn seqread_bad_configs_are_rejected_with_a_reason() {
    let refused = |config: SeqReaderConfig| match open_at(SliceSource::new(&[]), 0, 0, config) {
        Ok(_) => panic!("accepted"),
        Err(e) => {
            assert_eq!(config.validate(), Err(e));
            e
        }
    };
    let e = refused(rcfg(2, 4, 1000));
    assert_eq!(e, ConfigError::UnalignedBlock { block: 1000 });
    assert_eq!(
        e.message(),
        "SeqReaderConfig: block (1000) must be a multiple of 4096; unbuffered reads are rejected \
         outright when the length is not sector-aligned"
    );
    let e = refused(rcfg(8, 4, SECTOR));
    assert_eq!(e, ConfigError::SlotsBelowThreads { slots: 4, threads: 8 });
    assert_eq!(
        e.message(),
        "SeqReaderConfig: slots (4) must be >= threads (8), or readers stall waiting for slots \
         the caller has not reached"
    );
    assert_eq!(refused(rcfg(0, 4, SECTOR)), ConfigError::Zero);
    assert_eq!(
        ConfigError::Zero.message(),
        "SeqReaderConfig: threads, slots and block must all be non-zero"
    );
    let usual = SeqReaderConfig::default();
    assert_eq!((usual.threads, usual.slots, usual.block), (8, 8, 1 << 20));
    assert_eq!(usual.validate(), Ok(()));
}

#[test]
fn plans_cover_the_file_from_a_sector_on() {
    let plan = ReadPlan::new(10_000, 5_000, 4096);
    assert_eq!((plan.base, plan.skip, plan.want, plan.blocks), (4096, 904, 5904, 2));
    assert_eq!(plan.span(0), (4096, 4096));
    assert_eq!(plan.span(1), (8192, 1808));
    let plan = ReadPlan::new(8192, u64::MAX, 4096);
    assert_eq!((plan.base, plan.skip, plan.want, plan.blocks), (8192, 0, 0, 0));
}

#[test]
fn a_read_ring_hands_blocks_out_in_order() {
    let mut ring = ReadRing::new(2, 3);
    assert_eq!(ring.take(), TakeStep::Wait);
    let a = ring.claim().unwrap();
    let b = ring.claim().unwrap();
    let c = ring.claim().unwrap();
    assert_eq!((a, b, c), (0, 1, 2));
    assert_eq!(ring.claim(), None);
    assert_eq!(ring.begin_fill(b), FillStep::Fill(1));
    assert_eq!(ring.begin_fill(a), FillStep::Fill(0));
    // Its slot is the first block's.
    assert_eq!(ring.begin_fill(c), FillStep::Wait);
    ring.publish(b);
    assert_eq!(ring.take(), TakeStep::Wait);
    ring.publish(a);
    assert_eq!(ring.take(), TakeStep::Take(0));
    assert_eq!(ring.begin_fill(c), FillStep::Wait);
    ring.release(a);
    assert_eq!(ring.begin_fill(c), FillStep::Fill(0));
    assert_eq!(ring.take(), TakeStep::Take(1));
    ring.release(b);
    ring.publish(c);
    assert_eq!(ring.take(), TakeStep::Take(0));
    ring.release(c);
    assert_eq!(ring.take(), TakeStep::End);
}

#[test]
fn a_failed_read_stops_the_ring() {
    let mut ring = ReadRing::new(2, 9);
    let a = ring.claim().unwrap();
    let b = ring.claim().unwrap();
    assert_eq!(ring.begin_fill(a), FillStep::Fill(0));
    ring.fail(a);
    assert_eq!(ring.begin_fill(b), FillStep::Leave);
    assert_eq!(ring.claim(), None);
    assert_eq!(ring.take(), TakeStep::Failed);

    let mut ring = ReadRing::new(2, 9);
    ring.stop();
    assert_eq!(ring.claim(), None);
}

#[test]
fn a_write_ring_keeps_its_slots_apart() {
    let mut ring = WriteRing::new(2);
    assert_eq!(ring.claim(), DrainStep::Wait);
    assert_eq!(ring.take_slot(), SlotStep::Fill(0));
    ring.publish();
    assert_eq!(ring.take_slot(), SlotStep::Fill(1));
    ring.publish();
    assert_eq!(ring.take_slot(), SlotStep::Wait);
    assert_eq!(ring.claim(), DrainStep::Write(0, 0));
    assert_eq!(ring.claim(), DrainStep::Write(1, 1));
    ring.complete(1);
    assert_eq!(ring.take_slot(), SlotStep::Wait);
    ring.complete(0);
    assert_eq!(ring.take_slot(), SlotStep::Fill(0));
    ring.publish();
    ring.close();
    assert_eq!(ring.claim(), DrainStep::Write(0, 2));
    assert_eq!(ring.claim(), DrainStep::Leave);
    ring.fail(2);
    assert_eq!(ring.take_slot(), SlotStep::Failed);
}

type Writer = SeqWriter<DurableDevice<SimCrash>>;

fn path() -> FilePath {
    FilePath::new("/data", "a.bin")
}

fn create(config: SeqWriterConfig) -> Writer {
    match SeqWriter::create_on(DurableDevice::new(SimCrash::new()), &path(), config) {
        Ok(writer) => writer,
        Err((e, _)) => panic!("{e:?}"),
    }
}

fn finish(writer: Writer) -> (u64, SimCrash) {
    match writer.finish() {
        Ok((n, device)) => (n, device.into_durability()),
        Err(e) => panic!("{e:?}"),
    }
}

fn contents(sim: &SimCrash) -> Vec<u8> {
    let files = sim.image(sim.len(), CrashPolicy::Everything);
    assert_eq!(files.len(), 1);
    files[0].1.clone()
}

#[test]
fn writes_a_whole_file_byte_for_byte() {
    let data = pattern(3 * (1 << 20) + 1234);
    let mut w = create(wcfg(4, 4, 1 << 20));
    assert_eq!(w.write(&data).unwrap(), data.len());
    assert_eq!(w.bytes_written(), data.len() as u64);
    let (n, sim) = finish(w);
    assert_eq!(n, data.len() as u64);
    assert!(contents(&sim) == data);
}

#[test]
fn seqwrite_ring_shapes_all_agree() {
    let data = pattern(5 * SECTOR * 40 + 7);
    for (t, s, b) in [(1, 2, SECTOR), (8, 8, SECTOR), (2, 16, SECTOR * 4)] {
        let mut w = create(wcfg(t, s, b));
        w.write(&data).unwrap();
        let (_, sim) = finish(w);
        assert!(contents(&sim) == data, "threads={t} slots={s} block={b}");
    }
}

#[test]
fn many_small_writes_reassemble() {
    let data = pattern(SECTOR * 37 + 11);
    let mut w = create(wcfg(2, 4, SECTOR * 2));
    for chunk in data.chunks(97) {
        w.write(chunk).unwrap();
    }
    let (_, sim) = finish(w);
    assert!(contents(&sim) == data);
}

#[test]
fn the_zero_copy_pair_produces_the_same_file() {
    let data = pattern(SECTOR * 20 + 33);
    let mut w = create(wcfg(2, 4, SECTOR * 2));
    let mut at = 0usize;
    while at < data.len() {
        let room = w.available().unwrap();
        assert!(room > 0, "there is always room");
        let take = room.min(data.len() - at);
        w.commit(&data[at..at + take]).unwrap();
        at += take;
    }
    let (_, sim) = finish(w);
    assert!(contents(&sim) == data);
}

#[test]
fn committing_more_than_available_is_rejected() {
    let mut w = create(wcfg(1, 2, SECTOR));
    let room = w.available().unwrap();
    assert_eq!(room, SECTOR);
    match w.commit(&vec![0; room + 1]) {
        Err(SeqWriteError::Overcommit { n, room }) => assert_eq!((n, room), (4097, 4096)),
        other => panic!("{other:?}"),
    }
    assert_eq!(w.bytes_written(), 0);
}

#[test]
fn an_empty_file_is_empty() {
    let (n, sim) = finish(create(wcfg(2, 4, SECTOR)));
    assert_eq!(n, 0);
    assert!(contents(&sim).is_empty());
}

#[test]
fn a_short_tail_is_zero_padded_not_garbage() {
    let mut w = create(wcfg(1, 2, SECTOR));
    w.write(&vec![0xFFu8; SECTOR * 2]).unwrap();
    w.write(&[1, 2, 3]).unwrap();
    let (_, sim) = finish(w);
    let mut writes = Vec::new();
    for op in sim.journal() {
        if let Op::Write { offset, data, .. } = op {
            writes.push((*offset, data.clone()));
        }
    }
    assert_eq!(writes.len(), 3);
    let (offset, tail) = &writes[2];
    assert_eq!(*offset, 2 * SECTOR as u64);
    assert_eq!(tail.len(), SECTOR);
    assert_eq!(&tail[..3], &[1, 2, 3]);
    assert!(tail[3..].iter().all(|&b| b == 0));
    assert_eq!(contents(&sim).len(), 2 * SECTOR + 3);
}

#[test]
fn a_finished_file_is_synced() {
    let mut w = create(wcfg(1, 2, SECTOR));
    w.write(b"abc").unwrap();
    w.flush().unwrap();
    let (_, mut sim) = finish(w);
    sim.sync_dir("/data").unwrap();
    for policy in [CrashPolicy::Nothing, CrashPolicy::TornTail] {
        let files = sim.image(sim.len(), policy);
        assert_eq!(files[0].1, b"abc");
    }
    let file = sim.open(&path(), OpenMode::Read).unwrap();
    assert_eq!(sim.size(&file).unwrap(), 3);
}

#[test]
fn seqwrite_bad_configs_are_rejected_with_a_reason() {
    let refused = |config: SeqWriterConfig| {
        match SeqWriter::create_on(DurableDevice::new(SimCrash::new()), &path(), config) {
            Err((SeqWriteError::Config(e), device)) => {
                assert!(device.into_durability().is_empty());
                e
            }
            Err((e, _)) => panic!("{e:?}"),
            Ok(_) => panic!("accepted"),
        }
    };
    let e = refused(wcfg(2, 4, 1000));
    assert_eq!(e, seqwrite::ConfigError::UnalignedBlock { block: 1000 });
    assert_eq!(
        e.message(),
        "SeqWriterConfig: block (1000) must be a multiple of 4096; unbuffered writes are rejected \
         outright when the length is not sector-aligned"
    );
    let e = refused(wcfg(1, 1, SECTOR));
    assert_eq!(e, seqwrite::ConfigError::TooFewSlots);
    assert_eq!(
        e.message(),
        "SeqWriterConfig: slots must be >= 2; a ring of one is a legal-but-pointless depth 1, \
         which overlaps nothing"
    );
    let e = refused(wcfg(8, 4, SECTOR));
    assert_eq!(
        e,
        seqwrite::ConfigError::SlotsBelowThreads { slots: 4, threads: 8 }
    );
    assert_eq!(
        e.message(),
        "SeqWriterConfig: slots (4) must be >= threads (8), or writers idle waiting for slots \
         the caller has not filled"
    );
    let e = refused(wcfg(0, 4, SECTOR));
    assert_eq!(e, seqwrite::ConfigError::Zero);
    assert_eq!(e.message(), "SeqWriterConfig: threads and block must be non-zero");
    let usual = SeqWriterConfig::default();
    assert_eq!((usual.threads, usual.slots, usual.block), (4, 4, 4 << 20));
}

fn chars(s: &str) -> Vec<char> {
    s.chars().collect()
}

#[test]
fn plain_numbers_are_digits() {
    let parse = |s: &str| parse_plain_number(&chars(s), 255);
    assert_eq!(parse("0"), Ok(0));
    assert_eq!(parse("+255"), Ok(255));
    assert_eq!(parse("007"), Ok(7));
    assert_eq!(parse("256"), Err(NumberFault::TooLarge));
    assert_eq!(parse("999x"), Err(NumberFault::TooLarge));
    assert_eq!(parse("9x99"), Err(NumberFault::InvalidDigit));
    assert_eq!(parse("-1"), Err(NumberFault::InvalidDigit));
    assert_eq!(parse("+"), Err(NumberFault::InvalidDigit));
    assert_eq!(parse(""), Err(NumberFault::Empty));
    assert_eq!(
        parse_plain_number(&chars("18446744073709551615"), u64::MAX),
        Ok(u64::MAX)
    );
}

#[test]
fn modes_are_read() {
    assert_eq!(Mode::parse("file"), Ok(Mode::Bare));
    assert_eq!(Mode::parse("file:9"), Ok(Mode::Bare));
    assert_eq!(Mode::parse("bufreader:65536"), Ok(Mode::Buffered(65536)));
    assert_eq!(Mode::parse("block:1024"), Ok(Mode::Block(1024)));
    let ring = Mode::Ring {
        threads: 8,
        slots: 9,
        block: 1 << 20,
    };
    assert_eq!(Mode::parse("ring:8x9x1048576"), Ok(ring));
    assert_eq!((ring.depth(), ring.block(1), ring.label()), (8, 1 << 20, "ring"));
    assert_eq!(
        (Mode::Bare.depth(), Mode::Bare.block(77), Mode::Bare.label()),
        (1, 77, "file")
    );
    assert_eq!(Mode::Buffered(3).label(), "bufreader");
    assert_eq!(Mode::Block(3).label(), "block");
    assert_eq!(Mode::parse("block"), Err(ModeFault::NeedsSize));
    assert_eq!(
        Mode::parse("block:x"),
        Err(ModeFault::BadSize(NumberFault::InvalidDigit))
    );
    assert_eq!(Mode::parse("ring"), Err(ModeFault::NeedsShape));
    assert_eq!(Mode::parse("tokio:1"), Err(ModeFault::Unknown));
    assert_eq!(
        Mode::parse("ring:1x2x3"),
        Err(ModeFault::Ring(RingFault::Unaligned(3)))
    );
}

#[test]
fn ring_shapes_have_three_terms() {
    let parse = |s: &str| parse_ring_spec(&chars(s));
    assert_eq!(parse("4x5x8192"), Ok(wcfg(4, 5, 8192)));
    assert_eq!(parse("4x5"), Err(RingFault::Shape));
    assert_eq!(parse("4"), Err(RingFault::Shape));
    assert_eq!(parse("4x5x4096x"), Err(RingFault::Shape));
    assert_eq!(
        parse("ax5"),
        Err(RingFault::Term(RingTerm::Threads, NumberFault::InvalidDigit))
    );
    assert_eq!(
        parse("4xx4096"),
        Err(RingFault::Term(RingTerm::Slots, NumberFault::Empty))
    );
    assert_eq!(
        parse("4x4x"),
        Err(RingFault::Term(RingTerm::Block, NumberFault::Empty))
    );
}

fn args(line: &str) -> Vec<String> {
    line.split_whitespace().map(|s| s.to_string()).collect()
}

#[test]
fn command_lines_are_read() {
    let a = parse_args(&args("read f")).unwrap();
    assert!(!a.write);
    assert_eq!(a.path, "f");
    assert_eq!(a.mode, Some(Mode::Buffered(8192)));
    assert_eq!((a.offset, a.length, a.record, a.header), (0, 0, 4096, false));
    assert_eq!(a.label, "");

    let a = parse_args(&args(
        "read f --header --mode block:512 --offset 7 --length 9 --record 16 --label x",
    ))
    .unwrap();
    assert_eq!(a.mode, Some(Mode::Block(512)));
    assert_eq!((a.offset, a.length, a.record, a.header), (7, 9, 16, true));
    assert_eq!(a.label, "x");

    let a = parse_args(&args("write f --length 100")).unwrap();
    assert!(a.write);
    assert_eq!(a.wconfig, Some(wcfg(4, 4, 4 << 20)));
    let a = parse_args(&args("write f --length 100 --mode ring:1x2x4096")).unwrap();
    assert_eq!(a.wconfig, Some(wcfg(1, 2, 4096)));
}

#[test]
fn bad_command_lines_are_refused() {
    let fault = |line: &str| parse_args(&args(line)).unwrap_err();
    assert_eq!(fault(""), ArgsFault::Usage);
    assert_eq!(fault("read"), ArgsFault::Usage);
    assert_eq!(fault("copy f"), ArgsFault::UnknownSubcommand);
    assert_eq!(fault("read f --mode"), ArgsFault::MissingValue(2));
    assert_eq!(fault("read f --bogus 1"), ArgsFault::UnknownArgument(2));
    assert_eq!(
        fault("read f --mode nope"),
        ArgsFault::BadMode(3, ModeFault::Unknown)
    );
    assert_eq!(
        fault("read f --header --offset x"),
        ArgsFault::BadNumber(4, NumberFault::InvalidDigit)
    );
    assert_eq!(
        fault("read f --length 18446744073709551616"),
        ArgsFault::BadNumber(3, NumberFault::TooLarge)
    );
    assert_eq!(
        fault("read f --record x"),
        ArgsFault::BadNumber(3, NumberFault::InvalidDigit)
    );
    assert_eq!(fault("read f --record 12"), ArgsFault::RecordNotWords);
    assert_eq!(fault("read f --record 0"), ArgsFault::RecordNotWords);
    assert_eq!(fault("write f"), ArgsFault::LengthRequired);
    assert_eq!(
        fault("write f --length 8 --offset 1"),
        ArgsFault::WriteTakesNoOffset
    );
    assert_eq!(
        fault("write f --mode ring"),
        ArgsFault::WriteNeedsRing(3)
    );
    assert_eq!(
        fault("write f --mode block:1"),
        ArgsFault::UnknownWriteMode(3)
    );
    assert_eq!(
        fault("write f --mode ring:1x1"),
        ArgsFault::BadRing(3, RingFault::Shape)
    );
}

#[test]
fn windows_end_with_the_file() {
    assert_eq!(read_window(0, 0, 100), Some(100));
    assert_eq!(read_window(40, 0, 100), Some(60));
    assert_eq!(read_window(40, 50, 100), Some(50));
    assert_eq!(read_window(40, 90, 100), Some(60));
    assert_eq!(read_window(100, 1, 100), None);
}

#[test]
fn patterns_are_told_apart_by_offset() {
    let mut x: u64 = 1;
    let mut expected = Vec::new();
    for _ in 0..2 {
        x ^= x << 13;
        x ^= x >> 7;
        x ^= x << 17;
        expected.extend(x.to_le_bytes());
    }
    assert_eq!(fill_pattern(16, 0), expected);
    assert_eq!(fill_pattern(19, 0)[16..], [0, 0, 0]);
    assert_ne!(fill_pattern(16, 4096), expected);
    let mut y = 4096u64.wrapping_mul(0x9E37_79B9_7F4A_7C15).wrapping_add(1);
    y ^= y << 13;
    y ^= y >> 7;
    y ^= y << 17;
    assert_eq!(fill_pattern(8, 4096), y.to_le_bytes());
}

#[test]
fn tallies_add_the_first_words() {
    let mut tally = Tally::new();
    tally.delivered(&[1, 0, 0, 0, 0, 0, 0, 0, 99]);
    tally.delivered(&[0xff; 8]);
    tally.delivered(&[5, 5]);
    assert_eq!((tally.bytes, tally.fold), (19, 0));
}

#[test]
fn records_are_served_out_of_a_block() {
    assert_eq!(next_in_block(16, 8, 16), (true, 0));
    assert_eq!(next_in_block(8, 8, 16), (false, 8));
    assert_eq!(next_in_block(9, 8, 16), (true, 0));
}
