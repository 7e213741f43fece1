//! Writing, scanning and replaying logs.

use rsl::durability::{Durability, FilePath, OpenMode};
use rsl::log::{
    is_loggable, scan_bytes, DecreeIndex, IndexError, LogError, LogReader, LogScanner, LogWriter,
    Outcome, RejectReason, ScanEnd, ScanResult, StopReason, MAX_SINGLE_IO_SIZE,
};
use rsl::messages::{
    marshal_base, Header, PrepareMsg, Vote, MSG_JOIN, MSG_PREPARE, MSG_RECONFIGURATION_DECISION,
    MSG_VOTE, MSG_VOTE_ACCEPTED,
};
use rsl::sim::{CrashPolicy, Op, SimCrash};
use rsl::source::SliceSource;
use rsl::types::{BallotNumber, MemberId};
use rsl::version::ProtocolVersion;
use rsl::{round_up_to_page, PAGE_SIZE};

const DIR: &str = "/data";

fn header(msg_id: u16, decree: u64) -> Header {
    Header::new(
        ProtocolVersion::V6,
        msg_id,
        MemberId::from_str("101"),
        decree,
        7,
        BallotNumber::new(3, MemberId::from_str("202")),
        0,
    )
}

fn vote_record(decree: u64, request_len: usize) -> Vec<u8> {
    let mut vote = Vote::new(header(MSG_VOTE, decree));
    if request_len > 0 {
        vote.add_request(vec![b'r'; request_len]);
    }
    vote.marshal_with_checksum().unwrap()
}

fn prepare_record(decree: u64) -> Vec<u8> {
    PrepareMsg {
        header: header(MSG_PREPARE, decree),
        primary_cookie: Vec::new(),
    }
    .marshal_with_checksum()
}

fn decision_record(decree: u64) -> Vec<u8> {
    marshal_base(&header(MSG_RECONFIGURATION_DECISION, decree))
}

fn open(sim: SimCrash, decree: u64) -> LogWriter<SimCrash> {
    match LogWriter::open_with(DIR, decree, sim) {
        Ok(writer) => writer,
        Err((e, _)) => panic!("open: {e:?}"),
    }
}

fn append_all(writer: &mut LogWriter<SimCrash>, records: &[Vec<u8>]) {
    let refs: Vec<&[u8]> = records.iter().map(|r| r.as_slice()).collect();
    writer.append_batch(&refs).expect("append");
}

fn live(sim: &SimCrash, name: &str) -> Vec<u8> {
    let path = FilePath::new(DIR, name);
    sim.image(sim.len(), CrashPolicy::Everything)
        .into_iter()
        .find(|(p, _)| *p == path)
        .map(|(_, b)| b)
        .expect("file")
}

fn put(sim: &mut SimCrash, name: &str, bytes: &[u8]) {
    let mut file = sim.open(&FilePath::new(DIR, name), OpenMode::Create).unwrap();
    file.write(sim, bytes).unwrap();
}

fn scan_live(sim: &SimCrash, name: &str) -> ScanResult {
    scan_bytes(&live(sim, name))
}

#[test]
fn reopen_append_rescan_is_idempotent() {
    let first: Vec<Vec<u8>> = (0..3).map(|i| vote_record(100 + i, 0)).collect();
    let second: Vec<Vec<u8>> = (3..6).map(|i| vote_record(100 + i, 700)).collect();

    let mut writer = open(SimCrash::new(), 100);
    append_all(&mut writer, &first);
    let after_first = writer.data_len();

    let mut writer = open(writer.into_durability(), 100);
    assert_eq!(writer.data_len(), after_first);
    assert_eq!(writer.index().max_decree(), 102);
    append_all(&mut writer, &second);
    let total = writer.data_len();
    let sim = writer.into_durability();

    let scan = scan_live(&sim, "100.log");
    assert_eq!(scan.end, ScanEnd::Eof);
    assert_eq!(scan.stop_offset, total);
    assert_eq!(scan.records.len(), 6);
    for (i, record) in scan.records.iter().enumerate() {
        assert_eq!(record.decree, 100 + i as u64);
    }
    let again = scan_live(&sim, "100.log");
    assert_eq!(again, scan);
}

#[test]
fn a_zero_tail_is_overwritten_by_the_next_append() {
    let mut writer = open(SimCrash::new(), 200);
    append_all(&mut writer, &[vote_record(200, 0)]);
    let good_len = writer.data_len();
    let mut sim = writer.into_durability();

    let mut bytes = live(&sim, "200.log");
    bytes.resize(bytes.len() + PAGE_SIZE as usize * 2, 0);
    put(&mut sim, "200.log", &bytes);

    let scan = scan_live(&sim, "200.log");
    assert_eq!(scan.end, ScanEnd::Stop(StopReason::ZeroRegion));
    assert_eq!(scan.stop_offset, good_len);

    let mut writer = open(sim, 200);
    assert_eq!(writer.data_len(), good_len, "write pointer skips the zeros");
    append_all(&mut writer, &[vote_record(201, 0)]);
    let sim = writer.into_durability();

    let scan = scan_live(&sim, "200.log");
    assert_eq!(scan.end, ScanEnd::Eof);
    assert_eq!(scan.records.len(), 2);
}

#[test]
fn a_torn_tail_is_discarded_and_overwritten() {
    let mut writer = open(SimCrash::new(), 300);
    append_all(&mut writer, &[vote_record(300, 0)]);
    let good_len = writer.data_len();
    let mut sim = writer.into_durability();

    let torn = vote_record(301, 600);
    assert!(round_up_to_page(torn.len() as u32) > PAGE_SIZE);
    let mut bytes = live(&sim, "300.log");
    bytes.extend_from_slice(&torn[..PAGE_SIZE as usize + 188]);
    put(&mut sim, "300.log", &bytes);

    let scan = scan_live(&sim, "300.log");
    assert_eq!(scan.end, ScanEnd::Stop(StopReason::TornTail));
    assert_eq!(scan.stop_offset, good_len);
    assert_eq!(scan.records.len(), 1);

    let mut writer = open(sim, 300);
    assert_eq!(writer.data_len(), good_len);
    append_all(&mut writer, &[vote_record(301, 0)]);
    let sim = writer.into_durability();

    let scan = scan_live(&sim, "300.log");
    assert_eq!(scan.end, ScanEnd::Eof);
    assert_eq!(scan.records.len(), 2);
    assert_eq!(scan.records[1].decree, 301);
}

#[test]
fn a_corrupt_log_cannot_be_opened_for_append() {
    let mut writer = open(SimCrash::new(), 400);
    append_all(&mut writer, &[vote_record(400, 0), vote_record(401, 0)]);
    let mut sim = writer.into_durability();

    let mut bytes = live(&sim, "400.log");
    bytes[20] ^= 0xff;
    put(&mut sim, "400.log", &bytes);

    let steps = sim.len();
    match LogWriter::open_with(DIR, 400, sim) {
        Err((LogError::Corrupt(scan), sim)) => {
            assert_eq!(live(&sim, "400.log"), bytes);
            assert_eq!(sim.len(), steps);
            assert_eq!(scan.end, ScanEnd::Reject(RejectReason::ChecksumMismatch));
            assert_eq!(scan.stop_offset, 0);
            let error: LogError<()> = LogError::Corrupt(scan);
            assert_eq!(
                error.message(""),
                "log is corrupt at offset 0: checksum mismatch with non-zero data following (corrupt)"
            );
        }
        Err((e, _)) => panic!("expected a corrupt-log error, got {e:?}"),
        Ok(_) => panic!("opened a corrupt log"),
    }
}

#[test]
fn the_writer_refuses_records_no_reader_would_accept() {
    let mut writer = open(SimCrash::new(), 500);

    let not_loggable = marshal_base(&header(MSG_VOTE_ACCEPTED, 500));
    assert!(matches!(
        writer.append(&not_loggable),
        Err(LogError::NotLoggable(MSG_VOTE_ACCEPTED))
    ));
    assert!(matches!(
        writer.append(&[0u8; 64]),
        Err(LogError::NotAMessage)
    ));
    let mut padded = vote_record(500, 0);
    padded.push(0);
    assert!(matches!(
        writer.append(&padded),
        Err(LogError::LengthMismatch { .. })
    ));
    append_all(&mut writer, &[vote_record(500, 0)]);
    match writer.append(&vote_record(600, 0)) {
        Err(LogError::Index(e)) => {
            assert_eq!(
                e,
                IndexError {
                    decree: 600,
                    max_decree: 500
                }
            );
            assert_eq!(
                e.message(),
                "vote for decree 600 is not 500 or 501 (out of sequence)"
            );
        }
        other => panic!("expected an index error, got {other:?}"),
    }

    assert_eq!(writer.data_len(), 512);
    let sim = writer.into_durability();
    assert_eq!(live(&sim, "500.log").len(), 512);
}

#[test]
fn errors_read_as_sentences() {
    let e: LogError<()> = LogError::LengthMismatch {
        declared: 100,
        actual: 101,
    };
    assert_eq!(
        e.message(""),
        "record is 101 bytes but its header declares 100"
    );
    let e: LogError<()> = LogError::NotAMessage;
    assert_eq!(e.message(""), "record does not parse as a message header");
    let e: LogError<()> = LogError::NotLoggable(12);
    assert_eq!(e.message(""), "message id 12 is never written to a log");
    let e: LogError<()> = LogError::Io(());
    assert_eq!(e.message("disk full"), "log I/O error: disk full");
}

#[test]
fn the_index_mirrors_the_cpp_decree_map() {
    let mut writer = open(SimCrash::new(), 700);
    append_all(
        &mut writer,
        &[
            vote_record(700, 0),
            prepare_record(700),
            vote_record(701, 600),
            decision_record(701),
            vote_record(702, 0),
        ],
    );

    let index = writer.index().clone();
    assert_eq!(index.min_decree(), 700);
    assert_eq!(index.max_decree(), 702);
    assert_eq!(index.len(), 3);
    assert_eq!(index.offset(700), Some(0));
    assert_eq!(index.offset(701), Some(1024));
    assert_eq!(index.length_of_decree(700), Some(1024));
    assert_eq!(index.length_of_decree(701), Some(1536));
    assert_eq!(index.length_of_decree(702), Some(512));
    assert!(index.has_decree(701));
    assert!(!index.has_decree(703));
    assert_eq!(index.offset(703), None);
    assert_eq!(writer.data_len(), 3072);

    let before = writer.data_len();
    append_all(&mut writer, &[vote_record(702, 0)]);
    assert_eq!(writer.index().max_decree(), 702);
    assert_eq!(writer.index().offset(702), Some(before));
    let mut sim = writer.into_durability();

    let reader = match LogReader::open_with(DIR, 700, &mut sim) {
        Ok(reader) => reader,
        Err(e) => panic!("open reader: {e:?}"),
    };
    assert_eq!(reader.index().offset(702), Some(before));
    assert_eq!(reader.index().max_decree(), 702);
    assert_eq!(reader.index().data_len(), before + 512);
    assert_eq!(reader.file_decree(), 700);
    assert_eq!(*reader.path(), FilePath::new(DIR, "700.log"));
    assert_eq!(reader.scan().records.len(), 6);
}

#[test]
fn an_index_takes_the_first_decree_anywhere() {
    let mut index = DecreeIndex::new();
    assert!(index.is_empty());
    assert_eq!((index.min_decree(), index.max_decree()), (0, 0));
    index.add_message(MSG_PREPARE, 3, 512).unwrap();
    index.add_message(MSG_VOTE, 40, 512).unwrap();
    assert_eq!((index.min_decree(), index.max_decree()), (40, 40));
    assert_eq!(index.offset(40), Some(512));
    assert_eq!(
        index.add_message(MSG_VOTE, 42, 512),
        Err(IndexError {
            decree: 42,
            max_decree: 40
        })
    );
    assert_eq!(
        index.add_message(MSG_VOTE, 39, 512),
        Err(IndexError {
            decree: 39,
            max_decree: 40
        })
    );
    assert_eq!(index.data_len(), 1024);
}

fn data_syncs(sim: &SimCrash) -> usize {
    sim.journal()
        .iter()
        .filter(|op| matches!(op, Op::SyncData { .. }))
        .count()
}

#[test]
fn the_watermark_tracks_what_has_been_flushed() {
    let mut writer = open(SimCrash::new(), 900);
    assert_eq!(writer.durable_len(), 0);
    assert_eq!(writer.durable_max_decree(), 0);
    let base = data_syncs(writer.durability());

    writer.append(&vote_record(900, 0)).expect("append");
    assert_eq!(writer.durable_len(), writer.data_len());
    assert_eq!(writer.durable_max_decree(), 900);
    assert_eq!(data_syncs(writer.durability()), base + 1);

    let committed = writer.durable_len();
    let batch = [vote_record(901, 0), vote_record(902, 3000)];
    let refs: Vec<&[u8]> = batch.iter().map(|r| r.as_slice()).collect();
    let unsynced = writer.append_unsynced(&refs).expect("append unsynced");
    assert_eq!(unsynced.offset(), committed);
    assert!(writer.durable_len() < writer.data_len());
    assert_eq!(writer.durable_len(), committed);
    assert_eq!(writer.durable_max_decree(), 900);
    assert_eq!(data_syncs(writer.durability()), base + 1);

    writer.sync().expect("sync");
    assert_eq!(writer.durable_len(), writer.data_len());
    assert_eq!(writer.durable_max_decree(), 902);
    assert_eq!(data_syncs(writer.durability()), base + 2);

    writer.sync().expect("sync again");
    writer.append_batch(&[]).expect("empty batch");
    assert_eq!(data_syncs(writer.durability()), base + 2);

    let total = writer.data_len();
    let reopened = open(writer.into_durability(), 900);
    assert_eq!(reopened.durable_len(), total);
    assert_eq!(reopened.durable_max_decree(), 902);
    assert_eq!(reopened.file_decree(), 900);
    assert_eq!(*reopened.path(), FilePath::new(DIR, "900.log"));
    assert!(reopened.needs_rollover(total - 1));
    assert!(!reopened.needs_rollover(total + 1));
}

#[test]
fn replay_starts_at_the_requested_decree() {
    let mut writer = open(SimCrash::new(), 800);
    let records: Vec<Vec<u8>> = (0..5)
        .map(|i| vote_record(800 + i, 100 * i as usize))
        .collect();
    append_all(&mut writer, &records);
    let mut sim = writer.into_durability();
    let bytes = live(&sim, "800.log");

    let reader = match LogReader::open_with(DIR, 800, &mut sim) {
        Ok(reader) => reader,
        Err(e) => panic!("open reader: {e:?}"),
    };
    let mut scanner = reader
        .replay_from(802, SliceSource::new(&bytes))
        .expect("replay")
        .expect("decree is in this log");

    let mut seen = Vec::new();
    while let Some(record) = scanner.next_record().expect("scan") {
        assert!(record.parse().is_some(), "record must re-parse");
        seen.push((record.info.offset, record.info.decree));
    }
    assert_eq!(scanner.end(), Some(ScanEnd::Eof));
    assert_eq!(
        seen,
        vec![
            (reader.index().offset(802).unwrap(), 802),
            (reader.index().offset(803).unwrap(), 803),
            (reader.index().offset(804).unwrap(), 804),
        ]
    );
    assert!(reader
        .replay_from(900, SliceSource::new(&bytes))
        .expect("replay")
        .is_none());

    let mut all = reader.replay_from_offset(0, SliceSource::new(&bytes)).expect("replay");
    let first = all.next_record().expect("scan").expect("a record");
    assert_eq!(first.message_bytes(), &records[0][..]);
}

fn mutation_fixture() -> Vec<u8> {
    let mut writer = open(SimCrash::new(), 900);
    append_all(
        &mut writer,
        &[
            vote_record(900, 0),
            vote_record(901, 600),
            vote_record(902, 0),
        ],
    );
    live(&writer.into_durability(), "900.log")
}

#[test]
fn pad_mutations_never_invalidate_a_record() {
    let clean = mutation_fixture();
    let baseline = scan_bytes(&clean);
    assert_eq!(baseline.end, ScanEnd::Eof);

    for record in &baseline.records {
        let body_end = record.offset + u64::from(record.un_marshal_len);
        let pad_end = record.offset + u64::from(record.padded_len);
        for offset in body_end..pad_end {
            let mut mutated = clean.clone();
            mutated[offset as usize] ^= 0xff;
            let scan = scan_bytes(&mutated);
            assert_eq!(
                scan, baseline,
                "flipping pad byte {offset} changed the scan outcome"
            );
        }
    }
}

#[test]
fn body_mutations_reject_when_data_follows_and_stop_when_it_does_not() {
    let clean = mutation_fixture();
    let baseline = scan_bytes(&clean);
    let last = *baseline.records.last().unwrap();

    for record in &baseline.records[..baseline.records.len() - 1] {
        let start = record.offset + 22;
        let end = record.offset + u64::from(record.un_marshal_len);
        for offset in (start..end).step_by(7) {
            let mut mutated = clean.clone();
            mutated[offset as usize] ^= 0xff;
            let scan = scan_bytes(&mutated);
            assert_eq!(
                scan.end.outcome(),
                Outcome::Reject,
                "flipping body byte {offset} should reject"
            );
            assert_eq!(scan.stop_offset, record.offset);
        }
    }

    let start = last.offset + 22;
    let end = last.offset + u64::from(last.un_marshal_len);
    for offset in (start..end).step_by(7) {
        let mut mutated = clean.clone();
        mutated[offset as usize] ^= 0xff;
        let scan = scan_bytes(&mutated);
        assert_eq!(
            scan.end,
            ScanEnd::Stop(StopReason::TrailingChecksumMismatch),
            "flipping trailing body byte {offset}"
        );
        assert_eq!(scan.stop_offset, last.offset);
        assert_eq!(scan.records.len(), baseline.records.len() - 1);
    }
}

#[test]
fn header_mutations_stop_or_reject_like_the_cpp() {
    let clean = mutation_fixture();
    let baseline = scan_bytes(&clean);
    let second = baseline.records[1];

    let mut mutated = clean.clone();
    mutated[second.offset as usize] = 0xff;
    mutated[second.offset as usize + 1] = 0xff;
    let scan = scan_bytes(&mutated);
    assert_eq!(scan.end, ScanEnd::Reject(RejectReason::HeaderUnmarshal));
    assert_eq!(scan.stop_offset, second.offset);

    let mut mutated = clean.clone();
    mutated[second.offset as usize + 14] ^= 0xff;
    let scan = scan_bytes(&mutated);
    assert_eq!(scan.end, ScanEnd::Reject(RejectReason::HeaderUnmarshal));

    let mut mutated = clean.clone();
    let id_offset = second.offset as usize + 18;
    assert_eq!(
        u16::from_le_bytes(mutated[id_offset..id_offset + 2].try_into().unwrap()),
        MSG_VOTE,
        "message id is where the header layout says it is"
    );
    mutated[id_offset..id_offset + 2].copy_from_slice(&MSG_VOTE_ACCEPTED.to_le_bytes());
    let scan = scan_bytes(&mutated);
    assert_eq!(scan.end, ScanEnd::Reject(RejectReason::UnknownMessageId));
    assert_eq!(scan.stop_offset, second.offset);

    let mut truncated = clean.clone();
    truncated.truncate(clean.len() - 100);
    let scan = scan_bytes(&truncated);
    assert_eq!(scan.end, ScanEnd::Reject(RejectReason::PartialHeaderPage));

    let last = *baseline.records.last().unwrap();
    let mut zeroed = clean.clone();
    zeroed[last.offset as usize..].fill(0);
    let scan = scan_bytes(&zeroed);
    assert_eq!(scan.end, ScanEnd::Stop(StopReason::ZeroRegion));
    assert_eq!(scan.stop_offset, last.offset);

    let mut zeroed_then_data = clean.clone();
    zeroed_then_data
        [second.offset as usize..(second.offset + u64::from(second.padded_len)) as usize]
        .fill(0);
    let scan = scan_bytes(&zeroed_then_data);
    assert_eq!(scan.end, ScanEnd::Reject(RejectReason::HeaderUnmarshal));
    assert_eq!(scan.stop_offset, second.offset);
}

#[test]
fn an_absurd_declared_length_is_a_torn_tail() {
    let clean = mutation_fixture();
    let baseline = scan_bytes(&clean);
    let last = *baseline.records.last().unwrap();

    let mut mutated = clean.clone();
    let len_at = last.offset as usize + 2;
    mutated[len_at..len_at + 4].copy_from_slice(&0xffff_f000u32.to_le_bytes());

    let scan = scan_bytes(&mutated);
    assert_eq!(scan.end, ScanEnd::Stop(StopReason::TornTail));
    assert_eq!(scan.stop_offset, last.offset);
    assert_eq!(scan.records.len(), baseline.records.len() - 1);
}

#[test]
fn an_empty_log_scans_clean() {
    let scan = scan_bytes(&[]);
    assert_eq!(scan.end, ScanEnd::Eof);
    assert_eq!(scan.stop_offset, 0);
    assert!(scan.records.is_empty());
    assert_eq!(scan.outcome(), "accept");
}

#[test]
fn batched_and_individual_appends_produce_identical_files() {
    let records: Vec<Vec<u8>> = (0..8)
        .map(|i| vote_record(500 + i, 100 * i as usize))
        .collect();
    let mut batched = open(SimCrash::new(), 500);
    append_all(&mut batched, &records);
    let mut individually = open(batched.into_durability(), 501);
    for record in &records {
        individually.append(record).expect("append one");
    }
    let sim = individually.into_durability();
    assert_eq!(live(&sim, "500.log"), live(&sim, "501.log"));
    assert_eq!(MAX_SINGLE_IO_SIZE % PAGE_SIZE as usize, 0);
}

#[test]
fn three_kinds_of_messages_are_logged() {
    for id in 0..=u16::from(u8::MAX) {
        let logged = id == MSG_VOTE || id == MSG_PREPARE || id == MSG_RECONFIGURATION_DECISION;
        assert_eq!(is_loggable(id), logged, "{id}");
    }
    assert!(!is_loggable(MSG_JOIN));
}

#[test]
fn endings_read_as_words() {
    let mut details = Vec::new();
    for end in [
        ScanEnd::Eof,
        ScanEnd::Stop(StopReason::ZeroRegion),
        ScanEnd::Stop(StopReason::TornTail),
        ScanEnd::Stop(StopReason::TrailingChecksumMismatch),
        ScanEnd::Reject(RejectReason::PartialHeaderPage),
        ScanEnd::Reject(RejectReason::HeaderUnmarshal),
        ScanEnd::Reject(RejectReason::UnknownMessageId),
        ScanEnd::Reject(RejectReason::ChecksumMismatch),
    ] {
        assert_eq!(end.recoverable(), end.outcome() != Outcome::Reject);
        assert!(!details.contains(&end.detail()));
        details.push(end.detail());
    }
    assert_eq!(Outcome::Accept.name(), "accept");
    assert_eq!(Outcome::Reject.name(), "reject");
}

struct Rng(u64);

impl Rng {
    fn below(&mut self, n: u64) -> u64 {
        self.0 ^= self.0 << 13;
        self.0 ^= self.0 >> 7;
        self.0 ^= self.0 << 17;
        self.0 % n
    }

    /// Records with legal decrees, and what they must scan back as.
    fn sequence(&mut self) -> (Vec<Vec<u8>>, Vec<(u16, u64, u32)>) {
        let mut records = Vec::new();
        let mut expected = Vec::new();
        let mut decree = 1_000u64;
        let mut first_vote = true;
        for _ in 0..self.below(12) {
            let kind = self.below(5);
            let advance = self.below(2) == 0;
            let request_len = self.below(1500) as usize;
            let (record, msg_id) = match kind {
                0..=2 => {
                    if !first_vote && advance {
                        decree += 1;
                    }
                    first_vote = false;
                    (vote_record(decree, request_len), MSG_VOTE)
                }
                3 => (prepare_record(decree), MSG_PREPARE),
                _ => (decision_record(decree), MSG_RECONFIGURATION_DECISION),
            };
            expected.push((msg_id, decree, round_up_to_page(record.len() as u32)));
            records.push(record);
        }
        (records, expected)
    }
}

fn image(records: &[Vec<u8>]) -> Vec<u8> {
    let mut image = Vec::new();
    for record in records {
        image.extend_from_slice(record);
        let pad = round_up_to_page(record.len() as u32) as usize - record.len();
        image.resize(image.len() + pad, 0);
    }
    image
}

#[test]
fn written_records_scan_back_identically() {
    let mut rng = Rng(0x1357_9bdf_0246_8ace);
    for _ in 0..100 {
        let (records, expected) = rng.sequence();
        let image = image(&records);
        let scan = scan_bytes(&image);
        assert_eq!(scan.end, ScanEnd::Eof);
        assert_eq!(scan.stop_offset, image.len() as u64);
        assert_eq!(scan.records.len(), expected.len());

        let mut offset = 0u64;
        for (got, (msg_id, decree, padded)) in scan.records.iter().zip(&expected) {
            assert_eq!(got.offset, offset);
            assert_eq!(got.msg_id, *msg_id);
            assert_eq!(got.decree, *decree);
            assert_eq!(got.padded_len, *padded);
            offset += u64::from(*padded);
        }
    }
}

#[test]
fn batch_splits_and_reopens_do_not_change_the_file() {
    let mut rng = Rng(0x0bad_cafe_dead_beef);
    for _ in 0..50 {
        let (records, _) = rng.sequence();
        let split = (rng.below(12) as usize).min(records.len());

        let mut whole = open(SimCrash::new(), 1);
        append_all(&mut whole, &records);
        let mut part = open(whole.into_durability(), 2);
        append_all(&mut part, &records[..split]);
        let mut part = open(part.into_durability(), 2);
        append_all(&mut part, &records[split..]);
        let split_len = part.data_len();
        let sim = part.into_durability();

        let a = live(&sim, "1.log");
        let b = live(&sim, "2.log");
        assert_eq!(a, b);
        assert_eq!(split_len, a.len() as u64);
    }
}

#[test]
fn truncation_is_always_a_clean_decision() {
    let mut rng = Rng(0x0123_4567_89ab_cdef);
    for _ in 0..200 {
        let (records, _) = rng.sequence();
        let mut image = image(&records);
        let cut = (rng.below(8192) as usize).min(image.len());
        image.truncate(cut);

        let scan = scan_bytes(&image);
        assert!(scan.stop_offset <= image.len() as u64);
        for record in &scan.records {
            assert!(record.offset + u64::from(record.padded_len) <= scan.stop_offset);
        }
        if cut % PAGE_SIZE as usize != 0 {
            assert_ne!(scan.end, ScanEnd::Eof);
        }
    }
}

#[test]
fn a_scanner_counts_from_where_it_was_told() {
    let bytes = image(&[vote_record(5, 0)]);
    let mut scanner = LogScanner::new(SliceSource::new(&bytes)).at_offset(4096);
    let record = scanner.next_record().unwrap().unwrap();
    assert_eq!(record.info.offset, 4096);
    assert!(scanner.next_record().unwrap().is_none());
    assert_eq!(scanner.offset(), 4096 + 512);
    assert_eq!(scanner.end(), Some(ScanEnd::Eof));
}
