//! Checkpoint headers, blocks and files.

use rsl::checkpoint::{
    read_header, tmp_path_for, user_data_size, verify_file, CheckpointError, CheckpointHeader,
    CheckpointReader, CheckpointWriter, RejectReason, WriteError,
};
use rsl::durability::{Durability, FilePath};
use rsl::marshal::Writer;
use rsl::messages::{Header, MarshalError, Vote, MSG_VOTE};
use rsl::seqread::{open_at, SeqReaderConfig, SECTOR};
use rsl::sim::{CrashPolicy, SimCrash};
use rsl::source::{NoError, SliceSource, Source};
use rsl::types::{BallotNumber, ConfigurationInfo, MemberId, MemberSet, RslNode};
use rsl::version::ProtocolVersion;
use rsl::{round_up_to_page, CHECKSUM_BLOCK_SIZE, CHECKSUM_SIZE, PAGE_SIZE};

fn node() -> RslNode {
    RslNode {
        member_id: MemberId::from_str("101"),
        ip: 0x0100_007f,
        rsl_port: 8080,
        rsl_learn_port: 8081,
        app_port: 0,
        host_name: b"host-a".to_vec(),
    }
}

fn sample_vote(version: ProtocolVersion, decree: u64) -> Vote {
    Vote::new(Header::new(
        version,
        MSG_VOTE,
        MemberId::from_str("101"),
        decree,
        7,
        BallotNumber::new(5, MemberId::from_str("202")),
        0,
    ))
}

fn sample_header(version: ProtocolVersion, decree: u64) -> CheckpointHeader {
    let mut header = CheckpointHeader::new(sample_vote(version, decree + 1));
    header.member_id = MemberId::from_str("101");
    header.last_executed_decree = decree;
    header.max_ballot = BallotNumber::new(9, MemberId::from_str("202"));
    if version.has_checkpoint_header() {
        header.state_configuration = Some(ConfigurationInfo::new(
            0x0a0b_0c0d,
            decree + 1,
            MemberSet {
                members: vec![node()],
                cookie: b"cfg".to_vec(),
            },
        ));
    }
    header
}

#[test]
fn header_blob_is_page_rounded_and_round_trips() {
    for version in [ProtocolVersion::V3, ProtocolVersion::V6] {
        let header = sample_header(version, 0x1000);
        let blob = header.marshal().unwrap();
        let len = header.marshal_len().unwrap();
        assert_eq!(blob.len() as u32, len);
        assert_eq!(len % PAGE_SIZE, 0);

        let parsed = CheckpointHeader::unmarshal(&blob[..len as usize]).unwrap();
        assert_eq!(parsed.version, version);
        assert_eq!(parsed.un_marshal_len, len);
        assert_eq!(parsed.last_executed_decree, header.last_executed_decree);
        assert_eq!(parsed.member_id, header.member_id);
        assert_eq!(parsed.max_ballot, header.max_ballot);
        let cfg_bytes = |cfg: &Option<ConfigurationInfo>| {
            let mut w = Writer::new();
            cfg.as_ref().unwrap().marshal(&mut w, version);
            w.into_bytes()
        };
        assert_eq!(
            cfg_bytes(&parsed.state_configuration),
            cfg_bytes(&header.state_configuration)
        );
        assert_eq!(
            parsed.next_vote.header.decree,
            header.next_vote.header.decree
        );
        assert_eq!(parsed.marshal_len(), header.marshal_len());
        assert_eq!(parsed.marshal().unwrap(), blob);
    }
}

#[test]
fn header_at_v3_has_no_block_fields() {
    let v3 = sample_header(ProtocolVersion::V3, 1);
    assert!(!v3.uses_blocks());
    assert_eq!(v3.checksum_block_size, 0);

    let v4 = sample_header(ProtocolVersion::V4, 1);
    assert!(v4.uses_blocks());
    assert_eq!(v4.checksum_block_size, CHECKSUM_BLOCK_SIZE);
}

#[test]
fn header_without_configuration_is_refused() {
    let mut header = sample_header(ProtocolVersion::V6, 1);
    header.state_configuration = None;
    assert_eq!(header.marshal_len(), None);
    assert_eq!(header.marshal(), Err(WriteError::MissingConfiguration));
}

#[test]
fn header_with_an_unwritable_vote_is_refused() {
    let mut header = sample_header(ProtocolVersion::V6, 1);
    header.next_vote.is_reconfiguration = true;
    header.next_vote.members_in_new_configuration = Some(MemberSet::default());
    header.next_vote.add_request(b"r".to_vec());
    let error = WriteError::Vote(MarshalError::ReconfigurationVoteWithRequests);
    assert_eq!(header.marshal(), Err(error));
    assert_eq!(
        error.message(),
        "next vote cannot be marshaled: a reconfiguration vote cannot carry requests"
    );
}

#[test]
fn header_rejects_a_low_max_ballot() {
    let mut header = sample_header(ProtocolVersion::V6, 1);
    header.max_ballot = BallotNumber::new(1, MemberId::from_str("202"));
    let blob = header.marshal().unwrap();
    assert!(CheckpointHeader::unmarshal(&blob[..header.marshal_len().unwrap() as usize]).is_none());
}

#[test]
fn header_rejects_a_corrupted_vote() {
    let header = sample_header(ProtocolVersion::V6, 1);
    let len = header.marshal_len().unwrap() as usize;
    let blob = header.marshal().unwrap();

    let vote_start = header.next_vote_offset().unwrap() as usize;
    let mut corrupt = blob.clone();
    corrupt[vote_start + 40] ^= 0xff;
    assert!(CheckpointHeader::unmarshal(&corrupt[..len]).is_none());
}

#[test]
fn header_rejects_truncation_before_the_vote_ends() {
    let header = sample_header(ProtocolVersion::V6, 1);
    let blob = header.marshal().unwrap();
    let vote_end =
        header.next_vote_offset().unwrap() as usize + header.next_vote.marshal_len() as usize;
    for cut in 0..vote_end {
        assert!(
            CheckpointHeader::unmarshal(&blob[..cut]).is_none(),
            "truncation to {cut} bytes parsed"
        );
    }
    assert!(CheckpointHeader::unmarshal(&blob[..vote_end]).is_some());
}

#[test]
fn user_data_size_arithmetic_matches_init() {
    let block = 1024u32;
    let data_only = u64::from(block - CHECKSUM_SIZE);
    assert_eq!(user_data_size(0, block), 0);
    assert_eq!(user_data_size(108, block), 100);
    assert_eq!(user_data_size(u64::from(block), block), data_only);
    assert_eq!(user_data_size(u64::from(block) + 9, block), data_only + 1);
}

fn header(version: ProtocolVersion, block_size: Option<u32>) -> CheckpointHeader {
    let mut header = sample_header(version, 0x2000);
    if let Some(size) = block_size {
        header.checksum_block_size = size;
    }
    header
}

fn ramp_state(len: usize) -> Vec<u8> {
    (0..len).map(|i| i as u8).collect()
}

fn path(name: &str) -> FilePath {
    FilePath::new("/data", name)
}

fn create(name: &str, header: CheckpointHeader) -> CheckpointWriter<SimCrash> {
    match CheckpointWriter::create_with(&path(name), header, SimCrash::new()) {
        Ok(writer) => writer,
        Err((e, _)) => panic!("create: {e:?}"),
    }
}

fn live(sim: &SimCrash, name: &str) -> Option<Vec<u8>> {
    let path = path(name);
    sim.image(sim.len(), CrashPolicy::Everything)
        .into_iter()
        .find(|(p, _)| *p == path)
        .map(|(_, b)| b)
}

fn finish(writer: CheckpointWriter<SimCrash>) -> (CheckpointHeader, SimCrash) {
    match writer.finish() {
        Ok(done) => done,
        Err((e, _)) => panic!("finish: {e:?}"),
    }
}

/// The bytes of a checkpoint of `state`.
fn checkpoint(header: CheckpointHeader, state: &[u8]) -> Vec<u8> {
    let mut writer = create("cp.codex", header);
    writer.write_state(state).expect("write");
    let (_, sim) = finish(writer);
    live(&sim, "cp.codex").expect("published")
}

fn open(bytes: &[u8]) -> CheckpointReader<SliceSource<'_>> {
    match CheckpointReader::new(SliceSource::new(bytes), bytes.len() as u64) {
        Ok(reader) => reader,
        Err(e) => panic!("open: {e:?}"),
    }
}

fn reject(bytes: &[u8]) -> Option<RejectReason> {
    verify_file(SliceSource::new(bytes), bytes.len() as u64)
        .expect("verify")
        .reject
}

fn expected_file_size(header_len: u32, block_size: u32, state_len: u64) -> u64 {
    let data_only = u64::from(block_size - CHECKSUM_SIZE);
    let blocks = state_len.div_ceil(data_only);
    u64::from(header_len) + state_len + blocks * u64::from(CHECKSUM_SIZE)
}

#[test]
fn round_trips_across_the_4_mib_block_boundary() {
    let data_only = u64::from(CHECKSUM_BLOCK_SIZE - CHECKSUM_SIZE);
    let sizes = [
        0,
        1,
        data_only - 1,
        data_only,
        data_only + 1,
        2 * data_only,
        2 * data_only + 50,
    ];
    for len in sizes {
        let state = ramp_state(len as usize);
        let header = header(ProtocolVersion::V6, None);
        let header_len = header.marshal_len().unwrap();
        let bytes = checkpoint(header, &state);
        assert_eq!(
            bytes.len() as u64,
            expected_file_size(header_len, CHECKSUM_BLOCK_SIZE, len),
            "file size for {len} user bytes"
        );
        let mut reader = open(&bytes);
        assert_eq!(reader.header().size, bytes.len() as u64);
        assert_eq!(reader.user_data_size(), len);
        assert!(reader.read_all().expect("read") == state, "state for {len}");
    }
}

#[test]
fn accepted_samples_stream_back_their_user_state() {
    for (version, block, len) in [
        (ProtocolVersion::V3, None, 0usize),
        (ProtocolVersion::V3, None, 5000),
        (ProtocolVersion::V4, Some(512), 504),
        (ProtocolVersion::V5, Some(1024), 5000),
        (ProtocolVersion::V6, None, 100),
        (ProtocolVersion::V6, Some(4096), 0),
    ] {
        let bytes = checkpoint(header(version, block), &ramp_state(len));
        let verification = verify_file(SliceSource::new(&bytes), bytes.len() as u64).unwrap();
        assert!(verification.accepted());
        assert_eq!(verification.outcome(), "accept");
        assert_eq!(verification.version, Some(version.raw()));
        assert_eq!(verification.user_data_size, len as u64);
        let mut reader = open(&bytes);
        assert_eq!(reader.user_data_size(), len as u64);
        assert_eq!(reader.read_all().unwrap(), ramp_state(len));
    }
}

#[test]
fn checkpoints_read_back_at_any_ring_shape() {
    let block = 4 * PAGE_SIZE;
    let state = ramp_state(3 * (block - CHECKSUM_SIZE) as usize + 991);
    let bytes = checkpoint(header(ProtocolVersion::V6, Some(block)), &state);

    for (threads, slots, ring) in [
        (1, 2, SECTOR),
        (2, 4, SECTOR),
        (3, 3, SECTOR * 2),
        (8, 8, 1 << 20),
    ] {
        let config = SeqReaderConfig {
            threads,
            slots,
            block: ring,
        };
        let size = bytes.len() as u64;
        let mut ringed = match open_at(SliceSource::new(&bytes), size, 0, config) {
            Ok(reader) => reader,
            Err(e) => panic!("{e:?}"),
        };
        let mut read = Vec::new();
        loop {
            let part = ringed.read(1000).unwrap();
            if part.is_empty() {
                break;
            }
            read.extend(part);
        }
        let mut reader = open(&read);
        assert_eq!(reader.user_data_size(), state.len() as u64);
        assert_eq!(
            reader.read_all().expect("read"),
            state,
            "state at {threads}x{slots}x{ring}"
        );
    }
}

#[test]
fn many_small_writes_produce_the_same_file_as_one() {
    let block = 4 * PAGE_SIZE;
    let state = ramp_state(5 * (block - CHECKSUM_SIZE) as usize + 37);
    let one = checkpoint(header(ProtocolVersion::V6, Some(block)), &state);

    let mut writer = create("many.codex", header(ProtocolVersion::V6, Some(block)));
    for chunk in state.chunks(1043) {
        assert_eq!(writer.write(chunk), Ok(chunk.len()));
    }
    assert_eq!(writer.user_bytes(), state.len() as u64);
    let (_, sim) = finish(writer);
    assert_eq!(live(&sim, "many.codex").unwrap(), one);
}

#[test]
fn read_adapter_returns_the_same_bytes_in_any_chunk_size() {
    let block = 4 * PAGE_SIZE;
    let state = ramp_state(3 * (block - CHECKSUM_SIZE) as usize + 11);
    let bytes = checkpoint(header(ProtocolVersion::V6, Some(block)), &state);

    for chunk in [1usize, 7, 512, 4096, 1 << 20] {
        let mut reader = open(&bytes);
        let mut out = Vec::new();
        loop {
            let part = reader.read(chunk).expect("read");
            if part.is_empty() {
                break;
            }
            out.extend_from_slice(&part);
        }
        assert_eq!(out, state, "chunked read of {chunk} bytes");
    }
}

#[test]
fn unblocked_v3_checkpoint_round_trips() {
    let state = ramp_state(9000);
    let header = header(ProtocolVersion::V3, None);
    assert!(!header.uses_blocks(), "v3 has no block checksums");
    let header_len = header.marshal_len().unwrap();
    let bytes = checkpoint(header, &state);
    assert_eq!(bytes.len(), header_len as usize + state.len());
    let mut reader = open(&bytes);
    assert_eq!(reader.user_data_size(), state.len() as u64);
    assert_eq!(reader.read_all().expect("read"), state);
}

#[test]
fn every_block_data_flip_is_caught() {
    let block = 2 * PAGE_SIZE;
    let data_only = (block - CHECKSUM_SIZE) as usize;
    let state = ramp_state(2 * data_only + 100);
    let header = header(ProtocolVersion::V6, Some(block));
    let header_len = header.marshal_len().unwrap() as usize;
    let good = checkpoint(header, &state);

    let mut offsets = Vec::new();
    let mut off = header_len;
    while off < good.len() {
        let blk = (good.len() - off).min(block as usize);
        offsets.push(off);
        offsets.push(off + blk - CHECKSUM_SIZE as usize - 1);
        offsets.push(off + blk - 1);
        off += blk;
    }
    assert_eq!(offsets.len(), 9, "expected three blocks");

    for offset in offsets {
        let mut bytes = good.clone();
        bytes[offset] ^= 0xff;
        assert_eq!(
            reject(&bytes),
            Some(RejectReason::BlockChecksum),
            "flip at {offset} was not caught"
        );
        let mut reader = open(&bytes);
        assert_eq!(
            reader.read_all(),
            Err(CheckpointError::Reject(RejectReason::BlockChecksum))
        );
    }
}

#[test]
fn header_and_size_corruption_is_caught() {
    let block = 2 * PAGE_SIZE;
    let state = ramp_state(300);
    let header = header(ProtocolVersion::V6, Some(block));
    let vote_offset = header.next_vote_offset().unwrap() as usize;
    let good = checkpoint(header, &state);

    let mut bytes = good.clone();
    bytes[0] = 0x7f;
    assert_eq!(reject(&bytes), Some(RejectReason::InvalidVersion));

    let mut bytes = good.clone();
    bytes[vote_offset + 32] ^= 0xff;
    assert_eq!(reject(&bytes), Some(RejectReason::HeaderUnmarshal));

    let mut bytes = good.clone();
    bytes.truncate(bytes.len() - 1);
    assert_eq!(reject(&bytes), Some(RejectReason::SizeMismatch));

    let mut bytes = good.clone();
    bytes.extend_from_slice(&[0u8; 16]);
    assert_eq!(reject(&bytes), Some(RejectReason::SizeMismatch));

    assert_eq!(reject(&good[..100]), Some(RejectReason::ShortFile));

    let mut bytes = good.clone();
    bytes[2..6].copy_from_slice(&u32::MAX.to_le_bytes());
    assert_eq!(reject(&bytes), Some(RejectReason::TruncatedHeader));
}

#[test]
fn a_trailing_block_too_small_for_its_checksum_is_rejected() {
    let block = 2 * PAGE_SIZE;
    let header = header(ProtocolVersion::V6, Some(block));
    let vote_offset = header.next_vote_offset().unwrap() as usize;
    let state = ramp_state((block - CHECKSUM_SIZE) as usize);
    let mut bytes = checkpoint(header, &state);
    bytes.extend_from_slice(&[0u8; 4]);
    let size_offset = vote_offset - 12;
    let len = bytes.len() as u64;
    bytes[size_offset..size_offset + 8].copy_from_slice(&len.to_le_bytes());
    assert_eq!(reject(&bytes), Some(RejectReason::BlockTooShort));
}

#[test]
fn a_dropped_writer_leaves_nothing_behind() {
    let mut writer = create("cp.codex", header(ProtocolVersion::V6, None));
    writer.write_state(b"partial state").expect("write");
    let (removed, sim) = writer.abandon();
    assert_eq!(removed, Ok(()));
    assert!(!sim.file_exists(&path("cp.codex")));
    assert!(!sim.file_exists(&path("cp.codex.tmp")));
}

#[test]
fn the_final_file_only_appears_on_finish() {
    let mut writer = create("cp.codex", header(ProtocolVersion::V6, None));
    writer.write_state(&ramp_state(1000)).expect("write");
    let issued = writer.bytes_issued();
    let (written, sim) = finish(writer);
    assert!(sim.file_exists(&path("cp.codex")));
    assert!(!sim.file_exists(&path("cp.codex.tmp")));
    let len = live(&sim, "cp.codex").unwrap().len() as u64;
    assert_eq!(written.size, len);
    assert_eq!(issued, len);

    // Up to the renaming, only the other name is there.
    let renamed = sim
        .journal()
        .iter()
        .position(|op| op.describe().starts_with("rename"))
        .expect("rename");
    let staged = sim.image(renamed, CrashPolicy::Everything);
    assert_eq!(staged.len(), 1);
    assert_eq!(staged[0].0, path("cp.codex.tmp"));
    assert_eq!(tmp_path_for(&path("cp.codex")), path("cp.codex.tmp"));
}

#[test]
fn bad_block_sizes_are_refused_by_the_writer() {
    let refused = |name: &str, header: CheckpointHeader| {
        match CheckpointWriter::create_with(&path(name), header, SimCrash::new()) {
            Err((CheckpointError::Write(e), sim)) => (e, sim),
            Err((e, _)) => panic!("{e:?}"),
            Ok(_) => panic!("must be refused"),
        }
    };
    let (e, sim) = refused("a.codex", header(ProtocolVersion::V6, Some(PAGE_SIZE + 1)));
    assert!(!sim.file_exists(&path("a.codex.tmp")), "nothing is created");
    assert!(sim.is_empty());
    assert_eq!(e, WriteError::BlockSizeNotPageMultiple(513));
    assert_eq!(e.message(), "checksum block size 513 is not a multiple of 512");
    assert_eq!(
        WriteError::BlockSizeTooSmall(8).message(),
        "checksum block size 8 leaves no room for data"
    );

    let mut no_config = header(ProtocolVersion::V6, None);
    no_config.state_configuration = None;
    let (e, sim) = refused("b.codex", no_config);
    assert!(sim.is_empty());
    assert_eq!(e, WriteError::MissingConfiguration);
    assert_eq!(
        e.message(),
        "checkpoint header at version >= 3 without a configuration"
    );
    assert_eq!(
        WriteError::HeaderTooLarge.message(),
        "marshaled checkpoint header exceeds 4 GiB"
    );
}

#[test]
fn a_block_size_of_zero_means_no_blocks() {
    let state = ramp_state(700);
    let header = header(ProtocolVersion::V6, Some(0));
    let header_len = header.marshal_len().unwrap() as usize;
    let bytes = checkpoint(header, &state);
    assert_eq!(bytes.len(), header_len + 700);
    assert_eq!(&bytes[header_len..], &state[..]);
    assert_eq!(open(&bytes).read_all().unwrap(), state);
}

#[test]
fn reject_reasons_read_as_sentences() {
    let e: CheckpointError<()> = CheckpointError::Reject(RejectReason::BlockChecksum);
    assert_eq!(e.message(""), "checkpoint rejected: block checksum mismatch");
    let e: CheckpointError<()> = CheckpointError::Io(());
    assert_eq!(e.message("no such file"), "no such file");
    let e: CheckpointError<()> = CheckpointError::UnexpectedEnd;
    assert_eq!(e.message(""), "failed to fill whole buffer");
    let e: CheckpointError<()> = CheckpointError::Write(WriteError::MissingConfiguration);
    assert_eq!(
        e.message(""),
        "checkpoint header at version >= 3 without a configuration"
    );
}

#[test]
fn headers_are_read_off_the_front_of_a_stream() {
    let bytes = checkpoint(header(ProtocolVersion::V6, Some(1024)), b"state");
    let mut source = SliceSource::new(&bytes);
    let read = read_header(&mut source, bytes.len() as u64).unwrap();
    assert_eq!(read.last_executed_decree, 0x2000);
    assert_eq!(read.size, bytes.len() as u64);

    // The file is longer than the bytes that are there.
    let mut source = SliceSource::new(&bytes[..600]);
    let e = read_header(&mut source, bytes.len() as u64);
    assert!(matches!(e, Err(CheckpointError::<NoError>::UnexpectedEnd)));
}

#[test]
fn a_rejected_header_takes_at_most_a_page() {
    let bytes = checkpoint(header(ProtocolVersion::V6, Some(1024)), b"state");
    let left_over = |bytes: &[u8], reason: RejectReason| {
        let mut source = SliceSource::new(bytes);
        match read_header(&mut source, bytes.len() as u64) {
            Err(CheckpointError::<NoError>::Reject(r)) => assert_eq!(r, reason),
            _ => panic!("not rejected"),
        }
        let mut rest = Vec::new();
        loop {
            let part = source.read(1000).unwrap();
            if part.is_empty() {
                return rest;
            }
            rest.extend_from_slice(&part);
        }
    };
    assert_eq!(left_over(&bytes[..100], RejectReason::ShortFile), &bytes[..100]);
    let mut version = bytes.clone();
    version[0] = 9;
    assert_eq!(left_over(&version, RejectReason::InvalidVersion), &bytes[512..]);
    let mut long = bytes.clone();
    long[2..6].copy_from_slice(&(bytes.len() as u32 + 1).to_le_bytes());
    assert_eq!(left_over(&long, RejectReason::TruncatedHeader), &bytes[512..]);
}

#[test]
fn a_flipped_bit_behind_the_header_is_always_found() {
    let header = header(ProtocolVersion::V6, Some(512));
    let start = header.marshal_len().unwrap() as usize;
    let bytes = checkpoint(header, &ramp_state(1300));
    assert!(bytes.len() > start + 1300);
    for i in start..bytes.len() {
        let mut bad = bytes.clone();
        bad[i] ^= 1 << (i % 8);
        let verification = verify_file(SliceSource::new(&bad), bad.len() as u64).unwrap();
        assert_eq!(verification.reject, Some(RejectReason::BlockChecksum), "byte {i}");
    }
}

#[test]
fn a_header_is_read_up_to_the_end_of_its_vote() {
    for version in [ProtocolVersion::V1, ProtocolVersion::V3, ProtocolVersion::V6] {
        let header = sample_header(version, 0x1000);
        let blob = header.marshal().unwrap();
        let end = header.next_vote_offset().unwrap() as usize
            + header.next_vote.marshal_len() as usize;
        let whole = CheckpointHeader::unmarshal(&blob).unwrap();
        assert_eq!(whole.marshal().unwrap(), blob);
        for cut in 0..=blob.len() {
            match CheckpointHeader::unmarshal(&blob[..cut]) {
                None => assert!(cut < end, "cut {cut}"),
                Some(read) => {
                    assert!(cut >= end, "cut {cut}");
                    assert_eq!(read.marshal().unwrap(), blob);
                }
            }
        }
    }
}

#[test]
fn a_vote_that_cannot_be_written_leaves_nothing_behind() {
    let mut header = header(ProtocolVersion::V6, Some(512));
    header.next_vote.is_reconfiguration = true;
    header.next_vote.members_in_new_configuration = Some(MemberSet::default());
    header.next_vote.add_request(b"r".to_vec());
    let mut writer = create("cp.codex", header);
    writer.write_state(&ramp_state(2000)).expect("write");
    match writer.finish() {
        Err((CheckpointError::Write(WriteError::Vote(e)), sim)) => {
            assert_eq!(e, MarshalError::ReconfigurationVoteWithRequests);
            assert!(!sim.file_exists(&path("cp.codex")));
            assert!(!sim.file_exists(&path("cp.codex.tmp")));
        }
        _ => panic!("the vote was written"),
    }
}

#[test]
fn blocks_come_one_by_one() {
    let block = 512u32;
    let room = (block - CHECKSUM_SIZE) as usize;
    let state = ramp_state(2 * room + 3);
    let bytes = checkpoint(header(ProtocolVersion::V6, Some(block)), &state);
    let mut reader = open(&bytes);
    assert_eq!(reader.next_block().unwrap().unwrap(), &state[..room]);
    assert_eq!(reader.next_block().unwrap().unwrap(), &state[room..2 * room]);
    assert_eq!(reader.next_block().unwrap().unwrap(), &state[2 * room..]);
    assert_eq!(reader.next_block().unwrap(), None);
    let mut reader = open(&bytes);
    assert_eq!(reader.verify_all().unwrap(), state.len() as u64);
    // Nothing is kept of what was checked.
    assert!(reader.read(10).unwrap().is_empty());
}

#[test]
fn no_byte_of_a_bad_block_is_handed_out() {
    let block = 512u32;
    let room = (block - CHECKSUM_SIZE) as usize;
    let state = ramp_state(2 * room);
    let header = header(ProtocolVersion::V6, Some(block));
    let start = header.marshal_len().unwrap() as usize;
    let mut bytes = checkpoint(header, &state);
    bytes[start] ^= 1;
    let mut reader = open(&bytes);
    assert!(matches!(
        reader.read(10),
        Err(CheckpointError::Reject(RejectReason::BlockChecksum))
    ));
    // The next block is good.
    assert_eq!(reader.read(1000).unwrap(), &state[room..]);
    assert!(reader.read(1000).unwrap().is_empty());
}

#[test]
fn good_blocks_are_handed_out_before_a_bad_one() {
    let block = 512u32;
    let room = (block - CHECKSUM_SIZE) as usize;
    let state = ramp_state(3 * room);
    let header = header(ProtocolVersion::V6, Some(block));
    let start = header.marshal_len().unwrap() as usize;
    let mut bytes = checkpoint(header, &state);
    bytes[start + 2 * block as usize] ^= 1;
    let mut reader = open(&bytes);
    let mut got = Vec::new();
    while got.len() < 2 * room {
        let part = reader.read(100).unwrap();
        assert!(!part.is_empty());
        got.extend(part);
    }
    assert_eq!(got, &state[..2 * room]);
    assert!(matches!(
        reader.read(1),
        Err(CheckpointError::Reject(RejectReason::BlockChecksum))
    ));
}

#[test]
fn arbitrary_state_round_trips() {
    for version in [ProtocolVersion::V4, ProtocolVersion::V5, ProtocolVersion::V6] {
        for blocks in 1u32..5 {
            for len in [0usize, 1, 503, 504, 505, 1016, 2040, 2041, 4999, 8999] {
                let block_size = blocks * PAGE_SIZE;
                let state = ramp_state(len);
                let header = header(version, Some(block_size));
                let header_len = header.marshal_len().unwrap();
                assert_eq!(header_len, round_up_to_page(header_len));
                let bytes = checkpoint(header, &state);
                assert_eq!(
                    bytes.len() as u64,
                    expected_file_size(header_len, block_size, len as u64)
                );
                let mut reader = open(&bytes);
                assert_eq!(reader.header_len(), header_len);
                assert_eq!(reader.user_data_size(), len as u64);
                assert_eq!(reader.header().checksum_block_size, block_size);
                assert_eq!(reader.read_all().unwrap(), state);
            }
        }
    }
}

#[test]
fn any_single_bit_flip_in_user_data_is_caught() {
    let block_size = 2 * PAGE_SIZE;
    let len = 3000;
    let header = header(ProtocolVersion::V6, Some(block_size));
    let header_len = header.marshal_len().unwrap() as usize;
    let good = checkpoint(header, &ramp_state(len));
    let data_only = (block_size - CHECKSUM_SIZE) as usize;
    for flip in (0..len).step_by(13) {
        let offset = header_len + (flip / data_only) * block_size as usize + (flip % data_only);
        let mut bytes = good.clone();
        bytes[offset] ^= 0x01;
        assert_eq!(reject(&bytes), Some(RejectReason::BlockChecksum));
    }
}
