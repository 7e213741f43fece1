//! A workload runs against the shadow file system, power is cut at every point
//! of it under every policy, and recovery has to make sense of what is left.

use std::collections::BTreeMap;

use rsl::checkpoint::{verify_file, CheckpointHeader, CheckpointWriter};
use rsl::dir::{checkpoint_file_name, log_file_name, DataDir};
use rsl::durability::{Durability, FilePath, OpenMode};
use rsl::gc::{apply_with, plan, Retention};
use rsl::log::{scan_bytes, LogError, LogWriter, Outcome};
use rsl::messages::{Header, Vote, MSG_VOTE};
use rsl::sim::{CrashPolicy, SimCrash, SimError, SimFile, SimReader, POLICIES};
use rsl::source::SliceSource;
use rsl::types::{BallotNumber, ConfigurationInfo, MemberId, MemberSet, RslNode};
use rsl::version::ProtocolVersion;

const DATA: &str = "/data";

fn vote_record(decree: u64, request_len: usize) -> Vec<u8> {
    let mut vote = Vote::new(Header::new(
        ProtocolVersion::V6,
        MSG_VOTE,
        MemberId::from_str("101"),
        decree,
        7,
        BallotNumber::new(3, MemberId::from_str("202")),
        0,
    ));
    if request_len > 0 {
        vote.add_request(vec![b'r'; request_len]);
    }
    vote.marshal_with_checksum().unwrap()
}

fn checkpoint_header(decree: u64) -> CheckpointHeader {
    let vote = Vote::new(Header::new(
        ProtocolVersion::V6,
        MSG_VOTE,
        MemberId::from_str("101"),
        decree + 1,
        7,
        BallotNumber::new(5, MemberId::from_str("202")),
        0,
    ));
    let mut header = CheckpointHeader::new(vote);
    header.member_id = MemberId::from_str("101");
    header.last_executed_decree = decree;
    header.max_ballot = BallotNumber::new(9, MemberId::from_str("202"));
    header.state_configuration = Some(ConfigurationInfo::new(
        1,
        decree + 1,
        MemberSet {
            members: vec![RslNode {
                member_id: MemberId::from_str("101"),
                ip: 0x0100_007f,
                rsl_port: 8080,
                rsl_learn_port: 8081,
                app_port: 0,
                host_name: b"host-a".to_vec(),
            }],
            cookie: b"cfg".to_vec(),
        },
    ));
    header
}

fn ramp_state(len: usize) -> Vec<u8> {
    (0..len).map(|i| i as u8).collect()
}

fn open_log<D: Durability>(decree: u64, durability: D) -> LogWriter<D>
where
    D::Error: std::fmt::Debug,
{
    match LogWriter::open_with(DATA, decree, durability) {
        Ok(writer) => writer,
        Err((e, _)) => panic!("open: {e:?}"),
    }
}

fn write_checkpoint(sim: SimCrash, decree: u64, state: &[u8]) -> SimCrash {
    let path = FilePath::new(DATA, &checkpoint_file_name(decree));
    let mut writer = match CheckpointWriter::create_with(&path, checkpoint_header(decree), sim) {
        Ok(writer) => writer,
        Err((e, _)) => panic!("create: {e:?}"),
    };
    writer.write_state(state).expect("write");
    match writer.finish() {
        Ok((_, sim)) => sim,
        Err((e, _)) => panic!("finish: {e:?}"),
    }
}

/// What is left after a crash.
struct CrashCase {
    files: Vec<(FilePath, Vec<u8>)>,
    at: String,
    policy: CrashPolicy,
    acks: Vec<String>,
}

impl CrashCase {
    fn acked_count(&self) -> u64 {
        self.acks
            .last()
            .map_or(0, |a| a.parse().expect("count ack"))
    }

    fn fail(&self, message: &str) -> String {
        format!("[{} | {}] {message}", self.at, self.policy.name())
    }

    fn file(&self, name: &str) -> Option<&[u8]> {
        let path = FilePath::new(DATA, name);
        self.files
            .iter()
            .find(|(p, _)| *p == path)
            .map(|(_, b)| &b[..])
    }

    /// A file system that starts out with these files.
    fn restart(&self) -> SimCrash {
        let mut sim = SimCrash::new();
        for (path, bytes) in &self.files {
            let mut file = sim.open(path, OpenMode::Create).unwrap();
            file.write(&mut sim, bytes).unwrap();
        }
        sim
    }

    fn listing(&self) -> DataDir {
        let names: Vec<String> = self.files.iter().map(|(p, _)| p.name.clone()).collect();
        DataDir::from_names(DATA, &names).expect("directory scan failed")
    }
}

fn enumerate_from(
    sim: &SimCrash,
    from: usize,
    mut check: impl FnMut(&CrashCase) -> Result<(), String>,
) -> Vec<String> {
    let mut violations = Vec::new();
    for k in from..=sim.len() {
        for policy in POLICIES {
            let case = CrashCase {
                files: sim.image(k, policy),
                at: sim.describe(k),
                policy,
                acks: sim.acks_before(k),
            };
            if let Err(violation) = check(&case) {
                violations.push(violation);
            }
        }
    }
    violations
}

fn enumerate(
    sim: &SimCrash,
    check: impl FnMut(&CrashCase) -> Result<(), String>,
) -> Vec<String> {
    enumerate_from(sim, 0, check)
}

fn assert_clean(violations: Vec<String>, workload: &str) {
    assert!(
        violations.is_empty(),
        "{workload}: {} crash states violated the durability contract:\n  {}",
        violations.len(),
        violations.join("\n  ")
    );
}

fn check_log(
    case: &CrashCase,
    name: &str,
    decree: u64,
    written: &[u64],
    acked: u64,
) -> Result<(), String> {
    let Some(bytes) = case.file(name) else {
        return if acked == 0 {
            Ok(())
        } else {
            Err(case.fail(&format!(
                "{name} vanished with {acked} acknowledged records"
            )))
        };
    };

    let scan = scan_bytes(bytes);
    if scan.records.len() > written.len() {
        return Err(case.fail("more records than were written"));
    }
    for (i, record) in scan.records.iter().enumerate() {
        if record.decree != written[i] {
            return Err(case.fail(&format!("record {i} is decree {}", record.decree)));
        }
    }
    if (scan.records.len() as u64) < acked {
        return Err(case.fail(&format!(
            "{name} lost acknowledged records: {} recovered, {acked} acknowledged ({})",
            scan.records.len(),
            scan.detail()
        )));
    }
    if scan.end.outcome() == Outcome::Reject {
        let acked_end: u64 = scan
            .records
            .iter()
            .take(acked as usize)
            .map(|r| u64::from(r.padded_len))
            .sum();
        if scan.stop_offset < acked_end {
            return Err(case.fail("rejected inside the acknowledged prefix"));
        }
        return Ok(());
    }

    let mut writer = match LogWriter::open_with(DATA, decree, case.restart()) {
        Ok(writer) => writer,
        Err((LogError::Corrupt(_), _)) => return Ok(()),
        Err((e, _)) => return Err(case.fail(&format!("could not be reopened: {e:?}"))),
    };
    let kept = scan.records.len();
    let next = written
        .get(kept)
        .copied()
        .unwrap_or(written[written.len() - 1] + 1);
    writer
        .append_durable(&[&vote_record(next, 0)])
        .map_err(|e| case.fail(&format!("could not be appended to: {e:?}")))?;
    let sim = writer.into_durability();
    let files = sim.image(sim.len(), CrashPolicy::Everything);
    let path = FilePath::new(DATA, name);
    let (_, bytes) = files.iter().find(|(p, _)| *p == path).expect("log");

    let rescan = scan_bytes(bytes);
    if rescan.end.outcome() != Outcome::Accept {
        return Err(case.fail("did not scan clean after reopen and append"));
    }
    if rescan.records.len() != kept + 1 {
        return Err(case.fail("the append is not there"));
    }
    Ok(())
}

#[test]
fn appended_votes_survive_every_crash_point() {
    let mut writer = open_log(0, SimCrash::new());
    let mut written: Vec<u64> = Vec::new();
    writer
        .append_durable(&[&vote_record(0, 0)])
        .expect("append");
    written.push(0);
    let mut sim = writer.into_durability();
    sim.ack("1");

    let mut writer = open_log(0, sim);
    let batch: Vec<Vec<u8>> = vec![vote_record(1, 0), vote_record(2, 3000), vote_record(3, 100)];
    let refs: Vec<&[u8]> = batch.iter().map(Vec::as_slice).collect();
    writer.append_durable(&refs).expect("append batch");
    written.extend([1, 2, 3]);
    let mut sim = writer.into_durability();
    sim.ack("4");

    let mut writer = open_log(0, sim);
    let record = vote_record(4, 600);
    writer.append_unsynced(&[&record]).expect("append");
    written.push(4);
    writer
        .append_durable(&[&vote_record(5, 0)])
        .expect("append");
    written.push(5);
    let mut sim = writer.into_durability();
    sim.ack("6");

    let mut seen: BTreeMap<&'static str, u32> = BTreeMap::new();
    let violations = enumerate(&sim, |case| {
        let outcome = match case.file("0.log") {
            Some(bytes) => scan_bytes(bytes).outcome(),
            None => "absent",
        };
        *seen.entry(outcome).or_default() += 1;
        check_log(case, "0.log", 0, &written, case.acked_count())
    });
    assert_clean(violations, "append");
    for outcome in ["accept", "stop-at-offset", "reject"] {
        assert!(
            seen.get(outcome).is_some_and(|&n| n > 0),
            "no crash state produced a '{outcome}' recovery (saw {seen:?})"
        );
    }
}

#[test]
fn a_published_checkpoint_is_never_a_hybrid() {
    let mut sim = SimCrash::new();
    let mut expected: BTreeMap<String, u64> = BTreeMap::new();
    for (decree, state_len) in [(100u64, 5_000usize), (200, 40_000)] {
        sim = write_checkpoint(sim, decree, &ramp_state(state_len));
        expected.insert(checkpoint_file_name(decree), state_len as u64);
        sim.ack(&expected.len().to_string());
    }

    let violations = enumerate(&sim, |case| {
        let listing = case.listing();
        for decree in &listing.checkpoints {
            let name = checkpoint_file_name(*decree);
            let bytes = case.file(&name).expect("listed");
            let verified = verify_file(SliceSource::new(bytes), bytes.len() as u64)
                .map_err(|e| case.fail(&format!("{name} could not be read: {e:?}")))?;
            if !verified.accepted() {
                return Err(case.fail(&format!("{name} is a hybrid: {}", verified.detail())));
            }
            let want = expected
                .get(&name)
                .copied()
                .ok_or_else(|| case.fail("never written"))?;
            if verified.user_data_size != want {
                return Err(case.fail(&format!("{name}: {want} bytes were written")));
            }
        }
        let acked = case.acked_count() as usize;
        if listing.checkpoints.len() < acked {
            return Err(case.fail("an acknowledged checkpoint is gone"));
        }
        Ok(())
    });
    assert_clean(violations, "checkpoint");
}

#[test]
fn garbage_collection_never_deletes_a_file_recovery_needs() {
    let mut sim = SimCrash::new();
    for (i, decree) in [0u64, 10, 20, 30].into_iter().enumerate() {
        let mut writer = open_log(decree, sim);
        writer
            .append_durable(&[&vote_record(decree + i as u64, 0)])
            .expect("append");
        sim = writer.into_durability();
    }
    for decree in [15u64, 25, 35] {
        sim = write_checkpoint(sim, decree, &ramp_state(1024));
    }

    let retention = Retention {
        max_checkpoints: 2,
        max_logs: 2,
    };
    let before = DataDir::scan_with(DATA, &sim).expect("scan");
    let doomed = plan(&before, retention);
    assert!(!doomed.is_empty(), "the scenario must actually delete things");
    let names: Vec<String> = doomed.paths(DATA).iter().map(|p| p.name.clone()).collect();

    let start = sim.len();
    let failures = apply_with(DATA, &doomed, &mut sim);
    assert!(failures.is_empty(), "cleanup failed: {failures:?}");

    let violations = enumerate_from(&sim, start, |case| {
        for decree in &before.logs {
            let name = log_file_name(*decree);
            if case.file(&name).is_none() && !names.contains(&name) {
                return Err(case.fail(&format!("{name} disappeared but was not condemned")));
            }
        }
        for decree in &before.checkpoints {
            let name = checkpoint_file_name(*decree);
            if case.file(&name).is_none() && !names.contains(&name) {
                return Err(case.fail(&format!("{name} disappeared but was not condemned")));
            }
        }
        let listing = case.listing();
        let newest = listing
            .newest_checkpoint()
            .ok_or_else(|| case.fail("no checkpoint left at all"))?;
        if newest != 35 {
            return Err(case.fail("the newest checkpoint changed"));
        }
        if listing.log_holding(newest).is_none() {
            return Err(case.fail("no log covers the newest checkpoint"));
        }
        Ok(())
    });
    assert_clean(violations, "gc");
    assert!(sim.len() > start, "the cleanup recorded no operations");
}

#[test]
fn a_reopened_log_keeps_everything_acknowledged_before_the_first_crash() {
    let mut sim = SimCrash::new();
    let mut written: Vec<u64> = Vec::new();
    for decree in 7..10 {
        let mut writer = open_log(7, sim);
        writer
            .append_durable(&[&vote_record(decree, 200)])
            .expect("append");
        written.push(decree);
        sim = writer.into_durability();
        sim.ack(&written.len().to_string());
    }
    let mut writer = open_log(7, sim);
    let record = vote_record(10, 2000);
    writer.append_unsynced(&[&record]).expect("append");
    written.push(10);

    let mut writer = open_log(7, writer.into_durability());
    let next = writer.index().max_decree() + 1;
    writer
        .append_durable(&[&vote_record(next, 0)])
        .expect("append");
    written.push(next);
    let mut sim = writer.into_durability();
    sim.ack(&written.len().to_string());

    let violations = enumerate(&sim, |case| {
        check_log(case, "7.log", 7, &written, case.acked_count())
    });
    assert_clean(violations, "reopen");
}

/// A policy that never makes names safe.
struct NoDirSync(SimCrash);

impl Durability for NoDirSync {
    type File = SimFile;
    type Error = SimError;
    type Reader = SimReader;

    fn open(&mut self, path: &FilePath, mode: OpenMode) -> Result<SimFile, SimError> {
        self.0.open(path, mode)
    }
    fn file_exists(&self, path: &FilePath) -> bool {
        self.0.file_exists(path)
    }
    fn read_dir(&self, dir: &str) -> Result<Vec<String>, SimError> {
        self.0.read_dir(dir)
    }
    fn remove_file(&mut self, path: &FilePath) -> Result<(), SimError> {
        self.0.remove_file(path)
    }
    fn reader(&mut self, file: &SimFile) -> Result<SimReader, SimError> {
        self.0.reader(file)
    }
    fn size(&self, file: &SimFile) -> Result<u64, SimError> {
        self.0.size(file)
    }
    fn set_size(&mut self, file: &SimFile, len: u64) -> Result<(), SimError> {
        self.0.set_size(file, len)
    }
    fn write_at(&mut self, file: &SimFile, offset: u64, bufs: &[&[u8]]) -> Result<(), SimError> {
        self.0.write_at(file, offset, bufs)
    }
    fn sync_data(&mut self, file: &SimFile) -> Result<(), SimError> {
        self.0.sync_data(file)
    }
    fn sync_file(&mut self, file: &SimFile) -> Result<(), SimError> {
        self.0.sync_file(file)
    }
    fn rename(&mut self, from: &FilePath, to: &FilePath) -> Result<(), SimError> {
        self.0.rename(from, to)
    }
    fn sync_dir(&mut self, _dir: &str) -> Result<(), SimError> {
        Ok(())
    }
}

#[test]
fn the_harness_catches_a_missing_dir_fsync() {
    let mut writer = open_log(0, NoDirSync(SimCrash::new()));
    writer
        .append_durable(&[&vote_record(0, 0)])
        .expect("append");
    let mut sim = writer.into_durability().0;
    sim.ack("1");

    let violations = enumerate(&sim, |case| {
        check_log(case, "0.log", 0, &[0], case.acked_count())
    });
    assert!(
        violations
            .iter()
            .any(|v| v.contains("vanished with 1 acknowledged records")),
        "a log whose directory entry was never synced must be seen to vanish; got: {violations:?}"
    );
}

#[test]
fn the_harness_catches_an_unsynced_publish() {
    let mut sim = SimCrash::new();
    let name = checkpoint_file_name(100);
    let tmp = FilePath::new(DATA, &format!("{name}.tmp"));
    let mut file = sim.open(&tmp, OpenMode::Create).expect("open");
    file.write(&mut sim, &[0xab; 4096]).expect("write");
    // The contents are never synced.
    sim.rename(&tmp, &FilePath::new(DATA, &name)).expect("rename");
    sim.sync_dir(DATA).expect("sync dir");
    sim.ack("1");

    let violations = enumerate(&sim, |case| {
        if case.acked_count() == 0 {
            return Ok(());
        }
        let size = case.file(&name).map_or(0, |b| b.len());
        if size != 4096 {
            return Err(case.fail(&format!("published checkpoint is {size} bytes, not 4096")));
        }
        Ok(())
    });
    assert!(
        !violations.is_empty(),
        "publishing without syncing the contents must be caught"
    );
}
