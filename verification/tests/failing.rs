//! Storage that fails, and what is made of it.

use std::cell::Cell;
use std::rc::Rc;

use rsl::dir::{checkpoint_file_name, log_file_name};
use rsl::durability::{Durability, FilePath, OpenMode};
use rsl::gc::{apply_with, cleanup_with, CleanupPlan, Retention};
use rsl::log::{LogError, LogWriter};
use rsl::messages::{Header, Vote, MSG_VOTE};
use rsl::seqread::SECTOR;
use rsl::seqwrite::{BlockDevice, SeqWriteError, SeqWriter, SeqWriterConfig};
use rsl::sim::{SimCrash, SimError, SimFile, SimReader};
use rsl::types::{BallotNumber, MemberId};
use rsl::version::ProtocolVersion;
use rsl::PAGE_SIZE;

const DIR: &str = "/data";

/// A shadow file system that refuses some calls, and lists what it was asked.
struct Stubborn {
    sim: SimCrash,
    kept: Vec<String>,
    fail_sync_data: Rc<Cell<bool>>,
    fail_sync_dir: bool,
    fail_set_size: bool,
    asked: Vec<String>,
}

impl Stubborn {
    fn new(sim: SimCrash) -> Stubborn {
        Stubborn {
            sim,
            kept: Vec::new(),
            fail_sync_data: Rc::new(Cell::new(false)),
            fail_sync_dir: false,
            fail_set_size: false,
            asked: Vec::new(),
        }
    }
}

impl Durability for Stubborn {
    type File = SimFile;
    type Error = SimError;
    type Reader = SimReader;

    fn open(&mut self, path: &FilePath, mode: OpenMode) -> Result<SimFile, SimError> {
        self.sim.open(path, mode)
    }
    fn file_exists(&self, path: &FilePath) -> bool {
        self.sim.file_exists(path)
    }
    fn read_dir(&self, dir: &str) -> Result<Vec<String>, SimError> {
        self.sim.read_dir(dir)
    }
    fn remove_file(&mut self, path: &FilePath) -> Result<(), SimError> {
        self.asked.push(path.name.clone());
        if self.kept.contains(&path.name) {
            return Err(SimError::TooLarge);
        }
        self.sim.remove_file(path)
    }
    fn reader(&mut self, file: &SimFile) -> Result<SimReader, SimError> {
        self.sim.reader(file)
    }
    fn size(&self, file: &SimFile) -> Result<u64, SimError> {
        self.sim.size(file)
    }
    fn set_size(&mut self, file: &SimFile, len: u64) -> Result<(), SimError> {
        if self.fail_set_size {
            return Err(SimError::TooLarge);
        }
        self.sim.set_size(file, len)
    }
    fn write_at(&mut self, file: &SimFile, offset: u64, bufs: &[&[u8]]) -> Result<(), SimError> {
        self.sim.write_at(file, offset, bufs)
    }
    fn sync_data(&mut self, file: &SimFile) -> Result<(), SimError> {
        self.asked.push("sync_data".to_string());
        if self.fail_sync_data.get() {
            return Err(SimError::TooLarge);
        }
        self.sim.sync_data(file)
    }
    fn sync_file(&mut self, file: &SimFile) -> Result<(), SimError> {
        self.sim.sync_file(file)
    }
    fn rename(&mut self, from: &FilePath, to: &FilePath) -> Result<(), SimError> {
        self.sim.rename(from, to)
    }
    fn sync_dir(&mut self, dir: &str) -> Result<(), SimError> {
        self.asked.push(format!("sync {dir}"));
        if self.fail_sync_dir {
            return Err(SimError::NotFound);
        }
        self.sim.sync_dir(dir)
    }
}

fn touch(sim: &mut SimCrash, name: &str) {
    sim.open(&FilePath::new(DIR, name), OpenMode::Create).unwrap();
}

fn vote_record(decree: u64) -> Vec<u8> {
    Vote::new(Header::new(
        ProtocolVersion::V6,
        MSG_VOTE,
        MemberId::from_str("101"),
        decree,
        7,
        BallotNumber::new(3, MemberId::from_str("202")),
        0,
    ))
    .marshal_with_checksum()
    .unwrap()
}

#[test]
fn cleanup_goes_on_after_a_failure() {
    let mut sim = SimCrash::new();
    for decree in [0u64, 10] {
        touch(&mut sim, &log_file_name(decree));
        touch(&mut sim, &checkpoint_file_name(decree));
    }
    let plan = CleanupPlan {
        checkpoints: vec![0, 10],
        logs: vec![0, 10],
    };
    let mut stubborn = Stubborn::new(sim);
    stubborn.kept = vec!["0.codex".to_string(), "10.log".to_string()];
    stubborn.fail_sync_dir = true;

    let failures = apply_with(DIR, &plan, &mut stubborn);
    assert_eq!(
        stubborn.asked,
        vec!["0.codex", "10.codex", "0.log", "10.log", "sync /data"]
    );
    let blamed: Vec<(String, SimError)> = failures
        .into_iter()
        .map(|f| (f.path.name, f.error))
        .collect();
    assert_eq!(
        blamed,
        vec![
            ("0.codex".to_string(), SimError::TooLarge),
            ("10.log".to_string(), SimError::TooLarge),
            (String::new(), SimError::NotFound),
        ]
    );
    let mut left = stubborn.sim.read_dir(DIR).unwrap();
    left.sort();
    assert_eq!(left, vec!["0.codex", "10.log"]);
}

#[test]
fn an_empty_plan_asks_for_nothing() {
    let mut stubborn = Stubborn::new(SimCrash::new());
    stubborn.fail_sync_dir = true;
    assert!(apply_with(DIR, &CleanupPlan::default(), &mut stubborn).is_empty());
    assert!(stubborn.asked.is_empty());
}

#[test]
fn a_whole_cleanup_goes_on_after_a_failure() {
    let mut sim = SimCrash::new();
    for decree in [0u64, 10, 20] {
        touch(&mut sim, &checkpoint_file_name(decree));
    }
    let mut stubborn = Stubborn::new(sim);
    stubborn.kept = vec!["0.codex".to_string()];
    let retention = Retention {
        max_checkpoints: 1,
        max_logs: 1,
    };
    let failures = cleanup_with(DIR, retention, &mut stubborn).unwrap();
    assert_eq!(stubborn.asked, vec!["0.codex", "10.codex", "sync /data"]);
    assert_eq!(failures.len(), 1);
    assert_eq!(failures[0].path, FilePath::new(DIR, "0.codex"));
}

#[test]
fn a_sync_with_nothing_to_sync_cannot_fail() {
    let stubborn = Stubborn::new(SimCrash::new());
    let fail = Rc::clone(&stubborn.fail_sync_data);
    let mut writer = match LogWriter::open_with(DIR, 0, stubborn) {
        Ok(writer) => writer,
        Err((e, _)) => panic!("{e:?}"),
    };
    writer.append_unsynced(&[&vote_record(0)]).unwrap();
    writer.sync().unwrap();
    let asked = writer.durability().asked.len();

    fail.set(true);
    assert!(writer.sync().is_ok());
    assert!(writer.append_batch(&[]).is_ok());
    assert!(writer.sync().is_ok());
    assert_eq!(writer.durability().asked.len(), asked);

    writer.append_unsynced(&[&vote_record(1)]).unwrap();
    // An empty batch costs no flush either, whatever is not safe yet.
    let end = writer.data_len();
    assert_eq!(writer.append_batch(&[]).unwrap(), end);
    assert_eq!(writer.durability().asked.len(), asked);
    assert!(writer.durable_len() < end);
    assert_eq!(writer.sync(), Err(SimError::TooLarge));
    assert!(matches!(
        writer.append_durable(&[]),
        Err(LogError::Io(SimError::TooLarge))
    ));
    fail.set(false);
    assert_eq!(writer.append_durable(&[]).unwrap(), end);
    assert_eq!(writer.durable_len(), end);
}

#[test]
fn an_open_that_fails_hands_the_storage_back() {
    let mut sim = SimCrash::new();
    let file = sim.open(&FilePath::new(DIR, "0.log"), OpenMode::Create).unwrap();
    let mut torn = vote_record(0);
    torn.resize(2 * PAGE_SIZE as usize, 0);
    sim.write_at(&file, 0, &[&torn]).unwrap();
    let mut stubborn = Stubborn::new(sim);
    stubborn.fail_set_size = true;
    match LogWriter::open_with(DIR, 0, stubborn) {
        Err((LogError::Io(e), stubborn)) => {
            assert_eq!(e, SimError::TooLarge);
            assert_eq!(stubborn.sim.size(&file).unwrap(), torn.len() as u64);
        }
        Err((e, _)) => panic!("{e:?}"),
        Ok(_) => panic!("the tail was cut"),
    }
}

/// A device whose blocks cannot be written.
struct BadDisk {
    tries: usize,
}

impl BlockDevice for BadDisk {
    type Error = &'static str;

    fn tune(&self, config: SeqWriterConfig) -> SeqWriterConfig {
        config
    }
    fn create(&mut self, _path: &FilePath) -> Result<(), &'static str> {
        Ok(())
    }
    fn write_block_at(&mut self, _data: &[u8], _offset: u64) -> Result<(), &'static str> {
        self.tries += 1;
        Err("bad block")
    }
    fn set_len_durable(&mut self, _len: u64) -> Result<(), &'static str> {
        Ok(())
    }
}

#[test]
fn one_failed_block_poisons_the_writer_for_good() {
    let config = SeqWriterConfig {
        threads: 1,
        slots: 2,
        block: SECTOR,
    };
    let path = FilePath::new(DIR, "a.bin");
    let mut w = match SeqWriter::create_on(BadDisk { tries: 0 }, &path, config) {
        Ok(w) => w,
        Err((e, _)) => panic!("{e:?}"),
    };
    w.write(&vec![1u8; SECTOR]).unwrap();
    assert!(matches!(w.write(b"x"), Err(SeqWriteError::Io("bad block"))));
    for _ in 0..3 {
        assert!(matches!(w.write(b""), Err(SeqWriteError::Poisoned)));
        assert!(matches!(w.write(b"x"), Err(SeqWriteError::Poisoned)));
        assert!(matches!(w.available(), Err(SeqWriteError::Poisoned)));
        assert!(matches!(w.commit(b""), Err(SeqWriteError::Poisoned)));
        assert!(matches!(w.flush(), Err(SeqWriteError::Poisoned)));
    }
    assert!(w.finish().is_err());
}
