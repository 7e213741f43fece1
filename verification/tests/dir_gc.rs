//! The data directory and what may be deleted from it.

use rsl::dir::{
    checkpoint_file_name, decode_defunct, encode_defunct, log_file_name, parse_numbered_name,
    read_defunct_with, write_defunct_with, DataDir, DirError, ParsedName, CHECKPOINT_EXT,
    DEFUNCT_FILE, LOG_EXT,
};
use rsl::durability::{Durability, FilePath, OpenMode};
use rsl::gc::{apply_with, cleanup_with, plan, CleanupPlan, Retention};
use rsl::sim::{CrashPolicy, SimCrash};

const DIR: &str = "/data";

fn put(sim: &mut SimCrash, name: &str, bytes: &[u8]) {
    let mut file = sim.open(&FilePath::new(DIR, name), OpenMode::Create).unwrap();
    file.write(sim, bytes).unwrap();
}

fn touch(sim: &mut SimCrash, name: &str) {
    put(sim, name, b"");
}

fn live(sim: &SimCrash, name: &str) -> Option<Vec<u8>> {
    let path = FilePath::new(DIR, name);
    sim.image(sim.len(), CrashPolicy::Everything)
        .into_iter()
        .find(|(p, _)| *p == path)
        .map(|(_, b)| b)
}

#[test]
fn names_round_trip_through_the_cpp_format() {
    assert_eq!(log_file_name(0), "0.log");
    assert_eq!(log_file_name(1234), "1234.log");
    assert_eq!(checkpoint_file_name(u64::MAX), "18446744073709551615.codex");

    assert_eq!(
        parse_numbered_name("0.log", LOG_EXT),
        Some(ParsedName::Decree(0))
    );
    assert_eq!(
        parse_numbered_name("42.codex", CHECKPOINT_EXT),
        Some(ParsedName::Decree(42))
    );
    assert_eq!(
        parse_numbered_name("42abc.log", LOG_EXT),
        Some(ParsedName::Decree(42))
    );
    assert_eq!(parse_numbered_name("42.codex", LOG_EXT), None);
    assert_eq!(parse_numbered_name("defunct.txt", LOG_EXT), None);
    assert_eq!(
        parse_numbered_name("foo.log", LOG_EXT),
        Some(ParsedName::Unparsable)
    );
    assert_eq!(parse_numbered_name(".hidden.log", LOG_EXT), None);
}

#[test]
fn names_of_all_sizes_are_read_back() {
    for decree in [0, 7, 10, 999, 1 << 40, u64::MAX] {
        assert_eq!(
            parse_numbered_name(&log_file_name(decree), LOG_EXT),
            Some(ParsedName::Decree(decree))
        );
        assert_eq!(
            parse_numbered_name(&checkpoint_file_name(decree), CHECKPOINT_EXT),
            Some(ParsedName::Decree(decree))
        );
    }
}

#[test]
fn the_directory_scan_orders_by_decree() {
    let mut sim = SimCrash::new();
    for name in ["10.log", "2.log", "100.log", "0.log"] {
        touch(&mut sim, name);
    }
    for name in ["9.codex", "1000.codex"] {
        touch(&mut sim, name);
    }
    touch(&mut sim, "defunct.txt");
    touch(&mut sim, "notes.md");

    let listing = DataDir::scan_with(DIR, &sim).expect("scan");
    assert_eq!(listing.logs, vec![0, 2, 10, 100]);
    assert_eq!(listing.checkpoints, vec![9, 1000]);
    assert_eq!(listing.newest_checkpoint(), Some(1000));
    assert_eq!(listing.log_holding(50), Some(10));
    assert_eq!(listing.log_holding(0), Some(0));
    assert_eq!(listing.log_path(10), FilePath::new(DIR, "10.log"));
    assert_eq!(listing.checkpoint_path(9), FilePath::new(DIR, "9.codex"));

    touch(&mut sim, "stray.log");
    match DataDir::scan_with(DIR, &sim) {
        Err(DirError::UnparsableName(name)) => assert_eq!(name, "stray.log"),
        other => panic!("expected an unparsable-name error, got {other:?}"),
    }
    let error: DirError<()> = DirError::UnparsableName("stray.log".to_string());
    assert_eq!(
        error.message(""),
        "'stray.log' does not start with a decree number"
    );
    let error = DirError::Io(());
    assert_eq!(error.message("gone"), "data directory I/O error: gone");
}

#[test]
fn no_log_holds_what_comes_before_them_all() {
    let names = vec!["5.log".to_string(), "9.log".to_string()];
    let listing = DataDir::from_names(DIR, &names).unwrap();
    assert_eq!(listing.log_holding(4), None);
    assert_eq!(listing.log_holding(8), Some(5));
    assert_eq!(listing.log_holding(u64::MAX), Some(9));
    assert_eq!(listing.newest_checkpoint(), None);
}

#[test]
fn defunct_round_trips_and_matches_the_corpus() {
    let mut sim = SimCrash::new();
    assert_eq!(read_defunct_with(DIR, &mut sim).unwrap(), None);
    for value in [0u32, 42, 0xdead_beef, u32::MAX] {
        write_defunct_with(DIR, value, &mut sim).unwrap();
        assert_eq!(read_defunct_with(DIR, &mut sim).unwrap(), Some(value));
        assert_eq!(live(&sim, DEFUNCT_FILE).unwrap().len(), 4);
    }

    put(&mut sim, "defunct.txt", &[1u8, 2, 3]);
    assert_eq!(read_defunct_with(DIR, &mut sim).unwrap(), None);

    let mut padded = vec![0u8; 512];
    padded[..4].copy_from_slice(&7u32.to_le_bytes());
    put(&mut sim, "defunct.txt", &padded);
    assert_eq!(read_defunct_with(DIR, &mut sim).unwrap(), Some(7));

    for (bytes, value) in [
        ([0u8, 0, 0, 0], 0u32),
        ([42, 0, 0, 0], 42),
        ([0xef, 0xbe, 0xad, 0xde], 0xdead_beef),
    ] {
        assert_eq!(encode_defunct(value), bytes);
        assert_eq!(decode_defunct(&bytes), Some(value));
    }
}

fn listing(logs: &[u64], checkpoints: &[u64]) -> DataDir {
    DataDir {
        path: DIR.to_string(),
        logs: logs.to_vec(),
        checkpoints: checkpoints.to_vec(),
    }
}

#[test]
fn listings_and_plans_can_be_copied() {
    let listing = listing(&[1, 2], &[3]);
    assert_eq!(listing.clone(), listing);
    let mut elsewhere = listing.clone();
    elsewhere.path.push('/');
    assert_eq!(elsewhere, listing);
    elsewhere.path.push('x');
    assert_ne!(elsewhere, listing);
    let empty = DataDir::default();
    assert!(empty.path.is_empty() && empty.logs.is_empty() && empty.checkpoints.is_empty());
    let plan = plan(&listing, keep(1, 1));
    assert_eq!(plan.clone(), plan);
}

#[test]
fn files_that_stand_for_one_decree_are_all_listed() {
    let mut sim = SimCrash::new();
    touch(&mut sim, "12.log");
    touch(&mut sim, "12garbage.log");
    touch(&mut sim, "7.log");
    let listing = DataDir::scan_with(DIR, &sim).expect("scan");
    assert_eq!(listing.logs, vec![7, 12, 12]);
    let mut names = sim.read_dir(DIR).unwrap();
    names.sort();
    assert_eq!(names, vec!["12.log", "12garbage.log", "7.log"]);
}

fn keep(max_checkpoints: u32, max_logs: u32) -> Retention {
    Retention {
        max_checkpoints,
        max_logs,
    }
}

#[test]
fn keeps_the_newest_checkpoints() {
    let dir = listing(&[], &[10, 20, 30, 40]);
    let plan = plan(&dir, keep(2, 10));
    assert_eq!(plan.checkpoints, vec![10, 20]);
}

#[test]
fn no_checkpoint_means_no_log_is_deletable() {
    let dir = listing(&[0, 10, 20, 30, 40, 50], &[]);
    let plan = plan(&dir, keep(2, 1));
    assert!(plan.logs.is_empty());
}

#[test]
fn deletes_only_logs_covered_by_the_oldest_checkpoint() {
    let dir = listing(&[0, 10, 20, 30], &[14, 25]);
    let plan = plan(&dir, keep(2, 1));
    assert_eq!(plan.logs, vec![0]);
}

#[test]
fn keeps_max_logs_even_when_all_are_covered() {
    let dir = listing(&[0, 10, 20, 30], &[99]);
    let plan = plan(&dir, keep(2, 2));
    assert_eq!(plan.logs, vec![0, 10]);
}

#[test]
fn the_newest_log_is_never_deleted() {
    let dir = listing(&[0], &[99]);
    let plan = plan(&dir, keep(2, 1));
    assert!(plan.logs.is_empty());
}

#[test]
fn zero_keeps_everything() {
    let dir = listing(&[0, 10, 20], &[15, 25, 35]);
    let plan = plan(&dir, keep(0, 0));
    assert!(plan.is_empty());
    assert_eq!(plan, CleanupPlan::default());
    let usual = Retention::default();
    assert_eq!((usual.max_checkpoints, usual.max_logs), (2, 10));
}

#[test]
fn cleanup_deletes_exactly_the_planned_files() {
    let mut sim = SimCrash::new();
    for decree in [0u64, 10, 20, 30] {
        touch(&mut sim, &log_file_name(decree));
    }
    for decree in [15u64, 25] {
        touch(&mut sim, &checkpoint_file_name(decree));
    }

    let retention = keep(1, 2);
    let listing = DataDir::scan_with(DIR, &sim).expect("scan");
    let doomed = plan(&listing, retention);
    assert_eq!(doomed.checkpoints, vec![15]);
    assert_eq!(doomed.logs, vec![0]);

    let failures = apply_with(DIR, &doomed, &mut sim);
    assert!(failures.is_empty(), "{failures:?}");

    let after = DataDir::scan_with(DIR, &sim).expect("rescan");
    assert_eq!(after.logs, vec![10, 20, 30]);
    assert_eq!(after.checkpoints, vec![25]);
    assert!(after.logs[0] <= after.checkpoints[0] + 1);

    let failures = cleanup_with(DIR, retention, &mut sim).expect("second pass");
    assert!(failures.is_empty(), "{failures:?}");
    let after = DataDir::scan_with(DIR, &sim).expect("rescan");
    assert_eq!(after.logs, vec![20, 30]);

    let doomed = plan(&after, retention);
    assert!(doomed.is_empty(), "the pass should have converged: {doomed:?}");
}

#[test]
fn cleanup_keeps_every_log_when_there_is_no_checkpoint() {
    let mut sim = SimCrash::new();
    for decree in [0u64, 10, 20] {
        touch(&mut sim, &log_file_name(decree));
    }
    let failures = cleanup_with(DIR, keep(1, 1), &mut sim).expect("cleanup");
    assert!(failures.is_empty());
    let after = DataDir::scan_with(DIR, &sim).expect("rescan");
    assert_eq!(after.logs, vec![0, 10, 20]);
}

#[test]
fn cleanup_never_drops_a_log_the_newest_checkpoint_needs() {
    let mut sim = SimCrash::new();
    touch(&mut sim, &log_file_name(0));
    touch(&mut sim, &log_file_name(100));
    touch(&mut sim, &checkpoint_file_name(5));
    let failures = cleanup_with(DIR, keep(1, 1), &mut sim).expect("cleanup");
    assert!(failures.is_empty());
    let after = DataDir::scan_with(DIR, &sim).expect("rescan");
    assert_eq!(after.logs, vec![0, 100]);
}
