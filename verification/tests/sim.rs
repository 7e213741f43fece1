//! The shadow file system and what a crash leaves of it.

use rsl::durability::{Durability, FilePath, OpenMode};
use rsl::sim::{replay, CrashPolicy, Op, SeekTo, SimCrash, SimError, POLICIES};
use rsl::source::Source;
use rsl::PAGE_SIZE;

const SECTOR: usize = PAGE_SIZE as usize;

fn path(name: &str) -> FilePath {
    FilePath::new("/data", name)
}

fn find<'a>(files: &'a [(FilePath, Vec<u8>)], path: &FilePath) -> Option<&'a [u8]> {
    files.iter().find(|(p, _)| p == path).map(|(_, b)| &b[..])
}

#[test]
fn a_file_without_a_dir_fsync_can_vanish() {
    let mut sim = SimCrash::new();
    let mut file = sim.open(&path("1.log"), OpenMode::Append).unwrap();
    file.write(&mut sim, b"hello").unwrap();
    sim.sync_data(&file).unwrap();

    let end = sim.len();
    assert!(replay(&sim.journal()[..end], CrashPolicy::NoDirOps).is_empty());
    sim.sync_dir("/data").unwrap();
    let survivors = replay(sim.journal(), CrashPolicy::NoDirOps);
    assert_eq!(survivors.len(), 1);
    assert_eq!(survivors[0].1, b"hello");
}

#[test]
fn only_the_unsynced_tail_is_at_risk() {
    let mut sim = SimCrash::new();
    let mut file = sim.open(&path("1.log"), OpenMode::Append).unwrap();
    file.write(&mut sim, &[1u8; SECTOR]).unwrap();
    sim.sync_data(&file).unwrap();
    sim.sync_dir("/data").unwrap();
    file.write(&mut sim, &[2u8; 4 * SECTOR]).unwrap();

    for policy in POLICIES {
        let survivors = replay(sim.journal(), policy);
        assert_eq!(survivors.len(), 1, "{}", policy.name());
        let bytes = &survivors[0].1;
        assert!(bytes.len() >= SECTOR, "{}: lost synced data", policy.name());
        assert!(
            bytes[..SECTOR].iter().all(|&b| b == 1),
            "{}: corrupted synced data",
            policy.name()
        );
    }
}

#[test]
fn tears_and_holes_land_on_sector_boundaries() {
    let mut sim = SimCrash::new();
    let mut file = sim.open(&path("1.log"), OpenMode::Append).unwrap();
    sim.sync_dir("/data").unwrap();
    file.write(&mut sim, &vec![7u8; 4 * SECTOR]).unwrap();

    let torn = replay(sim.journal(), CrashPolicy::TornTail);
    assert_eq!(torn[0].1.len() % SECTOR, 0);
    assert!(torn[0].1.len() < 4 * SECTOR);

    let holey = replay(sim.journal(), CrashPolicy::HoleyTail);
    assert_eq!(holey[0].1.len(), 4 * SECTOR);
    assert!(holey[0].1[..SECTOR].iter().all(|&b| b == 7));
    assert!(holey[0].1[SECTOR..2 * SECTOR].iter().all(|&b| b == 0));
    assert!(holey[0].1[2 * SECTOR..3 * SECTOR].iter().all(|&b| b == 7));
}

fn in_flight(p: &FilePath, offset: u64, data: Vec<u8>) -> Op {
    Op::Write {
        path: p.clone(),
        offset,
        data,
    }
}

#[test]
fn the_last_write_is_at_risk_even_with_a_cut_behind_it() {
    let p = path("1.log");
    let start = || {
        vec![
            Op::Create { path: p.clone() },
            Op::SyncDir {
                dir: "/data".to_string(),
            },
        ]
    };
    let cut = || Op::Truncate {
        path: p.clone(),
        len: 512,
    };

    let mut ops = start();
    ops.push(in_flight(&p, 0, vec![7u8; SECTOR]));
    ops.push(cut());
    let files = replay(&ops, CrashPolicy::ReorderedTail);
    assert_eq!(files, vec![(p.clone(), vec![7u8; SECTOR])]);
    // One sector cannot be torn in two.
    let files = replay(&ops, CrashPolicy::HoleyTail);
    assert_eq!(files, vec![(p.clone(), vec![7u8; SECTOR])]);

    let mut ops = start();
    ops.push(in_flight(&p, 0, vec![1u8; 2 * SECTOR]));
    ops.push(in_flight(&p, 0, vec![2u8; 2 * SECTOR]));
    ops.push(cut());
    // Only the last write landed, and was then cut.
    let files = replay(&ops, CrashPolicy::ReorderedTail);
    assert_eq!(files, vec![(p.clone(), vec![2u8; SECTOR])]);
}

#[test]
fn a_lost_sector_reads_as_zeros() {
    let mut sim = SimCrash::new();
    let file = sim.open(&path("1.log"), OpenMode::Create).unwrap();
    sim.write_at(&file, 0, &[&[1u8; 2 * SECTOR]]).unwrap();
    sim.sync_data(&file).unwrap();
    sim.sync_dir("/data").unwrap();
    sim.write_at(&file, 0, &[&[2u8; 2 * SECTOR]]).unwrap();

    let holey = replay(sim.journal(), CrashPolicy::HoleyTail);
    let mut expected = vec![2u8; SECTOR];
    expected.extend(vec![0u8; SECTOR]);
    assert_eq!(holey[0].1, expected);
}

#[test]
fn a_synced_file_is_exact_whatever_else_goes_on() {
    let mut sim = SimCrash::new();
    let p = path("1.log");
    let file = sim.open(&p, OpenMode::Create).unwrap();
    sim.write_at(&file, 0, &[&[1u8; 700]]).unwrap();
    sim.set_size(&file, 600).unwrap();
    sim.sync_data(&file).unwrap();
    sim.sync_dir("/data").unwrap();
    let from = sim.len();

    let other = FilePath::new("/other", "x");
    let x = sim.open(&other, OpenMode::Create).unwrap();
    sim.write_at(&x, 0, &[&[9u8; 3000]]).unwrap();
    sim.rename(&other, &FilePath::new("/other", "y")).unwrap();
    sim.sync_dir("/other").unwrap();
    sim.open(&path("2.log"), OpenMode::Create).unwrap();
    for k in from..=sim.len() {
        for policy in POLICIES {
            let files = replay(&sim.journal()[..k], policy);
            assert_eq!(find(&files, &p), Some(&[1u8; 600][..]), "{}", policy.name());
        }
    }
}

#[test]
fn what_is_synced_survives_whatever_comes_between() {
    let p = path("p");
    let q = FilePath::new("/other", "q");
    let mut ops = vec![
        Op::Create { path: q.clone() },
        Op::Create { path: p.clone() },
        in_flight(&p, 0, vec![1u8; 700]),
        in_flight(&q, 0, vec![9u8; 100]),
        Op::Rename {
            from: q.clone(),
            to: path("moved"),
        },
        Op::SyncDir {
            dir: "/data/".to_string(),
        },
        Op::Truncate {
            path: p.clone(),
            len: 600,
        },
        in_flight(&p, 650, vec![2u8; 10]),
        Op::SyncFile { path: p.clone() },
        in_flight(&path("moved"), 50, vec![8u8; 4000]),
    ];
    let mut expected = vec![1u8; 600];
    expected.extend(vec![0u8; 50]);
    expected.extend(vec![2u8; 10]);
    for policy in POLICIES {
        let files = replay(&ops, policy);
        assert_eq!(find(&files, &p), Some(&expected[..]), "{}", policy.name());
        assert_eq!(files.iter().filter(|(f, _)| *f == p).count(), 1);
    }
    // A write behind the sync is at risk again.
    ops.push(in_flight(&p, 0, vec![3u8; 1]));
    let files = replay(&ops, CrashPolicy::Everything);
    assert_eq!(find(&files, &p).unwrap()[0], 3);
}

#[test]
fn paths_are_told_apart_by_their_components() {
    let same = |a: &str, b: &str| FilePath::new(a, "x") == FilePath::new(b, "x");
    assert!(same("/d", "/d/"));
    assert!(same("//d", "/d"));
    assert!(same("/d/./e", "/d//e/."));
    assert!(same("./d", "./d/"));
    assert!(!same("./d", "d"));
    assert!(!same("/d", "d"));
    assert!(!same("/d/../e", "/e"));
    assert!(!same("", "."));
    assert!(FilePath::new("/d", "x") != FilePath::new("/d", "y"));

    let mut sim = SimCrash::new();
    let file = sim.open(&FilePath::new("/d/", "x"), OpenMode::Create).unwrap();
    sim.write_at(&file, 0, &[b"abc"]).unwrap();
    assert!(sim.file_exists(&FilePath::new("/d", "x")));
    assert_eq!(sim.read_dir("/d").unwrap(), vec!["x".to_string()]);
    sim.sync_data(&file).unwrap();
    sim.sync_dir("/d").unwrap();
    let files = sim.image(sim.len(), CrashPolicy::Nothing);
    assert_eq!(files, vec![(FilePath::new("/d", "x"), b"abc".to_vec())]);
    assert_eq!(
        Op::SyncDir { dir: "/d/".to_string() },
        Op::SyncDir { dir: "/d".to_string() }
    );
    assert_eq!(sim.describe(sim.len()), "after op 4 (fsync dir /d)");

    let bare = FilePath::new("", "x");
    sim.open(&bare, OpenMode::Create).unwrap();
    assert_eq!(sim.read_dir(".").unwrap(), vec!["x".to_string()]);
    assert_eq!(sim.read_dir("./").unwrap(), vec!["x".to_string()]);
}

#[test]
fn a_crash_lists_files_by_the_components_of_their_paths() {
    let order = [
        ("/a/b", "x"),
        ("/a", "z"),
        ("/a-b", "a"),
        (".", "a"),
        ("..", "a"),
        ("", "a"),
        ("a", "a"),
        ("a\u{e9}", "a"),
    ];
    let ops: Vec<Op> = order
        .iter()
        .rev()
        .map(|(dir, name)| Op::Create {
            path: FilePath::new(dir, name),
        })
        .collect();
    let files = replay(&ops, CrashPolicy::Everything);
    let found: Vec<(&str, &str)> = files
        .iter()
        .map(|(p, _)| (p.dir.as_str(), p.name.as_str()))
        .collect();
    assert_eq!(found, order);
}

#[test]
fn a_rename_is_all_or_nothing() {
    let mut sim = SimCrash::new();
    let old = path("1.codex");
    let tmp = path("2.codex.tmp");
    let new = path("2.codex");

    let mut first = sim.open(&old, OpenMode::Create).unwrap();
    first.write(&mut sim, b"old").unwrap();
    sim.sync_file(&first).unwrap();
    sim.sync_dir("/data").unwrap();

    let mut second = sim.open(&tmp, OpenMode::Create).unwrap();
    second.write(&mut sim, b"new").unwrap();
    sim.rename_durable(&second, &tmp, &new).unwrap();

    for k in 0..=sim.len() {
        for policy in POLICIES {
            let survivors = replay(&sim.journal()[..k], policy);
            if let Some(bytes) = find(&survivors, &new) {
                assert_eq!(bytes, b"new", "hybrid checkpoint at k={k} {}", policy.name());
            }
            if find(&survivors, &new).is_none() && k >= 4 {
                assert_eq!(find(&survivors, &old), Some(&b"old"[..]));
            }
        }
    }
}

#[test]
fn a_lucky_crash_loses_nothing() {
    let mut sim = SimCrash::new();
    let mut file = sim.open(&path("a"), OpenMode::Create).unwrap();
    file.write(&mut sim, b"one").unwrap();
    sim.rename(&path("a"), &path("b")).unwrap();
    let files = sim.image(sim.len(), CrashPolicy::Everything);
    assert_eq!(files.len(), 1);
    assert_eq!(find(&files, &path("b")), Some(&b"one"[..]));
}

#[test]
fn the_process_sees_its_own_writes() {
    let mut sim = SimCrash::new();
    let p = path("a");
    assert!(!sim.file_exists(&p));
    assert!(matches!(sim.open(&p, OpenMode::Read), Err(SimError::NotFound)));
    assert!(sim.is_empty());

    let mut file = sim.open(&p, OpenMode::Create).unwrap();
    file.write(&mut sim, b"abcdef").unwrap();
    assert_eq!(file.seek(&sim, SeekTo::Start(2)).unwrap(), 2);
    file.write(&mut sim, b"XY").unwrap();
    assert_eq!(file.seek(&sim, SeekTo::Start(0)).unwrap(), 0);
    assert_eq!(file.read(&sim, 4).unwrap(), b"abXY");
    assert_eq!(file.read(&sim, 4).unwrap(), b"ef");
    assert_eq!(file.read(&sim, 4).unwrap(), b"");
    assert_eq!(sim.size(&file).unwrap(), 6);

    // Writing behind the end fills the gap with zeros.
    sim.write_at(&file, 8, &[b"!", b"", b"?"]).unwrap();
    let mut reader = sim.reader(&file).unwrap();
    assert_eq!(reader.read(100).unwrap(), b"abXYef\0\0!?");
    sim.set_size(&file, 3).unwrap();
    assert_eq!(sim.reader(&file).unwrap().read(100).unwrap(), b"abX");

    assert_eq!(sim.read_dir("/data").unwrap(), vec!["a".to_string()]);
    sim.remove_file(&p).unwrap();
    assert!(!sim.file_exists(&p));
    sim.remove_file(&p).unwrap();
    assert!(matches!(sim.rename(&p, &path("b")), Err(SimError::NotFound)));
}

#[test]
fn acknowledgements_are_found_by_crash_point() {
    let mut sim = SimCrash::new();
    sim.ack("first");
    let mut file = sim.open(&path("a"), OpenMode::Create).unwrap();
    file.write(&mut sim, b"x").unwrap();
    sim.ack("second");
    sim.sync_data(&file).unwrap();
    assert_eq!(sim.acks_before(0), Vec::<String>::new());
    assert_eq!(sim.acks_before(1), vec!["first".to_string()]);
    assert_eq!(
        sim.acks_before(sim.len()),
        vec!["first".to_string(), "second".to_string()]
    );
    assert!(matches!(sim.journal()[0], Op::Ack { .. }));
    assert!(!sim.describe(0).is_empty());
    assert_ne!(sim.describe(0), sim.describe(2));
}

#[test]
fn policies_have_names_of_their_own() {
    for (i, a) in POLICIES.iter().enumerate() {
        for b in &POLICIES[..i] {
            assert_ne!(a.name(), b.name());
        }
    }
    assert!(!CrashPolicy::NoDirOps.keeps_dir_ops());
    assert!(CrashPolicy::Everything.keeps_dir_ops());
}
