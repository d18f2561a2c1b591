use rsycle::engine::RecycleEngine;
use rsycle::errors::RsycleError;
use rsycle::resolve::{build_path, path_eq, AbsPath};

fn path_of(name: &str) -> AbsPath {
    build_path(&AbsPath::root(), &name.as_bytes().to_vec())
}

fn spelling(p: &AbsPath) -> String {
    String::from_utf8(p.to_bytes()).unwrap()
}

fn engine() -> RecycleEngine {
    RecycleEngine::new(path_of("/home/user/.rsyclebin"))
}

#[test]
fn recycle_names_entry_after_base_and_time() {
    let mut eng = engine();
    let target = path_of("/home/user/test_file");
    let plan = eng.rsycle(&target, true, 100).unwrap();
    assert_eq!(spelling(&plan.from), "/home/user/test_file");
    assert_eq!(spelling(&plan.to), "/home/user/.rsyclebin/test_file.100");
    assert_eq!(eng.log.records.len(), 1);
}

#[test]
fn recycle_missing_file_fails() {
    let mut eng = engine();
    let target = path_of("/home/user/absent");
    assert_eq!(eng.rsycle(&target, false, 100).unwrap_err(), RsycleError::FileNotFound);
    assert_eq!(eng.log.records.len(), 0);
}

#[test]
fn recycle_same_second_collides() {
    let mut eng = engine();
    let target = path_of("/home/user/test_file");
    eng.rsycle(&target, true, 100).unwrap();
    let again = eng.rsycle(&target, true, 100);
    assert_eq!(again.unwrap_err(), RsycleError::DestinationExists);
    assert_eq!(eng.log.records.len(), 1);
}

#[test]
fn restore_brings_the_entry_back() {
    // recycle then restore: the move goes from the fresh bin entry to
    // the original path
    let mut eng = engine();
    let target = path_of("/home/user/test_file");
    let plan = eng.rsycle(&target, true, 100).unwrap();
    let act = eng.restore(&target, false).unwrap();
    assert_eq!(act.from.to_bytes(), plan.to.to_bytes());
    assert_eq!(act.to.to_bytes(), target.to_bytes());
}

#[test]
fn restore_picks_the_larger_stamp() {
    let mut eng = engine();
    let target = path_of("/home/user/report");
    eng.rsycle(&target, true, 100).unwrap();
    // the first entry is restored-and-recycled again later
    let plan2 = eng.rsycle(&target, true, 200).unwrap();
    assert_eq!(spelling(&plan2.to), "/home/user/.rsyclebin/report.200");
    let act = eng.restore(&target, false).unwrap();
    assert_eq!(spelling(&act.from), "/home/user/.rsyclebin/report.200");
}

#[test]
fn restore_tie_takes_the_later_record() {
    // two records share the stamp but not the entry: the later one wins
    let bin = path_of("/b");
    let rows = vec![
        (b"/a/x".to_vec(), b"/b/q.7".to_vec()),
        (b"/a/x".to_vec(), b"/b/r.7".to_vec()),
    ];
    let eng = RecycleEngine::from_rows(bin, &rows);
    assert_eq!(eng.log.records.len(), 2);
    let act = eng.restore(&path_of("/a/x"), false).unwrap();
    assert_eq!(spelling(&act.from), "/b/r.7");
}

#[test]
fn restore_never_clobbers() {
    let mut eng = engine();
    let target = path_of("/home/user/test_file");
    eng.rsycle(&target, true, 100).unwrap();
    let refused = eng.restore(&target, true);
    assert_eq!(refused.unwrap_err(), RsycleError::DestinationOccupied);
    // the log is untouched: the entry can still be restored later
    assert_eq!(eng.log.records.len(), 1);
    assert!(eng.restore(&target, false).is_ok());
}

#[test]
fn restore_without_a_record_fails() {
    let eng = engine();
    let missing = path_of("/home/user/never_recycled");
    assert_eq!(eng.restore(&missing, false).unwrap_err(), RsycleError::NoSuchRecord);
}

#[test]
fn relative_and_absolute_spellings_make_one_record() {
    // the same file recycled via a relative spelling and via its
    // canonical absolute spelling from elsewhere lands on one log key
    let cwd = path_of("/home/user/work");
    let via_relative = build_path(&cwd, &b"../test_relative_file".to_vec());
    let elsewhere = path_of("/var/tmp");
    let via_absolute = build_path(&elsewhere, &via_relative.to_bytes());
    assert!(path_eq(&via_relative, &via_absolute));

    let mut eng = engine();
    eng.rsycle(&via_relative, true, 50).unwrap();
    let act = eng.restore(&via_absolute, false).unwrap();
    assert_eq!(spelling(&act.to), "/home/user/test_relative_file");
}

#[test]
fn list_reports_every_recycled_file() {
    let mut eng = engine();
    eng.rsycle(&path_of("/home/user/a"), true, 100).unwrap();
    eng.rsycle(&path_of("/home/user/b.txt"), true, 101).unwrap();
    eng.rsycle(&path_of("/etc/config"), true, 102).unwrap();
    let entries = vec![
        b"a.100".to_vec(),
        b"b.txt.101".to_vec(),
        b"config.102".to_vec(),
        // the hidden log file carries no stamp and is skipped
        b".log".to_vec(),
    ];
    let listed = eng.list(&entries).unwrap();
    assert_eq!(listed.len(), 3);
    assert_eq!(spelling(&listed[0].original), "/home/user/a");
    assert_eq!(spelling(&listed[0].current), "/home/user/.rsyclebin/a.100");
    assert_eq!(listed[0].recycled_at, 100);
    assert_eq!(spelling(&listed[1].original), "/home/user/b.txt");
    assert_eq!(listed[1].recycled_at, 101);
    assert_eq!(spelling(&listed[2].original), "/etc/config");
    assert_eq!(listed[2].recycled_at, 102);
}

#[test]
fn list_fails_on_a_stray_stamped_entry() {
    let mut eng = engine();
    eng.rsycle(&path_of("/home/user/a"), true, 100).unwrap();
    let entries = vec![b"a.100".to_vec(), b"ghost.5".to_vec()];
    assert_eq!(eng.list(&entries).unwrap_err(), RsycleError::NoMatchingEntry);
}

#[test]
fn empty_clears_log_and_names_every_entry() {
    let mut eng = engine();
    eng.rsycle(&path_of("/home/user/a"), true, 100).unwrap();
    eng.rsycle(&path_of("/home/user/b"), true, 101).unwrap();
    let entries = vec![b"a.100".to_vec(), b"b.101".to_vec(), b".log".to_vec()];
    let doomed = eng.empty(&entries);
    assert_eq!(doomed.len(), 3);
    assert_eq!(spelling(&doomed[0]), "/home/user/.rsyclebin/a.100");
    assert_eq!(spelling(&doomed[2]), "/home/user/.rsyclebin/.log");
    assert_eq!(eng.log.records.len(), 0);
    // nothing lists, nothing restores
    assert_eq!(eng.list(&Vec::new()).unwrap().len(), 0);
    assert_eq!(
        eng.restore(&path_of("/home/user/a"), false).unwrap_err(),
        RsycleError::NoSuchRecord
    );
}

#[test]
fn log_rows_round_trip_through_csv() {
    // paths holding the delimiter and a quote must survive persistence
    let mut eng = engine();
    let weird = path_of("/home/user/we,ird \"file\"");
    let plain = path_of("/home/user/plain");
    let plan1 = eng.rsycle(&weird, true, 100).unwrap();
    let plan2 = eng.rsycle(&plain, true, 101).unwrap();

    let mut data = Vec::new();
    data.extend_from_slice(&plan1.log_row);
    data.extend_from_slice(&plan2.log_row);

    let reloaded = RecycleEngine::from_log_bytes(path_of("/home/user/.rsyclebin"), &data)
        .expect("a log the engine wrote must read back");
    assert_eq!(reloaded.log.records.len(), 2);
    assert!(path_eq(&reloaded.log.records[0].original, &weird));
    assert!(path_eq(&reloaded.log.records[0].relocated, &plan1.to));
    assert!(path_eq(&reloaded.log.records[1].original, &plain));
    assert!(path_eq(&reloaded.log.records[1].relocated, &plan2.to));
}

#[test]
fn loading_drops_foreign_rows() {
    let bin = path_of("/b");
    let rows = vec![
        // well-formed for this bin
        (b"/a/x".to_vec(), b"/b/x.5".to_vec()),
        // relocated outside the bin
        (b"/a/y".to_vec(), b"/elsewhere/y.5".to_vec()),
        // no stamp on the entry name
        (b"/a/z".to_vec(), b"/b/z".to_vec()),
        // original is the root
        (b"/".to_vec(), b"/b/r.5".to_vec()),
    ];
    let eng = RecycleEngine::from_rows(bin, &rows);
    assert_eq!(eng.log.records.len(), 1);
    assert_eq!(spelling(&eng.log.records[0].original), "/a/x");
}

#[test]
fn find_by_original_keeps_log_order() {
    let mut eng = engine();
    let target = path_of("/home/user/test_file");
    eng.rsycle(&target, true, 100).unwrap();
    eng.rsycle(&target, true, 200).unwrap();
    let found = eng.log.find_by_original(&target);
    assert_eq!(found.len(), 2);
    assert_eq!(spelling(&found[0]), "/home/user/.rsyclebin/test_file.100");
    assert_eq!(spelling(&found[1]), "/home/user/.rsyclebin/test_file.200");
}

#[test]
fn empty_log_bytes_load_to_an_empty_log() {
    // an absent or truncated log file is a readable document of no rows
    let eng = RecycleEngine::from_log_bytes(path_of("/b"), &Vec::new()).unwrap();
    assert_eq!(eng.log.records.len(), 0);
}

#[test]
fn unreadable_log_bytes_are_refused() {
    // an unclosed quote is not a CSV document
    let data = b"\"unclosed".to_vec();
    assert!(RecycleEngine::from_log_bytes(path_of("/b"), &data).is_none());
}
