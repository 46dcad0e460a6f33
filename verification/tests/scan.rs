use socketsweep::arena::Arena;
use socketsweep::protocol::{EntryKind, ScanStats};
use socketsweep::scan::{Child, ScanConfig, Tally};

fn name(s: &str) -> Vec<u8> {
    s.as_bytes().to_vec()
}

#[test]
fn a_config_walks_with_default_threads_and_a_depth_guard() {
    let c = ScanConfig::new(b"/sdcard".to_vec());
    assert_eq!(c.root, b"/sdcard".to_vec());
    assert_eq!(c.threads, 0);
    assert_eq!(c.max_depth, 64);
}

#[test]
fn a_fresh_tally_counts_the_root_as_a_directory() {
    let t = Tally::new();
    assert_eq!((t.files, t.dirs, t.total_size, t.errors), (0, 1, 0, 0));
}

#[test]
fn a_read_lists_directories_with_no_size_and_files_with_theirs() {
    let mut t = Tally::new();
    let entries = t.read_dir(&vec![
        Child::Dir { name: name("DCIM") },
        Child::File { name: name("a.jpg"), size: Some(1234) },
    ]);
    assert_eq!(entries.len(), 2);
    assert_eq!(entries[0].name, name("DCIM"));
    assert_eq!(entries[0].size, 0);
    assert_eq!(entries[0].kind, EntryKind::Dir);
    assert_eq!(entries[1].name, name("a.jpg"));
    assert_eq!(entries[1].size, 1234);
    assert_eq!(entries[1].kind, EntryKind::File);
    assert_eq!((t.files, t.dirs, t.total_size, t.errors), (1, 2, 1234, 0));
}

#[test]
fn symlinks_are_skipped_and_unreadable_entries_counted_as_errors() {
    let mut t = Tally::new();
    let entries = t.read_dir(&vec![
        Child::Symlink { name: name("escape") },
        Child::Unreadable,
        Child::File { name: name("locked"), size: None },
        Child::File { name: name(".hidden"), size: Some(7) },
    ]);
    let names: Vec<Vec<u8>> = entries.iter().map(|e| e.name.clone()).collect();
    assert_eq!(names, vec![name("locked"), name(".hidden")]);
    assert_eq!(entries[0].size, 0, "a file whose size cannot be read counts as empty");
    assert_eq!((t.files, t.dirs, t.total_size, t.errors), (2, 1, 7, 2));
}

#[test]
fn an_empty_directory_still_has_a_frame() {
    let mut t = Tally::new();
    assert!(t.read_dir(&vec![]).is_empty());
    assert_eq!(t.dirs, 1);
}

#[test]
fn counters_accumulate_across_directories_and_wrap_like_the_atomics() {
    let mut t = Tally::new();
    t.read_dir(&vec![Child::File { name: name("a"), size: Some(u64::MAX) }]);
    t.read_dir(&vec![Child::File { name: name("b"), size: Some(2) }]);
    assert_eq!(t.total_size, 1);
    assert_eq!(t.files, 2);
    t.walk_error();
    assert_eq!(t.errors, 1);
}

#[test]
fn a_finished_walk_reports_its_counters() {
    let mut t = Tally::new();
    t.read_dir(&vec![Child::Dir { name: name("x") }, Child::File { name: name("y"), size: Some(5) }]);
    assert_eq!(
        t.stats(42),
        ScanStats { files: 1, dirs: 2, total_size: 5, errors: 0, elapsed_ms: 42 }
    );
}

#[test]
fn the_daemon_counters_and_the_host_totals_agree() {
    let mut t = Tally::new();
    let mut a = Arena::new(b"/r");
    let root = t.read_dir(&vec![
        Child::Dir { name: name("d") },
        Child::File { name: name("x"), size: Some(10) },
        Child::Symlink { name: name("l") },
        Child::Unreadable,
    ]);
    a.apply_dir(b"/r", &root).unwrap();
    let sub = t.read_dir(&vec![Child::File { name: name("y"), size: Some(32) }, Child::File { name: name("z"), size: None }]);
    a.apply_dir(b"/r/d", &sub).unwrap();

    let s = a.stats();
    assert_eq!(s.size as u64, t.total_size);
    assert_eq!(s.files as u64, t.files);
    assert_eq!(s.dirs as u64, t.dirs);
    assert_eq!((t.files, t.dirs, t.total_size, t.errors), (3, 2, 42, 2));
}

#[test]
fn the_order_directories_are_tallied_in_does_not_matter() {
    let one = vec![Child::File { name: name("a"), size: Some(u64::MAX - 1) }, Child::Unreadable];
    let two = vec![Child::Dir { name: name("d") }, Child::File { name: name("b"), size: Some(5) }];
    let mut x = Tally::new();
    x.read_dir(&one);
    x.read_dir(&two);
    let mut y = Tally::new();
    y.read_dir(&two);
    y.read_dir(&one);
    assert_eq!((x.files, x.dirs, x.total_size, x.errors), (y.files, y.dirs, y.total_size, y.errors));
}
