use socketsweep::arena::{ArenaError, ROOT};
use socketsweep::history::ScanRecord;
use socketsweep::host::{confirm_delete, delete_target, Connected, ScanFold, DEFAULT_VIEW_LIMIT};
use socketsweep::protocol::{Entry, EntryKind, Frame, ScanStats};

fn file_entry(name: &str, size: u64) -> Entry {
    Entry { name: name.as_bytes().to_vec(), size, kind: EntryKind::File }
}

fn dir_entry(name: &str) -> Entry {
    Entry { name: name.as_bytes().to_vec(), size: 0, kind: EntryKind::Dir }
}

fn dir_frame(path: &str, entries: Vec<Entry>) -> Frame {
    Frame::Dir { path: path.as_bytes().to_vec(), entries }
}

fn scanned() -> ScanFold {
    let mut f = ScanFold::new(b"/sdcard");
    for frame in [
        dir_frame("/sdcard", vec![dir_entry("DCIM"), file_entry("a", 5)]),
        dir_frame("/sdcard/DCIM", vec![file_entry("b", 7)]),
        Frame::ScanDone(ScanStats::default()),
    ] {
        if let Frame::Dir { path, entries } = &frame {
            assert!(f.tree.can_apply(path, entries));
        }
        f.on_frame(frame);
    }
    f
}

#[test]
fn frames_fold_into_the_tree_and_the_summary_ends_the_scan() {
    let f = scanned();
    let s = f.outcome().unwrap();
    assert_eq!((s.size, s.files, s.dirs, s.scanning), (12, 2, 2, false));
}

#[test]
fn the_first_problem_of_a_scan_is_the_one_reported() {
    let mut f = ScanFold::new(b"/sdcard");
    f.on_frame(dir_frame("/sdcard/ghost", vec![file_entry("x", 1)]));
    f.on_frame(Frame::Error { message: "later".to_string() });
    assert_eq!(
        f.outcome().unwrap_err(),
        "received a directory frame for /sdcard/ghost, which no parent announced"
    );

    let mut g = ScanFold::new(b"/sdcard");
    g.on_frame(Frame::Error { message: "permission denied".to_string() });
    assert_eq!(g.outcome().unwrap_err(), "permission denied");
    assert!(g.tree.scanning());
}

#[test]
fn the_root_is_never_a_delete_target() {
    let f = scanned();
    assert_eq!(delete_target(&f.tree, ROOT).unwrap_err(), "the scan root cannot be deleted");
    assert_eq!(delete_target(&f.tree, 99).unwrap_err(), "no node with id 99");
    let dcim = f.tree.view(ROOT, 10).unwrap().rows.iter().find(|r| r.name == "DCIM").unwrap().id;
    assert_eq!(delete_target(&f.tree, dcim).unwrap(), b"/sdcard/DCIM".to_vec());
}

#[test]
fn a_confirmed_delete_is_discounted_and_the_watched_view_refreshed() {
    let mut f = scanned();
    let dcim = f.tree.view(ROOT, 10).unwrap().rows.iter().find(|r| r.name == "DCIM").unwrap().id;
    let d = confirm_delete(&mut f.tree, dcim, 2, ROOT).unwrap();
    assert_eq!(d.items, 2);
    assert_eq!((d.stats.size, d.stats.files, d.stats.dirs), (5, 1, 1));
    let v = d.view.unwrap();
    assert_eq!(v.rows.len(), 1);
    assert!(DEFAULT_VIEW_LIMIT >= v.rows.len());

    // Watching the directory that just went leaves nothing to show.
    let mut g = scanned();
    let dcim = g.tree.view(ROOT, 10).unwrap().rows.iter().find(|r| r.name == "DCIM").unwrap().id;
    let d = confirm_delete(&mut g.tree, dcim, 2, dcim).unwrap();
    assert!(d.view.is_none());
    assert!(confirm_delete(&mut g.tree, ROOT, 1, ROOT).is_err());
}

#[test]
fn arena_errors_read_as_the_frontend_shows_them() {
    assert_eq!(ArenaError::UnknownNode(7).message(), "no node with id 7");
    assert_eq!(
        ArenaError::OrphanFrame("/x".to_string()).message(),
        "received a directory frame for /x, which no parent announced"
    );
}

#[test]
fn a_scan_record_keeps_the_totals_and_a_timestamp() {
    let f = scanned();
    let s = f.outcome().unwrap();
    let r = ScanRecord::from_stats(&s);
    assert_eq!((r.size, r.files, r.dirs), (12, 2, 2));
    assert!(r.at > 1_600_000_000, "the clock reads after 2020");
}

#[test]
fn connection_details_carry_what_the_frontend_shows() {
    let c = Connected { serial: "R5CX".to_string(), model: "SM S928B".to_string(), root: "/sdcard".to_string() };
    assert_eq!(c.root, "/sdcard");
}

#[test]
fn a_scan_is_keyed_under_the_root_the_daemon_resolved() {
    // The phone resolves /sdcard to /storage/emulated/0 and keys every
    // directory frame under that.
    let mut f = ScanFold::new(b"/sdcard");
    f.on_frame(Frame::ScanStarted { root: b"/storage/emulated/0".to_vec() });
    f.on_frame(dir_frame("/storage/emulated/0", vec![dir_entry("DCIM"), file_entry("a", 5)]));
    f.on_frame(dir_frame("/storage/emulated/0/DCIM", vec![file_entry("b", 7)]));
    f.on_frame(Frame::ScanDone(ScanStats::default()));
    let s = f.outcome().unwrap();
    assert_eq!((s.size, s.files, s.dirs), (12, 2, 2));
    assert_eq!(f.tree.path_of(ROOT).unwrap(), b"/storage/emulated/0".to_vec());
}

#[test]
fn a_clock_before_the_epoch_is_recorded_as_time_zero() {
    let stats = scanned().outcome().unwrap();
    let r = ScanRecord::from_stats_at(&stats, Some(1_700_000_000));
    assert_eq!((r.size, r.files, r.dirs, r.at), (12, 2, 2, 1_700_000_000));
    assert_eq!(ScanRecord::from_stats_at(&stats, None).at, 0);
}

#[test]
fn the_breakdown_is_checked_to_fit_before_it_is_totalled() {
    let f = scanned();
    assert!(f.tree.breakdown_fits());
    let groups = f.tree.type_breakdown();
    assert_eq!(groups.iter().map(|g| g.files).sum::<u32>(), 2);
    assert_eq!(groups.iter().map(|g| g.size).sum::<u64>(), 12);
}
