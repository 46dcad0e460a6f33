use socketsweep::daemon::{delete_finished, dispatch, parse_args, parse_usize, refusal, scan_finished, Control, Step};
use socketsweep::guard::GuardError;
use socketsweep::protocol::{Frame, Request, ScanStats};

fn argv(xs: &[&str]) -> Vec<String> {
    xs.iter().map(|s| s.to_string()).collect()
}

#[test]
fn the_command_line_needs_a_socket_and_defaults_the_rest() {
    let a = parse_args(&argv(&["--socket", "socketsweep-abc"])).unwrap();
    assert_eq!(a.socket, "socketsweep-abc");
    assert_eq!(a.root, "/sdcard");
    assert_eq!(a.threads, 0);

    let a = parse_args(&argv(&["--root", "/storage", "--threads", "8", "--socket", "s"])).unwrap();
    assert_eq!((a.socket.as_str(), a.root.as_str(), a.threads), ("s", "/storage", 8));

    assert!(parse_args(&argv(&[])).is_none(), "no socket");
    assert!(parse_args(&argv(&["--socket"])).is_none(), "a flag without its value");
    assert!(parse_args(&argv(&["--socket", "s", "--threads", "many"])).is_none());
    assert!(parse_args(&argv(&["--socket", "s", "--verbose", "1"])).is_none());
}

#[test]
fn thread_counts_parse_as_unsigned_decimals() {
    assert_eq!(parse_usize("8"), Some(8));
    assert_eq!(parse_usize("+12"), Some(12));
    assert_eq!(parse_usize("007"), Some(7));
    assert_eq!(parse_usize(""), None);
    assert_eq!(parse_usize("+"), None);
    assert_eq!(parse_usize("-1"), None);
    assert_eq!(parse_usize("1x"), None);
    assert_eq!(parse_usize("99999999999999999999999"), None);
    assert_eq!(parse_usize(&usize::MAX.to_string()), Some(usize::MAX));
}

#[test]
fn pings_are_answered_and_shutdown_stops_the_daemon() {
    match dispatch(Request::Ping) {
        Step::Answer { frame, control } => {
            assert_eq!(frame, Frame::Pong);
            assert_eq!(control, Control::Continue);
        }
        _ => panic!("a ping is answered directly"),
    }
    match dispatch(Request::Shutdown) {
        Step::Answer { frame, control } => {
            assert_eq!(frame, Frame::Pong);
            assert_eq!(control, Control::Shutdown);
        }
        _ => panic!("a shutdown is acknowledged"),
    }
}

#[test]
fn scans_and_deletes_go_through_the_guard_first() {
    match dispatch(Request::Scan { root: b"/sdcard/DCIM".to_vec() }) {
        Step::ScanWithin { root } => assert_eq!(root, b"/sdcard/DCIM".to_vec()),
        _ => panic!("a scan is resolved first"),
    }
    match dispatch(Request::Delete { path: b"/sdcard/x".to_vec() }) {
        Step::DeleteWithin { path } => assert_eq!(path, b"/sdcard/x".to_vec()),
        _ => panic!("a delete is resolved first"),
    }
}

#[test]
fn a_refused_request_is_answered_with_the_reason() {
    let f = refusal(&GuardError::IsRoot("/sdcard".to_string()));
    assert_eq!(
        f,
        Frame::Error { message: "refusing to delete the scan root itself: /sdcard".to_string() }
    );
}

#[test]
fn a_failed_scan_still_ends_its_stream() {
    let stats = ScanStats { files: 1, dirs: 2, total_size: 3, errors: 0, elapsed_ms: 9 };
    assert_eq!(scan_finished(Ok(stats)), vec![Frame::ScanDone(stats)]);
    assert_eq!(
        scan_finished(Err("boom".to_string())),
        vec![Frame::Error { message: "boom".to_string() }, Frame::ScanDone(ScanStats::default())]
    );
}

#[test]
fn a_delete_answers_with_its_count_or_its_failure() {
    assert_eq!(delete_finished(b"/sdcard/x", Ok(3)), Frame::Deleted { items: 3 });
    assert_eq!(
        delete_finished(b"/sdcard/x", Err("permission denied".to_string())),
        Frame::Error { message: "failed to delete /sdcard/x: permission denied".to_string() }
    );
}

#[test]
fn a_scan_stream_opens_with_the_resolved_root() {
    assert_eq!(
        socketsweep::daemon::scan_opening(b"/storage/emulated/0"),
        Frame::ScanStarted { root: b"/storage/emulated/0".to_vec() }
    );
}

#[test]
fn the_guard_either_hands_over_the_path_or_the_refusal() {
    assert_eq!(socketsweep::daemon::guarded(Ok(b"/sdcard/x".to_vec())).unwrap(), b"/sdcard/x".to_vec());
    assert_eq!(
        socketsweep::daemon::guarded(Err(GuardError::NotFound("/sdcard/y".to_string()))).unwrap_err(),
        Frame::Error { message: "no such path: /sdcard/y".to_string() }
    );
}
