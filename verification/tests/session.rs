use socketsweep::session::{start_step, StartAction, StartStage};
use socketsweep::device::AdbError;
use socketsweep::protocol::{Frame, ScanStats};
use socketsweep::session::{
    after_ping, chmod_command, cleanup_command, delete_reply, ends_scan, kill_command, launch_command, ping_reply,
    random_socket_name, storage_command, NoAnswer, Probe, Session, HOST_PORT, PING_ATTEMPTS,
};

#[test]
fn socket_names_are_fresh_and_well_formed() {
    let a = random_socket_name();
    let b = random_socket_name();
    assert_ne!(a, b, "two sessions do not share a socket");
    for n in [a, b] {
        assert_eq!(n.len(), 28);
        assert!(n.starts_with("socketsweep-"));
        assert!(n[12..].chars().all(|c| c.is_ascii_lowercase() || c.is_ascii_digit()));
    }
}

#[test]
fn the_daemon_is_started_detached_with_its_socket_and_root() {
    assert_eq!(
        launch_command("socketsweep-abc", b"/sdcard"),
        "nohup /data/local/tmp/socketsweep-daemon --socket socketsweep-abc --root /sdcard >/dev/null 2>&1 &"
    );
    assert_eq!(chmod_command(), "chmod 755 /data/local/tmp/socketsweep-daemon");
    assert_eq!(cleanup_command(), "rm -f /data/local/tmp/socketsweep-daemon");
    assert_eq!(kill_command(), "pkill -f '[s]ocketsweep-daemon'");
    assert_eq!(storage_command(), "appops set com.android.shell MANAGE_EXTERNAL_STORAGE allow");
    assert_eq!(HOST_PORT, 5050);
}

#[test]
fn a_starting_daemon_is_asked_again_until_the_attempts_run_out() {
    assert!(matches!(after_ping(1, Ok(())), Probe::Ready));
    assert!(matches!(after_ping(1, Err("refused".to_string())), Probe::Retry));
    assert!(matches!(after_ping(PING_ATTEMPTS - 1, Err("refused".to_string())), Probe::Retry));
    match after_ping(PING_ATTEMPTS, Err("refused".to_string())) {
        Probe::GiveUp(AdbError::Device(m)) => assert_eq!(
            m,
            "The daemon was pushed and started but never answered on the tunnel. Last error: refused"
        ),
        _ => panic!("the last failed attempt gives up"),
    }
}

#[test]
fn replies_are_read_for_what_they_answer() {
    assert!(ping_reply(Some(Frame::Pong)).is_ok());
    assert!(matches!(ping_reply(None), Err(NoAnswer::Closed)));
    assert!(matches!(ping_reply(Some(Frame::Deleted { items: 1 })), Err(NoAnswer::Unexpected(Frame::Deleted { items: 1 }))));

    assert_eq!(delete_reply(Some(Frame::Deleted { items: 4 })).unwrap(), 4);
    match delete_reply(Some(Frame::Error { message: "outside".to_string() })) {
        Err(NoAnswer::Refused(m)) => assert_eq!(m, "outside"),
        other => panic!("got {other:?}"),
    }
    assert!(matches!(delete_reply(Some(Frame::Pong)), Err(NoAnswer::Unexpected(Frame::Pong))));
    assert!(matches!(delete_reply(None), Err(NoAnswer::Closed)));
}

#[test]
fn a_scan_stream_ends_with_its_summary() {
    assert!(ends_scan(&Frame::ScanDone(ScanStats::default())));
    assert!(!ends_scan(&Frame::Dir { path: b"/r".to_vec(), entries: vec![] }));
}

#[test]
fn a_session_holds_what_identifies_it() {
    let s = Session { serial: "R5CX".to_string(), socket_name: random_socket_name(), root: b"/sdcard".to_vec() };
    assert_eq!(s.root, b"/sdcard".to_vec());
}

fn run_start(fail_at: Option<StartStage>) -> (Vec<String>, Result<(), AdbError>) {
    let mut done = StartStage::Begun;
    let mut outcome: Result<(), AdbError> = Ok(());
    let mut steps = Vec::new();
    loop {
        let (next, action) = match start_step(done, outcome, "socketsweep-abc", b"/sdcard") {
            Ok(step) => step,
            Err(e) => return (steps, Err(e)),
        };
        steps.push(match &action {
            StartAction::ShellIgnoringErrors(c) => format!("try {c}"),
            StartAction::Shell(c) => format!("run {c}"),
            StartAction::Push(p) => format!("push {p}"),
            StartAction::Forward { local_port, name } => format!("forward {local_port} {name}"),
            StartAction::Ping => "ping".to_string(),
        });
        if matches!(action, StartAction::Ping) {
            return (steps, Ok(()));
        }
        outcome = if Some(next) == fail_at { Err(AdbError::Device("no".to_string())) } else { Ok(()) };
        done = next;
    }
}

#[test]
fn starting_the_daemon_takes_its_steps_in_order() {
    let (steps, r) = run_start(None);
    assert!(r.is_ok());
    assert_eq!(
        steps,
        vec![
            "try pkill -f '[s]ocketsweep-daemon'",
            "try appops set com.android.shell MANAGE_EXTERNAL_STORAGE allow",
            "push /data/local/tmp/socketsweep-daemon",
            "run chmod 755 /data/local/tmp/socketsweep-daemon",
            "try nohup /data/local/tmp/socketsweep-daemon --socket socketsweep-abc --root /sdcard >/dev/null 2>&1 &",
            "forward 5050 socketsweep-abc",
            "ping",
        ]
    );
}

#[test]
fn a_failed_push_chmod_or_forward_ends_the_start_but_a_failed_kill_does_not() {
    for stage in [StartStage::Pushed, StartStage::Executable, StartStage::Forwarded] {
        let (_, r) = run_start(Some(stage));
        assert!(matches!(r, Err(AdbError::Device(_))), "{stage:?}");
    }
    for stage in [StartStage::Killed, StartStage::StorageOpened, StartStage::Launched] {
        let (steps, r) = run_start(Some(stage));
        assert!(r.is_ok(), "{stage:?}");
        assert_eq!(steps.len(), 7);
    }
}

#[test]
fn a_socket_name_spells_out_its_draws() {
    let draws: Vec<usize> = vec![0, 1, 2, 25, 26, 35, 0, 0, 0, 0, 0, 0, 0, 0, 0, 9];
    assert_eq!(socketsweep::session::socket_name_from(&draws), "socketsweep-abcz09aaaaaaaaaj");
    let other: Vec<usize> = vec![1; 16];
    assert_eq!(socketsweep::session::socket_name_from(&other), "socketsweep-bbbbbbbbbbbbbbbb");
}
