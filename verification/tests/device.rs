use socketsweep::device::{device_from, model_for, resolve_device, shell_outcome, AdbError, Device};

fn dev(serial: &str, state: &str, usable: bool) -> Device {
    Device { serial: serial.to_string(), model: serial.to_string(), state: state.to_string(), usable }
}

#[test]
fn models_read_with_spaces_and_fall_back_to_the_serial() {
    let d = device_from("R5CX".to_string(), "SM_S928B".to_string(), "Device".to_string(), true);
    assert_eq!(d.serial, "R5CX");
    assert_eq!(d.model, "SM S928B");
    assert_eq!(d.state, "device");
    assert!(d.usable);

    let d = device_from("emulator-5554".to_string(), String::new(), "unauthorized".to_string(), false);
    assert_eq!(d.model, "emulator-5554");
    assert!(!d.usable);
}

#[test]
fn no_device_at_all_says_so() {
    assert!(matches!(resolve_device(&vec![], None), Err(AdbError::NoDevices)));
}

#[test]
fn the_first_usable_device_is_chosen() {
    let ds = vec![dev("a", "offline", false), dev("b", "device", true), dev("c", "device", true)];
    assert_eq!(resolve_device(&ds, None).unwrap(), "b");
}

#[test]
fn a_preferred_serial_must_still_be_attached() {
    let ds = vec![dev("a", "device", true), dev("b", "offline", false)];
    assert_eq!(resolve_device(&ds, Some("b")).unwrap(), "b");
    match resolve_device(&ds, Some("z")) {
        Err(AdbError::Device(m)) => assert_eq!(m, "Device z is no longer connected."),
        other => panic!("got {other:?}"),
    }
}

#[test]
fn nothing_usable_names_the_specific_problem() {
    let ds = vec![dev("a", "offline", false), dev("b", "unauthorized", false)];
    match resolve_device(&ds, None) {
        Err(AdbError::Unauthorized(s)) => assert_eq!(s, "b"),
        other => panic!("got {other:?}"),
    }
    let ds = vec![dev("a", "offline", false), dev("b", "recovery", false)];
    match resolve_device(&ds, None) {
        Err(AdbError::Device(m)) => assert_eq!(m, "Device a is offline. Unplug and reconnect it."),
        other => panic!("got {other:?}"),
    }
}

#[test]
fn errors_tell_the_user_what_to_do() {
    assert_eq!(
        AdbError::NoDevices.message(),
        "No Android device detected. Connect your phone over USB and enable USB Debugging."
    );
    assert_eq!(
        AdbError::Unauthorized("X1".to_string()).message(),
        "Device X1 has not authorised this computer. Check the confirmation dialog on the phone."
    );
    assert_eq!(AdbError::Server("refused".to_string()).message(), "Cannot talk to the ADB server: refused");
    assert_eq!(AdbError::Device("gone".to_string()).message(), "gone");
}

#[test]
fn the_model_shown_is_that_of_the_chosen_serial() {
    let mut ds = vec![dev("a", "device", true)];
    ds[0].model = "Pixel 8".to_string();
    assert_eq!(model_for(&ds, "a"), "Pixel 8");
    assert_eq!(model_for(&ds, "q"), "q");
}

#[test]
fn a_failing_shell_command_reports_its_status_and_trimmed_errors() {
    assert_eq!(shell_outcome("ls", Some(0), b"a\nb\n", b"").unwrap(), "a\nb\n");
    assert_eq!(shell_outcome("ls", None, b"out", b"").unwrap(), "out");
    match shell_outcome("chmod 755 x", Some(1), b"", b"  no such file \n") {
        Err(AdbError::Device(m)) => assert_eq!(m, "adb shell chmod 755 x exited 1: no such file"),
        other => panic!("got {other:?}"),
    }
    match shell_outcome("pkill", Some(143), b"", b"") {
        Err(AdbError::Device(m)) => assert_eq!(m, "adb shell pkill exited 143: "),
        other => panic!("got {other:?}"),
    }
}
