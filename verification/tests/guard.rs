//! The guard decides on paths as canonicalising them on the device resolved
//! them; these tests hand it those resolutions directly, as a fixture tree of
//! /tmp/x/sdcard (with DCIM/Camera, Download and Down) beside /tmp/x/private
//! would resolve them.

use socketsweep::guard::{path_components, resolve_at_or_under_root, resolve_under_root, same_path, starts_with, GuardError};

const ROOT: &[u8] = b"/tmp/x/sdcard";

fn canon(p: &str) -> Option<Vec<u8>> {
    Some(p.as_bytes().to_vec())
}

#[test]
fn allows_a_file_inside_the_root() {
    let target = b"/tmp/x/sdcard/DCIM/Camera/IMG_0001.jpg";
    let r = resolve_under_root(ROOT, canon("/tmp/x/sdcard"), target, canon("/tmp/x/sdcard/DCIM/Camera/IMG_0001.jpg"));
    assert_eq!(r.unwrap(), target.to_vec());
}

#[test]
fn allows_a_directory_inside_the_root() {
    let r = resolve_under_root(ROOT, canon("/tmp/x/sdcard"), b"/tmp/x/sdcard/DCIM", canon("/tmp/x/sdcard/DCIM"));
    assert!(r.is_ok());
}

#[test]
fn rejects_the_root_itself() {
    let r = resolve_under_root(ROOT, canon("/tmp/x/sdcard"), ROOT, canon("/tmp/x/sdcard"));
    assert!(matches!(r, Err(GuardError::IsRoot(_))));
}

#[test]
fn rejects_a_sibling_of_the_root() {
    let r = resolve_under_root(
        ROOT,
        canon("/tmp/x/sdcard"),
        b"/tmp/x/private/secrets.txt",
        canon("/tmp/x/private/secrets.txt"),
    );
    assert!(matches!(r, Err(GuardError::OutsideRoot { .. })));
}

#[test]
fn rejects_dotdot_traversal_out_of_the_root() {
    let r = resolve_under_root(
        ROOT,
        canon("/tmp/x/sdcard"),
        b"/tmp/x/sdcard/DCIM/../../private/secrets.txt",
        canon("/tmp/x/private/secrets.txt"),
    );
    assert!(matches!(r, Err(GuardError::OutsideRoot { .. })));
}

#[test]
fn dotdot_that_stays_inside_is_fine() {
    let r = resolve_under_root(
        ROOT,
        canon("/tmp/x/sdcard"),
        b"/tmp/x/sdcard/DCIM/../Download",
        canon("/tmp/x/sdcard/Download"),
    );
    assert_eq!(r.unwrap(), b"/tmp/x/sdcard/Download".to_vec());
}

#[test]
fn a_root_that_is_a_string_prefix_of_the_target_does_not_authorise_it() {
    let r = resolve_under_root(
        b"/tmp/x/sdcard/Down",
        canon("/tmp/x/sdcard/Down"),
        b"/tmp/x/sdcard/Download",
        canon("/tmp/x/sdcard/Download"),
    );
    assert!(
        matches!(r, Err(GuardError::OutsideRoot { .. })),
        "component-wise comparison must not treat Down as a parent of Download"
    );
}

#[test]
fn rejects_a_path_that_does_not_exist() {
    let r = resolve_under_root(ROOT, canon("/tmp/x/sdcard"), b"/tmp/x/sdcard/nope", None);
    match r {
        Err(GuardError::NotFound(p)) => assert_eq!(p, "/tmp/x/sdcard/nope"),
        other => panic!("got {other:?}"),
    }
}

#[test]
fn scan_variant_permits_the_root_but_still_rejects_outside() {
    let ok = resolve_at_or_under_root(ROOT, canon("/tmp/x/sdcard"), ROOT, canon("/tmp/x/sdcard"));
    assert_eq!(ok.unwrap(), ROOT.to_vec());
    let r = resolve_at_or_under_root(ROOT, canon("/tmp/x/sdcard"), b"/tmp/x/private", canon("/tmp/x/private"));
    assert!(matches!(r, Err(GuardError::OutsideRoot { .. })));
}

#[test]
fn rejects_a_symlink_inside_the_root_that_points_outside() {
    let r = resolve_under_root(ROOT, canon("/tmp/x/sdcard"), b"/tmp/x/sdcard/escape", canon("/tmp/x/private"));
    assert!(matches!(r, Err(GuardError::OutsideRoot { .. })));
}

#[test]
fn a_root_that_cannot_be_resolved_is_reported_by_its_own_name() {
    let r = resolve_under_root(ROOT, None, b"/tmp/x/sdcard/DCIM", canon("/tmp/x/sdcard/DCIM"));
    match r {
        Err(GuardError::NotFound(p)) => assert_eq!(p, "/tmp/x/sdcard"),
        other => panic!("got {other:?}"),
    }
}

#[test]
fn an_outside_refusal_names_both_paths() {
    let r = resolve_under_root(ROOT, canon("/tmp/x/sdcard"), b"/etc", canon("/etc"));
    match r {
        Err(GuardError::OutsideRoot { target, root }) => {
            assert_eq!(target, "/etc");
            assert_eq!(root, "/tmp/x/sdcard");
        }
        other => panic!("got {other:?}"),
    }
}

#[test]
fn comparison_is_by_whole_components() {
    assert!(starts_with(b"/a/b/c", b"/a/b"));
    assert!(starts_with(b"/a/b/", b"/a/b"));
    assert!(!starts_with(b"/a/bc", b"/a/b"));
    assert!(starts_with(b"/a//b", b"/a/b"));
    assert!(same_path(b"/a/b/", b"/a/b"));
    assert!(!same_path(b"/a/b", b"/a/c"));
    assert_eq!(path_components(b"/a//b/").len(), 3);
}

#[test]
fn guard_refusals_read_as_the_daemon_reports_them() {
    let e = GuardError::OutsideRoot { target: "/etc".to_string(), root: "/sdcard".to_string() };
    assert_eq!(e.message(), "refusing to touch /etc: outside the scan root /sdcard");
    assert_eq!(GuardError::NotFound("/x".to_string()).message(), "no such path: /x");
    assert_eq!(
        GuardError::IsRoot("/sdcard".to_string()).message(),
        "refusing to delete the scan root itself: /sdcard"
    );
}
