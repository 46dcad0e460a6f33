use socketsweep::arena::{category_of, label_of, APPS, ARCHIVES, DOCUMENTS, OTHER, PHOTOS, VIDEO};
use socketsweep::guard::{resolve_under_root, GuardError};
use socketsweep::text::{bytes_equal, chars_of, contains_chars, decimal, trim};

#[test]
fn decimal_text_matches_the_formatter() {
    for n in [0u64, 7, 10, 99, 100, 143, 65535, u64::MAX] {
        assert_eq!(decimal(n), n.to_string());
    }
}

#[test]
fn trimming_removes_unicode_whitespace_at_both_ends() {
    assert_eq!(trim("  a b \n"), "a b");
    assert_eq!(trim("\u{3000}x\u{a0}"), "x");
    assert_eq!(trim(" \t "), "");
    assert_eq!(trim("x"), "x");
}

#[test]
fn substring_search_is_over_characters() {
    let hay = chars_of("b.jpg");
    assert!(contains_chars(&hay, &chars_of("jp")));
    assert!(contains_chars(&hay, &chars_of("")));
    assert!(!contains_chars(&hay, &chars_of("jpeg")));
}

#[test]
fn byte_paths_are_shown_lossily() {
    match resolve_under_root(b"/vid\xff", None, b"/vid\xff/x", None) {
        Err(GuardError::NotFound(p)) => assert_eq!(p, "/vid\u{FFFD}"),
        other => panic!("got {other:?}"),
    }
    assert!(bytes_equal(b"abc", b"abc"));
    assert!(!bytes_equal(b"abc", b"abd"));
}

#[test]
fn categories_go_by_the_last_extension_case_insensitively() {
    assert_eq!(category_of(b"holiday.JPG"), PHOTOS);
    assert_eq!(category_of(b"clip.mp4"), VIDEO);
    assert_eq!(category_of(b"game.obb"), APPS);
    assert_eq!(category_of(b"notes.pdf"), DOCUMENTS);
    assert_eq!(category_of(b"archive.tar.gz"), ARCHIVES);
    assert_eq!(category_of(b".gitignore"), OTHER, "a dotfile has no extension");
    assert_eq!(category_of(b"mystery"), OTHER);
    assert_eq!(category_of(b"trailing."), OTHER);
    assert_eq!(category_of(b"weird.xyz"), OTHER);
    assert_eq!(label_of(PHOTOS), "Photos");
    assert_eq!(label_of(OTHER), "Other");
}
