use magic_mount::bytes::{append, contains, copied, has_byte, join, same};

#[test]
fn names_are_joined_with_a_separator() {
    assert_eq!(join(b"/data/modules", b"one"), b"/data/modules/one".to_vec());
}

#[test]
fn no_second_separator_is_added() {
    assert_eq!(join(b"/", b"vendor"), b"/vendor".to_vec());
}

#[test]
fn absolute_names_stand_for_themselves() {
    assert_eq!(join(b"/data", b"/system"), b"/system".to_vec());
}

#[test]
fn empty_names_leave_a_separator() {
    assert_eq!(join(b"/tmp/work", b""), b"/tmp/work/".to_vec());
    assert_eq!(join(b"/", b""), b"/".to_vec());
    assert_eq!(join(b"", b"name"), b"name".to_vec());
}

#[test]
fn joining_agrees_with_paths() {
    for base in ["", "/", "/a", "/a/", "a/b"] {
        for name in ["", "x", "/x", ".x", "x/y"] {
            let expected = std::path::Path::new(base).join(name);
            assert_eq!(
                join(base.as_bytes(), name.as_bytes()),
                expected.to_str().unwrap().as_bytes().to_vec()
            );
        }
    }
}

#[test]
fn parts_are_found_in_texts() {
    assert!(contains(b"nodev\toverlay\n", b"overlay"));
    assert!(contains(b"overlay", b"overlay"));
    assert!(contains(b"ooverlay", b"overlay"));
    assert!(contains(b"text", b""));
    assert!(!contains(b"overla", b"overlay"));
    assert!(!contains(b"over lay", b"overlay"));
}

#[test]
fn bytes_are_found_in_texts() {
    assert!(has_byte(b"a\0b", 0));
    assert!(!has_byte(b"ab", 0));
    assert!(!has_byte(b"", 0));
}

#[test]
fn texts_are_equal_byte_by_byte() {
    assert!(same(b"abc", b"abc"));
    assert!(same(b"", b""));
    assert!(!same(b"abc", b"abd"));
    assert!(!same(b"abc", b"ab"));
}

#[test]
fn copies_hold_the_same_bytes() {
    let mut text = copied(b"ab");
    append(&mut text, b"cd");
    assert_eq!(text, b"abcd".to_vec());
}
