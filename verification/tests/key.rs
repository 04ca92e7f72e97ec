use static_filez::key::key_less;

#[test]
fn a_smaller_byte_decides() {
    assert!(key_less(b"a", b"b"));
    assert!(!key_less(b"b", b"a"));
    assert!(key_less(b"abc", b"abd"));
    assert!(!key_less(b"abd", b"abc"));
    assert!(key_less(&[0x7F], &[0x80]));
    assert!(key_less(&[0x00], &[0xFF]));
}

#[test]
fn a_proper_prefix_comes_first() {
    assert!(key_less(b"", b"a"));
    assert!(key_less(b"docs", b"docs/index.html"));
    assert!(!key_less(b"docs/index.html", b"docs"));
}

#[test]
fn no_key_comes_before_itself() {
    assert!(!key_less(b"", b""));
    assert!(!key_less(b"a.txt", b"a.txt"));
}

#[test]
fn the_first_difference_decides_not_the_length() {
    assert!(key_less(b"a/long/path", b"b"));
    assert!(!key_less(b"b", b"a/long/path"));
}

#[test]
fn key_less_agrees_with_slice_order() {
    let keys: [&[u8]; 7] = [b"", b"a", b"a.txt", b"a/b", b"b", b"b/c.txt", &[0xFF, 0x00]];
    for a in keys.iter() {
        for b in keys.iter() {
            assert_eq!(key_less(a, b), a < b);
        }
    }
}
