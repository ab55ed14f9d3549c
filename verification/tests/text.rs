use arf::text::{bytes_eq, bytes_start_with, copy_range, is_c_str, push_bytes, push_le32, str_eq};

#[test]
fn words_are_little_endian() {
    let mut out = vec![0xAA];
    push_le32(&mut out, 0x1234_5678);
    assert_eq!(out, vec![0xAA, 0x78, 0x56, 0x34, 0x12]);
    let mut out = Vec::new();
    push_le32(&mut out, 0);
    push_le32(&mut out, u32::MAX);
    push_le32(&mut out, 0x0100_0000);
    assert_eq!(out, vec![0, 0, 0, 0, 0xFF, 0xFF, 0xFF, 0xFF, 0, 0, 0, 1]);
    for x in [1u32, 255, 256, 65535, 65536, 0x00FF_FFFF, 0x8000_0000] {
        let mut out = Vec::new();
        push_le32(&mut out, x);
        assert_eq!(out, x.to_le_bytes().to_vec());
    }
}

#[test]
fn bytes_are_appended_and_copied() {
    let mut out = vec![1];
    push_bytes(&mut out, &[2, 3]);
    push_bytes(&mut out, &[]);
    assert_eq!(out, vec![1, 2, 3]);
    assert_eq!(copy_range(&out, 1, 3), vec![2, 3]);
    assert_eq!(copy_range(&out, 2, 2), Vec::<u8>::new());
}

#[test]
fn comparisons() {
    assert!(bytes_eq(b"abc", b"abc"));
    assert!(!bytes_eq(b"abc", b"abd"));
    assert!(!bytes_eq(b"abc", b"ab"));
    assert!(bytes_eq(b"", b""));
    assert!(bytes_start_with(b".debug_info", b".debug"));
    assert!(bytes_start_with(b".debug", b".debug"));
    assert!(!bytes_start_with(b".debu", b".debug"));
    assert!(!bytes_start_with(b"x.debug", b".debug"));
    assert!(bytes_start_with(b"abc", b""));
    assert!(str_eq("é", "é"));
    assert!(!str_eq("é", "e"));
    assert!(is_c_str("plain"));
    assert!(is_c_str(""));
    assert!(!is_c_str("a\0b"));
    assert!(!is_c_str("\0"));
}
