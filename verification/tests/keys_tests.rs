use fst_indexer::keys::{bytes_less, make_key, read_be_u32};

#[test]
fn key_layout() {
    let k = make_key(b"hi", 1, 258);
    assert_eq!(k, vec![b'h', b'i', 0, 0, 0, 0, 1, 0, 0, 1, 2]);
}

#[test]
fn big_endian_read_back() {
    let k = make_key(b"", 0xDEADBEEF, 7);
    assert_eq!(read_be_u32(k[1], k[2], k[3], k[4]), 0xDEADBEEF);
    assert_eq!(read_be_u32(k[5], k[6], k[7], k[8]), 7);
}

#[test]
fn byte_order_is_lexicographic() {
    assert!(bytes_less(b"ab", b"abc"));
    assert!(!bytes_less(b"abc", b"ab"));
    assert!(bytes_less(b"ab\x00", b"ab\x01"));
    assert!(!bytes_less(b"same", b"same"));
    assert!(bytes_less(b"", b"a"));
}
