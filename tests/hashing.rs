use dupe_scanner::hasher::{digest_of, ContentHasher, DIGEST_LEN};

const HELLO_WORLD_SHA1: [u8; 20] = [
    0x2a, 0xae, 0x6c, 0x35, 0xc9, 0x4f, 0xcf, 0xb4, 0x15, 0xdb, 0xe9, 0x5f, 0x40, 0x8b, 0x9c, 0xe9,
    0x1e, 0xe8, 0x46, 0xed,
];

const EMPTY_SHA1: [u8; 20] = [
    0xda, 0x39, 0xa3, 0xee, 0x5e, 0x6b, 0x4b, 0x0d, 0x32, 0x55, 0xbf, 0xef, 0x95, 0x60, 0x18, 0x90,
    0xaf, 0xd8, 0x07, 0x09,
];

#[test]
fn test_hasher_hello() {
    let result = digest_of(b"hello world");
    assert_eq!(result[..], HELLO_WORLD_SHA1[..]);
}

#[test]
fn empty_input_digest() {
    let result = ContentHasher::new().finish();
    assert_eq!(result[..], EMPTY_SHA1[..]);
    assert_eq!(result.len(), DIGEST_LEN);
}

#[test]
fn chunked_feed_matches_whole() {
    let mut h = ContentHasher::new();
    assert!(h.absorb(b"hel"));
    assert!(h.absorb(b"lo wo"));
    assert!(h.absorb(b"rld"));
    assert!(!h.absorb(b""));
    assert_eq!(h.finish()[..], HELLO_WORLD_SHA1[..]);
}

#[test]
fn large_input_in_blocks() {
    let data: Vec<u8> = (0..10_000u32).map(|i| (i % 251) as u8).collect();
    let mut h = ContentHasher::new();
    for chunk in data.chunks(4096) {
        h.update(chunk);
    }
    assert_eq!(h.finish(), digest_of(&data));
}

#[test]
fn identical_content_identical_digest() {
    assert_eq!(digest_of(b"hello"), digest_of(b"hello"));
    assert_ne!(digest_of(b"hello"), digest_of(b"world"));
    assert_ne!(digest_of(b"hello"), digest_of(b"hellp"));
}

#[test]
fn repeated_hashing_is_stable() {
    let first = digest_of(b"some file content\n");
    for _ in 0..3 {
        assert_eq!(digest_of(b"some file content\n"), first);
    }
}
