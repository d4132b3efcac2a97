use dedupe::hash::{compute_sha1, hash_prefix, DIGEST_LEN, HASH_LEN, HASH_PREFIX_LEN};
use dedupe::hex::{hex_digit_of, to_hex};

#[test]
fn hex_digits_are_lowercase() {
    let expected = "0123456789abcdef";
    let mut got = String::new();
    for n in 0u8..16 {
        got.push(hex_digit_of(n));
    }
    assert_eq!(got, expected);
}

#[test]
fn to_hex_of_nothing_is_empty() {
    assert_eq!(to_hex(&[]), "");
}

#[test]
fn to_hex_puts_the_high_half_first() {
    assert_eq!(to_hex(&[0x0a, 0x14, 0x1e]), "0a141e");
    assert_eq!(to_hex(&[0x00, 0xff, 0x10, 0x01]), "00ff1001");
    assert_eq!(to_hex(&[0xde, 0xad, 0xbe, 0xef]), "deadbeef");
}

#[test]
fn to_hex_agrees_with_std_formatting_on_every_byte() {
    for b in 0u16..256 {
        let b = b as u8;
        assert_eq!(to_hex(&[b]), format!("{:02x}", b));
    }
}

#[test]
fn sizes_fit_together() {
    assert_eq!(DIGEST_LEN, 20);
    assert_eq!(HASH_LEN, 2 * DIGEST_LEN);
    assert_eq!(HASH_PREFIX_LEN, 8);
}

#[test]
fn sha1_of_known_inputs() {
    assert_eq!(compute_sha1(b""), "da39a3ee5e6b4b0d3255bfef95601890afd80709");
    assert_eq!(compute_sha1(b"abc"), "a9993e364706816aba3e25717850c26c9cd0d89d");
    assert_eq!(compute_sha1(b"hello"), "aaf4c61ddcc5e8a2dabede0f3b482cd9aea9434d");
    assert_eq!(compute_sha1(b"unique"), "58037c0078d5f54e15e638cc0dd882a570b13c50");
    assert_eq!(compute_sha1(b"hello world"), "2aae6c35c94fcfb415dbe95f408b9ce91ee846ed");
    assert_eq!(
        compute_sha1(b"The quick brown fox jumps over the lazy dog"),
        "2fd4e1c67a2d28fced849ee1bb76e7391b93eb12"
    );
}

#[test]
fn sha1_of_longer_inputs() {
    let every_byte: Vec<u8> = (0u16..256).map(|b| b as u8).collect();
    assert_eq!(compute_sha1(&every_byte), "4916d6bdb7f78e6803698cab32d1586ea457dfc8");
    let many = vec![b'a'; 1000];
    assert_eq!(compute_sha1(&many), "291e9a6c66994949b57ba5e650361e98fc36b1ba");
}

#[test]
fn sha1_is_not_its_input() {
    let hash = compute_sha1(b"aaf4c61ddcc5e8a2dabede0f3b482cd9aea9434d");
    assert_ne!(hash, "aaf4c61ddcc5e8a2dabede0f3b482cd9aea9434d");
    assert_eq!(hash.len(), HASH_LEN);
}

#[test]
fn content_hash_has_forty_lowercase_hex_digits() {
    for content in [&b""[..], &b"hello"[..], &b"\x00\xff"[..]] {
        let hash = compute_sha1(content);
        assert_eq!(hash.chars().count(), HASH_LEN);
        assert!(hash.chars().all(|c| matches!(c, '0'..='9' | 'a'..='f')));
    }
}

#[test]
fn equal_content_gives_equal_hash() {
    assert_eq!(compute_sha1(b"hello"), compute_sha1(b"hello"));
    assert_ne!(compute_sha1(b"hello"), compute_sha1(b"hellp"));
}

#[test]
fn hash_prefix_is_the_first_eight_characters() {
    assert_eq!(hash_prefix("aaf4c61ddcc5e8a2dabede0f3b482cd9aea9434d"), "aaf4c61d");
    assert_eq!(hash_prefix("58037c00"), "58037c00");
    assert_eq!(hash_prefix(&compute_sha1(b"unique")), "58037c00");
}
