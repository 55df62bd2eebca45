//! Content digests.
use diskghost::hash::{hash_prefix, hash_text, short_key, to_hex, ContentHasher, PREFIX_LEN};

#[test]
fn digests_are_written_in_hexadecimal() {
    let mut d = [0u8; 32];
    d[0] = 0x0f;
    d[1] = 0xa9;
    d[31] = 0xff;
    let text = to_hex(&d);
    assert_eq!(text.len(), 64);
    assert!(text.starts_with("0fa900"));
    assert!(text.ends_with("00ff"));
    assert_eq!(short_key(&d), "0fa9000000000000");
}

#[test]
fn texts_have_their_blake3_digest() {
    assert_eq!(
        to_hex(&hash_text("")),
        "af1349b9f5f9a1a6a0404dea36dcc9499bcb25c9adc112b7cc9a93cae41f3262"
    );
    assert_eq!(to_hex(&hash_text("abc")), blake3::hash(b"abc").to_hex().to_string());
}

#[test]
fn only_the_first_block_counts_for_the_prefix() {
    let mut a = vec![7u8; PREFIX_LEN];
    let exact = hash_prefix(&a);
    assert_eq!(exact, *blake3::hash(&a).as_bytes());
    a.push(1);
    assert_eq!(hash_prefix(&a), exact);
    let shorter = vec![7u8; PREFIX_LEN - 1];
    assert_ne!(hash_prefix(&shorter), exact);
}

#[test]
fn a_file_read_in_pieces_has_the_digest_of_the_whole() {
    let whole = ContentHasher::new().update(b"abc");
    assert_eq!(whole.digest(), hash_text("abc"));
    let pieces = ContentHasher::new().update(b"a").update(b"").update(b"bc");
    assert_eq!(pieces.digest(), whole.digest());
    assert_eq!(ContentHasher::new().digest(), hash_text(""));
    let long = vec![9u8; 200_000];
    let mut hasher = ContentHasher::new();
    for piece in long.chunks(4097) {
        hasher = hasher.update(piece);
    }
    assert_eq!(hasher.digest(), *blake3::hash(&long).as_bytes());
}

#[test]
fn different_digests_are_written_differently() {
    let a = hash_text("a");
    let b = hash_text("b");
    assert_ne!(a, b);
    assert_ne!(to_hex(&a), to_hex(&b));
    assert!(to_hex(&a).chars().all(|c| c.is_ascii_digit() || ('a'..='f').contains(&c)));
}
