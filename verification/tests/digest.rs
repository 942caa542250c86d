use sorty::digest::{digest_of, hash_file_step, ContentHasher, Digest, HashStep};

fn hex(d: &Digest) -> String {
    let mut s = String::new();
    for b in d.bytes.iter() {
        s.push_str(&format!("{:02x}", b));
    }
    s
}

#[test]
fn digest_of_empty_content_is_the_known_value() {
    assert_eq!(
        hex(&digest_of(b"")),
        "af1349b9f5f9a1a6a0404dea36dcc9499bcb25c9adc112b7cc9a93cae41f3262"
    );
}

#[test]
fn fresh_hasher_finalizes_to_the_digest_of_nothing() {
    let h = ContentHasher::new();
    assert_eq!(h.count(), 0);
    assert_eq!(h.finalize(), digest_of(b""));
}

#[test]
fn streaming_in_any_chunks_gives_the_digest_of_the_whole() {
    let whole = digest_of(b"hello world");
    let mut h = ContentHasher::new();
    assert_eq!(hash_file_step(&mut h, b"hel"), HashStep::More);
    assert_eq!(hash_file_step(&mut h, b"lo wor"), HashStep::More);
    assert_eq!(hash_file_step(&mut h, b"ld"), HashStep::More);
    assert_eq!(h.count(), 11);
    assert_eq!(hash_file_step(&mut h, b""), HashStep::Done(whole));
    assert_ne!(whole, digest_of(b"hello"));
}

#[test]
fn chunk_size_does_not_change_the_digest() {
    let content: Vec<u8> = (0..20_000u32).map(|i| (i % 251) as u8).collect();
    let whole = digest_of(&content);
    for chunk in [1usize, 7, 1024, 8192, 20_000] {
        let mut h = ContentHasher::new();
        for part in content.chunks(chunk) {
            assert!(h.update(part));
        }
        assert_eq!(h.count(), 20_000);
        assert_eq!(h.finalize(), whole, "chunk size {}", chunk);
    }
}

#[test]
fn update_takes_the_chunk_and_changes_the_digest() {
    let mut h = ContentHasher::new();
    let before = h.finalize();
    assert!(h.update(b"x"));
    assert_eq!(h.count(), 1);
    assert_ne!(h.finalize(), before);
    assert_eq!(h.finalize(), digest_of(b"x"));
}

#[test]
fn finalize_leaves_the_hasher_as_it_was() {
    let mut h = ContentHasher::new();
    assert!(h.update(b"ab"));
    let first = h.finalize();
    assert_eq!(h.finalize(), first);
    assert!(h.update(b"c"));
    assert_eq!(h.finalize(), digest_of(b"abc"));
}

#[test]
fn an_empty_read_at_once_gives_the_digest_of_an_empty_file() {
    let mut h = ContentHasher::new();
    assert_eq!(hash_file_step(&mut h, b""), HashStep::Done(digest_of(b"")));
}

#[test]
fn different_contents_of_one_size_have_different_digests() {
    assert_ne!(digest_of(b"hello"), digest_of(b"world"));
}

#[test]
fn same_as_compares_all_bytes() {
    let a = Digest::from_bytes([7u8; 32]);
    let b = Digest::from_bytes([7u8; 32]);
    let mut other = [7u8; 32];
    other[31] = 8;
    let c = Digest::from_bytes(other);
    assert!(a.same_as(&b));
    assert!(!a.same_as(&c));
    assert!(!c.same_as(&a));
    assert_eq!(a.bytes, [7u8; 32]);
}

#[test]
fn leading_word_reads_eight_bytes_lowest_first() {
    let mut bytes = [0u8; 32];
    for i in 0..32 {
        bytes[i] = (i + 1) as u8;
    }
    assert_eq!(Digest::from_bytes(bytes).leading(), 0x0807_0605_0403_0201);
    assert_eq!(Digest::from_bytes([0xff; 32]).leading(), u64::MAX);
    assert_eq!(Digest::from_bytes([0; 32]).leading(), 0);
}

#[test]
fn digests_of_short_contents_are_the_known_values() {
    assert_eq!(
        hex(&digest_of(b"hello")),
        "ea8f163db38682925e4491c5e58d4bb3506ef8c14eb78a86e908c5624a67200f"
    );
    assert_eq!(
        hex(&digest_of(b"hello world")),
        "d74981efa70a0c880b8d8c1985d075dbcbf679b99a5f9914e5aaf96b831a9e24"
    );
}

#[test]
fn digest_is_what_blake3_gives_for_the_whole_content() {
    let content: Vec<u8> = (0..5000u32).map(|i| (i * 7 % 256) as u8).collect();
    assert_eq!(digest_of(&content).bytes, *blake3::hash(&content).as_bytes());
    let mut h = ContentHasher::new();
    assert!(h.update(&content[..1234]));
    assert!(h.update(&content[1234..]));
    assert_eq!(h.finalize().bytes, *blake3::hash(&content).as_bytes());
}
