use dejadupe::{hash_bytes, ContentHash, ContentHasher};

fn hex(h: ContentHash) -> String {
    format!("{:032x}{:032x}", h.hi, h.lo)
}

#[test]
fn empty_input_has_the_blake3_digest_of_nothing() {
    assert_eq!(
        hex(hash_bytes(b"")),
        "af1349b9f5f9a1a6a0404dea36dcc9499bcb25c9adc112b7cc9a93cae41f3262"
    );
}

#[test]
fn digest_matches_blake3() {
    let data = b"DejaDupe finds duplicate files";
    assert_eq!(hex(hash_bytes(data)), blake3::hash(data).to_hex().to_string());
}

#[test]
fn digest_does_not_depend_on_how_input_is_split() {
    let data: Vec<u8> = (0..200_000u32).map(|i| (i % 251) as u8).collect();
    let mut hasher = ContentHasher::new();
    for chunk in data.chunks(65_536) {
        hasher.update(chunk);
    }
    assert_eq!(hasher.finalize(), hash_bytes(&data));
}

#[test]
fn different_contents_have_different_digests() {
    assert_ne!(hash_bytes(b"same"), hash_bytes(b"different"));
    assert_eq!(hash_bytes(b"same"), hash_bytes(b"same"));
}
