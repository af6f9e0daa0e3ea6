use hskclustering::provenance::{code_hashes, hex_digest, sha256_hex};

#[test]
fn hex_digest_is_lower_case_two_digits_per_byte() {
    assert_eq!(hex_digest(&[0x00, 0x0f, 0xa0, 0xff]), "000fa0ff");
    assert_eq!(hex_digest(&[]), "");
}

#[test]
fn code_hashes_are_sha256_by_name() {
    let files = vec![
        ("output.rs".to_string(), b"abc".to_vec()),
        ("Cargo.toml".to_string(), Vec::new()),
    ];
    assert_eq!(
        code_hashes(&files),
        vec![
            (
                "Cargo.toml".to_string(),
                "e3b0c44298fc1c149afbf4c8996fb92427ae41e4649b934ca495991b7852b855".to_string()
            ),
            (
                "output.rs".to_string(),
                "ba7816bf8f01cfea414140de5dae2223b00361a396177a9cb410ff61f20015ad".to_string()
            ),
        ]
    );
}

#[test]
fn sha256_hex_gives_the_64_digit_digest() {
    assert_eq!(sha256_hex(b"abc"), "ba7816bf8f01cfea414140de5dae2223b00361a396177a9cb410ff61f20015ad");
    assert_eq!(sha256_hex(&[]).len(), 64);
}

#[test]
fn hashing_the_same_files_twice_agrees() {
    let files = vec![
        ("b.rs".to_string(), b"fn main() {}".to_vec()),
        ("a.rs".to_string(), b"abc".to_vec()),
        ("c.rs".to_string(), Vec::new()),
    ];
    let first = code_hashes(&files);
    assert_eq!(first, code_hashes(&files));
    assert_eq!(first.iter().map(|(n, _)| n.as_str()).collect::<Vec<_>>(), vec!["a.rs", "b.rs", "c.rs"]);
    assert!(first.iter().all(|(_, h)| h.len() == 64));
}
