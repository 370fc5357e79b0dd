use noteban::hashing::compute_content_hash;

#[test]
fn test_content_hash() {
    let hash = compute_content_hash("hello world");
    assert_eq!(hash.len(), 64); // SHA-256 produces 64 hex chars
}

#[test]
fn test_content_hash_exact_value() {
    let hash = compute_content_hash("hello world");
    assert_eq!(
        hash,
        "b94d27b9934d3e08a52e52d7da7dabfac484efe37a5380ee9088f7ace2efcde9"
    );
}

#[test]
fn test_content_hash_deterministic() {
    let a = compute_content_hash("some note body");
    let b = compute_content_hash("some note body");
    assert_eq!(a, b);
}

#[test]
fn test_single_byte_change_alters_fingerprint() {
    let a = compute_content_hash("some note body");
    let b = compute_content_hash("some note bodz");
    assert_ne!(a, b);
}

#[test]
fn test_empty_content_hash() {
    let hash = compute_content_hash("");
    assert_eq!(
        hash,
        "e3b0c44298fc1c149afbf4c8996fb92427ae41e4649b934ca495991b7852b855"
    );
}
