use passvault::crypto_utils::ct_eq;
use passvault::crypto_utils::generate_salt;
use passvault::crypto_utils::hash;
use passvault::crypto_utils::hash_and_salt;
use passvault::crypto_utils::random_text;
use passvault::crypto_utils::salt_secret;
use passvault::crypto_utils::CryptographyData;

fn hex_to_bytes(s: &str) -> Vec<u8> {
    let b = s.as_bytes();
    let mut out = Vec::new();
    let mut i = 0;
    while i < b.len() {
        let hi = (b[i] as char).to_digit(16).unwrap() as u8;
        let lo = (b[i + 1] as char).to_digit(16).unwrap() as u8;
        out.push(hi * 16 + lo);
        i += 2;
    }
    out
}

#[test]
fn hash_matches_sha256_test_vector() {
    let digest = hash("abc");
    let expected =
        hex_to_bytes("ba7816bf8f01cfea414140de5dae2223b00361a396177a9cb410ff61f20015ad");
    assert_eq!(digest, expected);
}

#[test]
fn hash_of_empty_input() {
    let digest = hash("");
    let expected =
        hex_to_bytes("e3b0c44298fc1c149afbf4c8996fb92427ae41e4649b934ca495991b7852b855");
    assert_eq!(digest, expected);
}

#[test]
fn hash_and_salt_is_digest_of_concatenation() {
    // SHA-256("abc") computed over the split "a" ++ "bc".
    let digest = hash_and_salt(b"a", b"bc");
    let expected =
        hex_to_bytes("ba7816bf8f01cfea414140de5dae2223b00361a396177a9cb410ff61f20015ad");
    assert_eq!(digest, expected);
    assert_eq!(hash_and_salt(b"abc", b""), expected);
}

#[test]
fn hash_and_salt_same_passphrase_different_salt_differs() {
    let a = hash_and_salt(b"hunter2", b"salt-one");
    let b = hash_and_salt(b"hunter2", b"salt-two");
    assert_ne!(a, b);
}

#[test]
fn salt_secret_concatenates() {
    assert_eq!(salt_secret(b"abc", b"de"), b"abcde".to_vec());
    assert_eq!(salt_secret(b"", b""), Vec::<u8>::new());
    assert_eq!(salt_secret(b"", b"xy"), b"xy".to_vec());
}

#[test]
fn generate_salt_has_requested_length() {
    assert_eq!(generate_salt(0).len(), 0);
    assert_eq!(generate_salt(16).len(), 16);
    assert_eq!(generate_salt(333).len(), 333);
}

#[test]
fn generate_salt_draws_fresh_randomness() {
    // Two 32-byte draws colliding would mean the entropy source is broken.
    assert_ne!(generate_salt(32), generate_salt(32));
}

#[test]
fn random_text_is_printable_ascii_of_requested_length() {
    for &len in &[0usize, 1, 32, 100] {
        let t = random_text(len);
        assert_eq!(t.chars().count(), len);
        for c in t.chars() {
            let v = c as u32;
            assert!((33..=126).contains(&v), "character {v} out of range");
        }
    }
}

#[test]
fn random_text_draws_fresh_randomness() {
    assert_ne!(random_text(32), random_text(32));
}

#[test]
fn ct_eq_agrees_with_equality() {
    assert!(ct_eq(b"", b""));
    assert!(ct_eq(b"abc", b"abc"));
    assert!(!ct_eq(b"abc", b"abd"));
    assert!(!ct_eq(b"abc", b"ab"));
    assert!(!ct_eq(b"abc", b"abcd"));
}

#[test]
fn cryptography_data_holds_salt_and_nonce() {
    let data = CryptographyData { salt: vec![1, 2, 3], nonce: vec![9; 12] };
    let copy = data.clone();
    assert_eq!(copy.salt, vec![1, 2, 3]);
    assert_eq!(copy.nonce, vec![9; 12]);
}
