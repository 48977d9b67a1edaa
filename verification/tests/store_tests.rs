use passvault::session::create_session;
use passvault::session::derive_key;
use passvault::session::Session;
use passvault::store::Entry;
use passvault::store::Store;
use passvault::VaultError;
use std::collections::HashSet;

fn key_of(passphrase: &[u8]) -> Vec<u8> {
    derive_key(passphrase)
}

#[test]
fn derive_key_pads_with_zeros_to_32() {
    let k = derive_key(b"hunter2");
    assert_eq!(k.len(), 32);
    assert_eq!(&k[..7], b"hunter2");
    assert!(k[7..].iter().all(|&b| b == 0));
    let full = derive_key(&[7u8; 32]);
    assert_eq!(full, vec![7u8; 32]);
}

#[test]
fn set_passphrase_then_verify_returns_same_key() {
    // For all passphrases and salts: verifying the passphrase that was set
    // succeeds and returns the key that setting it returned.
    let mut store = Store::empty();
    assert!(!store.is_initialized());
    let key = store.set_passphrase(b"hunter2");
    assert!(store.is_initialized());
    let verified = store.verify_passphrase(b"hunter2").expect("must verify");
    assert_eq!(key, verified);
    assert_eq!(key, key_of(b"hunter2"));
}

#[test]
fn verify_with_wrong_passphrase_fails() {
    let mut store = Store::empty();
    store.set_passphrase(b"hunter2");
    assert_eq!(store.verify_passphrase(b"hunter3"), Err(VaultError::Authentication));
    assert_eq!(store.verify_passphrase(b""), Err(VaultError::Authentication));
    assert_eq!(store.verify_passphrase(b"hunter2 "), Err(VaultError::Authentication));
}

#[test]
fn salt_has_passphrase_length_and_verifier_is_set() {
    let mut store = Store::empty();
    store.set_passphrase(b"hunter2");
    assert_eq!(store.master_salt.as_ref().unwrap().len(), 7);
    assert_eq!(store.master.as_ref().unwrap().len(), 32);
}

#[test]
fn entry_round_trip_with_username() {
    let key = vec![3u8; 32];
    let entry = Entry::from_unencrypted(Some(b"me@x.com"), b"p@ss", &key).unwrap();
    let plain = entry.decrypt(&key).unwrap();
    assert_eq!(plain.password, b"p@ss".to_vec());
    assert_eq!(plain.username, Some(b"me@x.com".to_vec()));
}

#[test]
fn entry_round_trip_without_username() {
    let key = vec![200u8; 32];
    let entry = Entry::from_unencrypted(None, b"secret password bytes", &key).unwrap();
    let plain = entry.decrypt(&key).unwrap();
    assert_eq!(plain.password, b"secret password bytes".to_vec());
    assert_eq!(plain.username, None);
}

#[test]
fn entry_round_trip_empty_password() {
    let key = vec![0u8; 32];
    let entry = Entry::from_unencrypted(None, b"", &key).unwrap();
    let plain = entry.decrypt(&key).unwrap();
    assert_eq!(plain.password, Vec::<u8>::new());
}

#[test]
fn entry_rejects_bad_key_length() {
    assert_eq!(
        Entry::from_unencrypted(None, b"p", &[1u8; 31]).unwrap_err(),
        VaultError::Crypto
    );
    assert_eq!(
        Entry::from_unencrypted(None, b"p", &[1u8; 33]).unwrap_err(),
        VaultError::Crypto
    );
    let key = vec![1u8; 32];
    let entry = Entry::from_unencrypted(None, b"p", &key).unwrap();
    assert_eq!(entry.decrypt(&[1u8; 16]).unwrap_err(), VaultError::Crypto);
}

#[test]
fn decrypt_with_wrong_key_is_authentication_error() {
    let key = vec![3u8; 32];
    let mut wrong = key.clone();
    wrong[31] ^= 1;
    let entry = Entry::from_unencrypted(Some(b"user"), b"pass", &key).unwrap();
    assert_eq!(entry.decrypt(&wrong).unwrap_err(), VaultError::Authentication);
}

#[test]
fn encryption_is_deterministic_under_fixed_nonce() {
    let key = vec![9u8; 32];
    let entry = Entry::from_unencrypted(None, b"x", &key).unwrap();
    let a = entry.encrypt(b"same data", &key).unwrap();
    let b = entry.encrypt(b"same data", &key).unwrap();
    assert_eq!(a, b);
    assert_eq!(a.len(), b"same data".len() + 16);
}

#[test]
fn tampering_any_single_bit_fails_decryption() {
    let key = vec![42u8; 32];
    let entry = Entry::from_unencrypted(Some(b"usr"), b"pwd!", &key).unwrap();

    for i in 0..entry.password_ct.len() {
        for bit in 0..8 {
            let mut tampered = entry.clone();
            tampered.password_ct[i] ^= 1 << bit;
            assert_eq!(
                tampered.decrypt(&key).unwrap_err(),
                VaultError::Authentication,
                "password_ct byte {i} bit {bit}"
            );
        }
    }
    let uct_len = entry.username_ct.as_ref().unwrap().len();
    for i in 0..uct_len {
        for bit in 0..8 {
            let mut tampered = entry.clone();
            tampered.username_ct.as_mut().unwrap()[i] ^= 1 << bit;
            assert_eq!(
                tampered.decrypt(&key).unwrap_err(),
                VaultError::Authentication,
                "username_ct byte {i} bit {bit}"
            );
        }
    }
    for i in 0..entry.nonce.len() {
        for bit in 0..8 {
            let mut tampered = entry.clone();
            tampered.nonce[i] ^= 1 << bit;
            assert_eq!(
                tampered.decrypt(&key).unwrap_err(),
                VaultError::Authentication,
                "nonce byte {i} bit {bit}"
            );
        }
    }
}

#[test]
fn nonces_are_unique_across_ten_thousand_entries() {
    let mut seen: HashSet<Vec<u8>> = HashSet::new();
    for _ in 0..10_000 {
        let entry = Entry::new(Vec::new(), None);
        assert_eq!(entry.nonce.len(), 12);
        assert!(seen.insert(entry.nonce), "nonce repeated");
    }
}

#[test]
fn put_get_remove_list() {
    let key = vec![5u8; 32];
    let mut store = Store::empty();
    let e1 = Entry::from_unencrypted(Some(b"alice"), b"one", &key).unwrap();
    let e2 = Entry::from_unencrypted(Some(b"bob"), b"two", &key).unwrap();
    store.put("site-b".to_string(), e1);
    store.put("site-a".to_string(), e2);
    assert_eq!(store.list_names(), vec!["site-a".to_string(), "site-b".to_string()]);

    let got = store.get("site-a").expect("present");
    let plain = got.decrypt(&key).unwrap();
    assert_eq!(plain.username, Some(b"bob".to_vec()));
    assert!(store.get("site-c").is_none());

    // Overwrite whole, no merge.
    let e3 = Entry::from_unencrypted(None, b"three", &key).unwrap();
    store.put("site-a".to_string(), e3);
    assert_eq!(store.entries.len(), 2);
    let plain = store.get("site-a").unwrap().decrypt(&key).unwrap();
    assert_eq!(plain.password, b"three".to_vec());
    assert_eq!(plain.username, None);

    assert!(store.remove("site-b"));
    assert!(!store.remove("site-b"));
    assert_eq!(store.list_names(), vec!["site-a".to_string()]);
}

#[test]
fn list_names_sorts_lexicographically() {
    let key = vec![5u8; 32];
    let mut store = Store::empty();
    for name in ["pear", "apple", "banana", "Apple", "apple2", ""] {
        let e = Entry::from_unencrypted(None, b"x", &key).unwrap();
        store.put(name.to_string(), e);
    }
    assert_eq!(
        store.list_names(),
        vec![
            "".to_string(),
            "Apple".to_string(),
            "apple".to_string(),
            "apple2".to_string(),
            "banana".to_string(),
            "pear".to_string(),
        ]
    );
}

#[test]
fn scenario_fresh_vault_full_session() {
    // Fresh empty vault, set passphrase, add, read back, remove, list.
    let mut store = Store::empty();
    let key = store.set_passphrase(b"hunter2");
    let entry = Entry::from_unencrypted(Some(b"me@x.com"), b"p@ss", &key).unwrap();
    store.put("email".to_string(), entry);
    let got = store.get("email").expect("entry present");
    let plain = got.decrypt(&key).unwrap();
    assert_eq!(plain.username, Some(b"me@x.com".to_vec()));
    assert_eq!(plain.password, b"p@ss".to_vec());
    assert!(store.remove("email"));
    assert!(store.list_names().is_empty());
}

#[test]
fn scenario_wrong_passphrase_opens_no_session() {
    let mut store = Store::empty();
    store.set_passphrase(b"hunter2");
    let attempt = create_session(&store, b"letmein");
    match attempt {
        Ok(_) => panic!("wrong passphrase must not open a session"),
        Err(e) => assert_eq!(e, VaultError::Authentication),
    }
}

#[test]
fn session_holds_key_and_scrub_empties_it() {
    let mut store = Store::empty();
    let key = store.set_passphrase(b"hunter2");
    let mut session = create_session(&store, b"hunter2").expect("login");
    assert_eq!(session.key_bytes(), &key);
    session.scrub();
    assert!(session.key_bytes().is_empty());
}

#[test]
fn session_begin_wraps_key() {
    let mut session = Session::begin(vec![1u8; 32]);
    assert_eq!(session.key_bytes(), &vec![1u8; 32]);
    session.scrub();
    assert!(session.key_bytes().is_empty());
}

#[test]
fn verifier_is_salted_digest_of_passphrase() {
    let mut store = Store::empty();
    store.set_passphrase(b"hunter2");
    let salt = store.master_salt.clone().unwrap();
    let recomputed = passvault::crypto_utils::hash_and_salt(b"hunter2", &salt);
    assert_eq!(store.master, Some(recomputed));
}
