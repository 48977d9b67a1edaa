use passvault::codec::load_bytes;
use passvault::codec::persist_bytes;
use passvault::persistence::plan_startup;
use passvault::persistence::StartupAction;
use passvault::store::Entry;
use passvault::store::Store;
use passvault::VaultError;

fn sample_key() -> Vec<u8> {
    vec![11u8; 32]
}

#[test]
fn empty_store_image_is_exact() {
    let store = Store::empty();
    let image = persist_bytes(&store);
    assert_eq!(image, b"pv1\n-\n-\n".to_vec());
}

#[test]
fn round_trip_empty_store() {
    let store = Store::empty();
    let loaded = load_bytes(&persist_bytes(&store)).expect("load");
    assert_eq!(loaded, store);
}

#[test]
fn round_trip_initialized_store() {
    let mut store = Store::empty();
    store.set_passphrase(b"hunter2");
    let loaded = load_bytes(&persist_bytes(&store)).expect("load");
    assert_eq!(loaded, store);
}

#[test]
fn round_trip_single_entry_with_username() {
    let mut store = Store::empty();
    let key = store.set_passphrase(b"hunter2");
    let entry = Entry::from_unencrypted(Some(b"me@x.com"), b"p@ss", &key).unwrap();
    store.put("email".to_string(), entry);
    let loaded = load_bytes(&persist_bytes(&store)).expect("load");
    assert_eq!(loaded, store);
    let plain = loaded.get("email").unwrap().decrypt(&key).unwrap();
    assert_eq!(plain.password, b"p@ss".to_vec());
}

#[test]
fn round_trip_entries_with_and_without_usernames() {
    let key = sample_key();
    let mut store = Store::empty();
    store.put("a".to_string(), Entry::from_unencrypted(Some(b"u1"), b"p1", &key).unwrap());
    store.put("b".to_string(), Entry::from_unencrypted(None, b"p2", &key).unwrap());
    store.put(
        "unicode-nämé ÿ".to_string(),
        Entry::from_unencrypted(Some(b"u3"), b"p3", &key).unwrap(),
    );
    store.put("".to_string(), Entry::from_unencrypted(None, b"", &key).unwrap());
    let loaded = load_bytes(&persist_bytes(&store)).expect("load");
    assert_eq!(loaded, store);
}

#[test]
fn load_rejects_bad_magic() {
    assert_eq!(load_bytes(b"pv2\n-\n-\n").unwrap_err(), VaultError::Format);
    assert_eq!(load_bytes(b"\n-\n-\n").unwrap_err(), VaultError::Format);
    assert_eq!(load_bytes(b"").unwrap_err(), VaultError::Format);
}

#[test]
fn load_rejects_missing_lines() {
    assert_eq!(load_bytes(b"pv1\n").unwrap_err(), VaultError::Format);
    assert_eq!(load_bytes(b"pv1\n-\n").unwrap_err(), VaultError::Format);
    assert_eq!(load_bytes(b"pv1\n-\n-").unwrap_err(), VaultError::Format);
}

#[test]
fn load_rejects_verifier_without_salt() {
    assert_eq!(load_bytes(b"pv1\nab\n-\n").unwrap_err(), VaultError::Format);
    assert_eq!(load_bytes(b"pv1\n-\nab\n").unwrap_err(), VaultError::Format);
}

#[test]
fn load_rejects_bad_hex() {
    // Odd digit count, upper-case digits, and non-digits are all refused.
    assert_eq!(load_bytes(b"pv1\nabc\n-\n").unwrap_err(), VaultError::Format);
    assert_eq!(load_bytes(b"pv1\nAB\nab\n").unwrap_err(), VaultError::Format);
    assert_eq!(load_bytes(b"pv1\nzz\nab\n").unwrap_err(), VaultError::Format);
}

#[test]
fn load_rejects_malformed_entry_lines() {
    // Too few fields, a fifth field, a bad nonce length, a duplicate name.
    let head = b"pv1\n-\n-\n".to_vec();
    let mut missing_field = head.clone();
    missing_field.extend_from_slice(b"ab cd ef\n");
    assert_eq!(load_bytes(&missing_field).unwrap_err(), VaultError::Format);

    let mut extra_field = head.clone();
    extra_field.extend_from_slice(b"ab cd - 000000000000000000000000 ff\n");
    assert_eq!(load_bytes(&extra_field).unwrap_err(), VaultError::Format);

    let mut short_nonce = head.clone();
    short_nonce.extend_from_slice(b"ab cd - 0000\n");
    assert_eq!(load_bytes(&short_nonce).unwrap_err(), VaultError::Format);

    let mut good = head.clone();
    good.extend_from_slice(b"6869 cd - 000000000000000000000000\n");
    assert!(load_bytes(&good).is_ok());

    let mut duplicate = good.clone();
    duplicate.extend_from_slice(b"6869 99 - 000000000000000000000001\n");
    assert_eq!(load_bytes(&duplicate).unwrap_err(), VaultError::Format);

    let mut unterminated = head.clone();
    unterminated.extend_from_slice(b"6869 cd - 000000000000000000000000");
    assert_eq!(load_bytes(&unterminated).unwrap_err(), VaultError::Format);
}

#[test]
fn load_rejects_name_that_is_not_utf8() {
    // 0xff alone is not valid UTF-8.
    assert_eq!(
        load_bytes(b"pv1\n-\n-\nff cd - 000000000000000000000000\n").unwrap_err(),
        VaultError::Format
    );
}

#[test]
fn loaded_entry_fields_decode_from_hex() {
    let loaded = load_bytes(b"pv1\n-\n-\n6869 00ff - 0102030405060708090a0b0c\n").unwrap();
    let entry = loaded.get("hi").expect("name decodes from hex");
    assert_eq!(entry.password_ct, vec![0x00, 0xff]);
    assert_eq!(entry.username_ct, None);
    assert_eq!(entry.nonce, vec![1, 2, 3, 4, 5, 6, 7, 8, 9, 10, 11, 12]);
}

#[test]
fn startup_plan_restores_backup_when_primary_empty() {
    // Recovery: a zero-length primary beside a backup is always restored,
    // after which the primary's content is the backup's content whole.
    assert_eq!(plan_startup(true, true, true), StartupAction::RestoreBackup);
    assert_eq!(plan_startup(false, true, true), StartupAction::RestoreBackup);
}

#[test]
fn startup_plan_initializes_fresh_without_backup() {
    assert_eq!(plan_startup(true, true, false), StartupAction::InitializeFresh);
    assert_eq!(plan_startup(false, true, false), StartupAction::InitializeFresh);
}

#[test]
fn startup_plan_loads_nonempty_primary() {
    assert_eq!(plan_startup(true, false, true), StartupAction::LoadPrimary);
    assert_eq!(plan_startup(true, false, false), StartupAction::LoadPrimary);
}

#[test]
fn login_succeeds_against_reloaded_store() {
    let mut store = Store::empty();
    let key = store.set_passphrase(b"hunter2");
    let entry = Entry::from_unencrypted(Some(b"me@x.com"), b"p@ss", &key).unwrap();
    store.put("email".to_string(), entry);

    let loaded = load_bytes(&persist_bytes(&store)).expect("load");
    let relogin = loaded.verify_passphrase(b"hunter2").expect("same passphrase verifies");
    assert_eq!(relogin, key);
    assert_eq!(
        loaded.verify_passphrase(b"wrong").unwrap_err(),
        VaultError::Authentication
    );
    let plain = loaded.get("email").unwrap().decrypt(&relogin).unwrap();
    assert_eq!(plain.password, b"p@ss".to_vec());
    assert_eq!(plain.username, Some(b"me@x.com".to_vec()));
}
