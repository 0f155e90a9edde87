use credential_vault::codec::encode;
use credential_vault::container::{seal, stored_salt};
use credential_vault::error::VaultError;
use credential_vault::kdf::derive_key;
use credential_vault::record::{CredentialRecord, VaultContents};
use credential_vault::vault::{init, init_with_salt, open};

const SALT: [u8; 16] = [1, 2, 3, 4, 5, 6, 7, 8, 9, 10, 11, 12, 13, 14, 15, 16];

fn github() -> CredentialRecord {
    CredentialRecord::new("github", "alice", "p@ss")
}

#[test]
fn init_then_open_yields_no_records() {
    let blob = init(false, "hunter2").unwrap();
    let handle = open(Some(&blob), "hunter2").unwrap();
    assert!(handle.list().is_empty());
    assert!(handle.list().is_empty());
}

#[test]
fn add_persist_reopen_find_returns_the_record() {
    let blob = init(false, "hunter2").unwrap();
    let mut handle = open(Some(&blob), "hunter2").unwrap();
    handle.add(github());
    let stored = handle.persist("hunter2").unwrap();
    let reopened = open(Some(&stored), "hunter2").unwrap();
    assert!(reopened.find("github") == Ok(&github()));
    assert!(reopened.list() == &[github()]);
}

#[test]
fn open_with_the_wrong_secret_fails_to_authenticate() {
    let blob = init(false, "hunter2").unwrap();
    let mut handle = open(Some(&blob), "hunter2").unwrap();
    handle.add(github());
    let stored = handle.persist("hunter2").unwrap();
    assert!(open(Some(&stored), "wrongpass") == Err(VaultError::AuthenticationFailed));
}

#[test]
fn wrong_secret_and_altered_file_give_the_same_error() {
    let blob = init_with_salt(false, "hunter2", &SALT).unwrap();
    let wrong_secret = open(Some(&blob), "hunter3").err().unwrap();
    let mut altered = blob.clone();
    let last = altered.len() - 1;
    altered[last] ^= 1;
    let altered_tag = open(Some(&altered), "hunter2").err().unwrap();
    let mut altered = blob.clone();
    altered[0] ^= 1;
    let altered_salt = open(Some(&altered), "hunter2").err().unwrap();
    let cut = open(Some(&blob[..43]), "hunter2").err().unwrap();
    assert_eq!(wrong_secret, VaultError::AuthenticationFailed);
    assert_eq!(altered_tag, wrong_secret);
    assert_eq!(altered_salt, wrong_secret);
    assert_eq!(cut, wrong_secret);
}

#[test]
fn init_on_an_occupied_path_fails() {
    assert_eq!(init(true, "hunter2"), Err(VaultError::AlreadyExists));
    assert_eq!(init_with_salt(true, "hunter2", &SALT), Err(VaultError::AlreadyExists));
}

#[test]
fn init_with_salt_puts_that_salt_in_front() {
    let blob = init_with_salt(false, "hunter2", &SALT).unwrap();
    assert_eq!(stored_salt(&blob), Ok(SALT));
    assert_eq!(blob.len(), 16 + 12 + 8 + 16);
    assert!(open(Some(&blob), "hunter2").unwrap().salt() == &SALT);
}

#[test]
fn init_draws_a_new_salt_each_time() {
    let first = init(false, "hunter2").unwrap();
    let second = init(false, "hunter2").unwrap();
    assert_ne!(stored_salt(&first), stored_salt(&second));
}

#[test]
fn open_of_a_missing_file_is_not_found() {
    assert!(open(None, "hunter2") == Err(VaultError::NotFound));
}

#[test]
fn open_of_a_short_file_fails_to_authenticate() {
    assert!(open(Some(&[]), "hunter2") == Err(VaultError::AuthenticationFailed));
    assert!(open(Some(&[0u8; 43]), "hunter2") == Err(VaultError::AuthenticationFailed));
}

#[test]
fn open_of_sealed_bytes_that_are_no_records_is_malformed() {
    let key = derive_key("hunter2", &SALT).unwrap();
    let blob = seal(&[1, 0, 0, 0, 0, 0, 0, 0, 9], &key, &SALT).unwrap();
    assert!(open(Some(&blob), "hunter2") == Err(VaultError::MalformedRecords));
    assert!(open(Some(&blob), "hunter3") == Err(VaultError::AuthenticationFailed));
}

#[test]
fn open_reads_what_was_sealed_under_the_derived_key() {
    let mut contents = VaultContents::new();
    contents.add(github());
    contents.add(CredentialRecord::new("mail", "bob", "swordfish"));
    let key = derive_key("hunter2", &SALT).unwrap();
    let blob = seal(&encode(&contents), &key, &SALT).unwrap();
    let handle = open(Some(&blob), "hunter2").unwrap();
    assert!(handle.list() == contents.list());
    assert_eq!(handle.salt(), &SALT);
}

#[test]
fn add_does_not_change_what_is_stored() {
    let blob = init_with_salt(false, "hunter2", &SALT).unwrap();
    let mut handle = open(Some(&blob), "hunter2").unwrap();
    handle.add(github());
    assert!(handle.list().len() == 1);
    assert!(open(Some(&blob), "hunter2").unwrap().list().is_empty());
}

#[test]
fn persist_keeps_the_salt_and_changes_the_nonce() {
    let blob = init_with_salt(false, "hunter2", &SALT).unwrap();
    let handle = open(Some(&blob), "hunter2").unwrap();
    let first = handle.persist("hunter2").unwrap();
    let second = handle.persist("hunter2").unwrap();
    assert_eq!(stored_salt(&first), Ok(SALT));
    assert_eq!(stored_salt(&second), Ok(SALT));
    assert_ne!(&first[16..28], &blob[16..28]);
    assert_ne!(&first[16..28], &second[16..28]);
}

#[test]
fn persist_keeps_the_order_and_the_duplicates() {
    let blob = init_with_salt(false, "hunter2", &SALT).unwrap();
    let mut handle = open(Some(&blob), "hunter2").unwrap();
    handle.add(CredentialRecord::new("github", "first", "1"));
    handle.add(CredentialRecord::new("mail", "bob", "2"));
    handle.add(CredentialRecord::new("github", "second", "3"));
    let stored = handle.persist("hunter2").unwrap();
    let reopened = open(Some(&stored), "hunter2").unwrap();
    let users: Vec<&str> = reopened.list().iter().map(|r| r.username()).collect();
    assert_eq!(users, vec!["first", "bob", "second"]);
    assert!(reopened.find("github").unwrap().username() == "first");
    assert!(reopened.find("gitlab") == Err(VaultError::NotFound));
}
