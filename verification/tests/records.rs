use credential_vault::error::VaultError;
use credential_vault::record::{CredentialRecord, VaultContents};

#[test]
fn new_contents_hold_no_records() {
    let contents = VaultContents::new();
    assert_eq!(contents.len(), 0);
    assert!(contents.list().is_empty());
}

#[test]
fn add_appends_and_keeps_earlier_records() {
    let mut contents = VaultContents::new();
    contents.add(CredentialRecord::new("b", "u1", "s1"));
    contents.add(CredentialRecord::new("a", "u2", "s2"));
    contents.add(CredentialRecord::new("c", "u3", "s3"));
    assert_eq!(contents.len(), 3);
    let names: Vec<&str> = contents.list().iter().map(|r| r.name()).collect();
    assert_eq!(names, vec!["b", "a", "c"]);
}

#[test]
fn find_gives_the_record_of_that_name() {
    let mut contents = VaultContents::new();
    contents.add(CredentialRecord::new("github", "alice", "p@ss"));
    contents.add(CredentialRecord::new("mail", "bob", "hunter2"));
    assert!(contents.find("mail") == Ok(&CredentialRecord::new("mail", "bob", "hunter2")));
}

#[test]
fn find_gives_the_first_of_two_records_of_one_name() {
    let mut contents = VaultContents::new();
    contents.add(CredentialRecord::new("x", "other", "0"));
    contents.add(CredentialRecord::new("github", "first", "1"));
    contents.add(CredentialRecord::new("github", "second", "2"));
    assert_eq!(contents.len(), 3);
    assert!(contents.find("github").unwrap().username() == "first");
}

#[test]
fn find_of_an_absent_name_is_not_found() {
    let mut contents = VaultContents::new();
    assert!(contents.find("github") == Err(VaultError::NotFound));
    contents.add(CredentialRecord::new("github", "alice", "p@ss"));
    assert!(contents.find("GitHub") == Err(VaultError::NotFound));
    assert!(contents.find("githu") == Err(VaultError::NotFound));
    assert!(contents.find("") == Err(VaultError::NotFound));
}

#[test]
fn clone_of_a_record_equals_it() {
    let record = CredentialRecord::new("github", "alice", "p@ss");
    assert!(record.clone() == record);
}

#[test]
fn messages_name_the_outcome_and_differ() {
    let all = [
        VaultError::NotFound,
        VaultError::AlreadyExists,
        VaultError::AuthenticationFailed,
        VaultError::MalformedRecords,
        VaultError::KeyDerivationFailed,
        VaultError::PlaintextTooLarge,
        VaultError::IoFailure,
    ];
    assert_eq!(VaultError::AuthenticationFailed.message(), "authentication failed");
    assert_eq!(VaultError::NotFound.message(), "not found");
    for (i, a) in all.iter().enumerate() {
        for b in all.iter().skip(i + 1) {
            assert_ne!(a.message(), b.message());
        }
    }
}
