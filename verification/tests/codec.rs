use credential_vault::codec::{decode, encode};
use credential_vault::error::VaultError;
use credential_vault::record::{CredentialRecord, VaultContents};

fn sample() -> VaultContents {
    let mut contents = VaultContents::new();
    contents.add(CredentialRecord::new("github", "alice", "p@ss"));
    contents.add(CredentialRecord::new("mail", "älice", "пароль✓"));
    contents.add(CredentialRecord::new("", "", ""));
    contents
}

fn as_tuples(contents: &VaultContents) -> Vec<(String, String, String)> {
    contents
        .list()
        .iter()
        .map(|r| (r.name().to_string(), r.username().to_string(), r.secret().to_string()))
        .collect()
}

#[test]
fn encode_of_no_records_is_the_number_zero() {
    assert!(encode(&VaultContents::new()) == vec![0u8; 8]);
}

#[test]
fn encode_of_one_record_is_exact() {
    let mut contents = VaultContents::new();
    contents.add(CredentialRecord::new("gh", "al", "p@ss"));
    let expected: Vec<u8> = vec![
        1, 0, 0, 0, 0, 0, 0, 0, // one record
        2, 0, 0, 0, 0, 0, 0, 0, b'g', b'h', // name
        2, 0, 0, 0, 0, 0, 0, 0, b'a', b'l', // username
        4, 0, 0, 0, 0, 0, 0, 0, b'p', b'@', b's', b's', // secret
    ];
    assert_eq!(encode(&contents), expected);
}

#[test]
fn encode_counts_utf8_bytes_not_characters() {
    let mut contents = VaultContents::new();
    contents.add(CredentialRecord::new("é", "", ""));
    let bytes = encode(&contents);
    assert_eq!(&bytes[8..16], &[2, 0, 0, 0, 0, 0, 0, 0]);
    assert_eq!(&bytes[16..18], &[0xC3, 0xA9]);
    assert_eq!(bytes.len(), 8 + 10 + 8 + 8);
}

#[test]
fn encode_writes_lengths_little_endian() {
    let long = "x".repeat(0x0102_03);
    let mut contents = VaultContents::new();
    contents.add(CredentialRecord::new(&long, "", ""));
    let bytes = encode(&contents);
    assert_eq!(&bytes[8..16], &[0x03, 0x02, 0x01, 0, 0, 0, 0, 0]);
}

#[test]
fn encode_is_what_bincode_writes() {
    let contents = sample();
    let expected = bincode::serialize(&as_tuples(&contents)).unwrap();
    assert_eq!(encode(&contents), expected);
}

#[test]
fn bincode_reads_what_encode_wrote() {
    let contents = sample();
    let read: Vec<(String, String, String)> = bincode::deserialize(&encode(&contents)).unwrap();
    assert_eq!(read, as_tuples(&contents));
}

#[test]
fn decode_undoes_encode() {
    let contents = sample();
    assert!(decode(&encode(&contents)) == Ok(sample()));
    assert!(decode(&encode(&VaultContents::new())) == Ok(VaultContents::new()));
}

#[test]
fn decode_keeps_the_order_of_records() {
    let decoded = decode(&encode(&sample())).unwrap();
    let names: Vec<&str> = decoded.list().iter().map(|r| r.name()).collect();
    assert_eq!(names, vec!["github", "mail", ""]);
}

#[test]
fn decode_ignores_bytes_after_the_encoding() {
    let mut bytes = encode(&sample());
    bytes.extend_from_slice(&[0xFF, 0x00, 0x7F]);
    assert!(decode(&bytes) == Ok(sample()));
    let read: Vec<(String, String, String)> = bincode::deserialize(&bytes).unwrap();
    assert!(read == as_tuples(&sample()));
}

#[test]
fn decode_of_every_cut_encoding_is_malformed() {
    let bytes = encode(&sample());
    for cut in 0..bytes.len() {
        assert!(decode(&bytes[..cut]) == Err(VaultError::MalformedRecords), "cut at {}", cut);
    }
}

#[test]
fn decode_of_nothing_is_malformed() {
    assert!(decode(&[]) == Err(VaultError::MalformedRecords));
}

#[test]
fn decode_of_a_text_that_is_not_utf8_is_malformed() {
    let mut bytes = vec![1u8, 0, 0, 0, 0, 0, 0, 0];
    bytes.extend_from_slice(&[2, 0, 0, 0, 0, 0, 0, 0, 0xC3, 0x28]);
    bytes.extend_from_slice(&[0u8; 8]);
    bytes.extend_from_slice(&[0u8; 8]);
    assert!(decode(&bytes) == Err(VaultError::MalformedRecords));
}

#[test]
fn decode_of_a_length_past_the_end_is_malformed() {
    let mut bytes = vec![1u8, 0, 0, 0, 0, 0, 0, 0];
    bytes.extend_from_slice(&[0xFF; 8]);
    bytes.extend_from_slice(&[b'a'; 40]);
    assert!(decode(&bytes) == Err(VaultError::MalformedRecords));
}

#[test]
fn decode_of_a_count_without_records_is_malformed() {
    assert!(decode(&[0xFF; 8]) == Err(VaultError::MalformedRecords));
    assert!(decode(&[2, 0, 0, 0, 0, 0, 0, 0]) == Err(VaultError::MalformedRecords));
}

#[test]
fn decode_reads_lengths_little_endian() {
    let mut bytes = vec![1u8, 0, 0, 0, 0, 0, 0, 0];
    bytes.extend_from_slice(&[0x00, 0x01, 0, 0, 0, 0, 0, 0]);
    bytes.extend_from_slice(&[b'n'; 256]);
    bytes.extend_from_slice(&[0u8; 16]);
    let decoded = decode(&bytes).unwrap();
    assert_eq!(decoded.len(), 1);
    assert!(decoded.list()[0].name() == "n".repeat(256));
}

#[test]
fn adding_a_record_appends_its_bytes() {
    let mut contents = sample();
    let before = encode(&contents);
    contents.add(CredentialRecord::new("new", "user", "pw"));
    let after = encode(&contents);
    let mut one = VaultContents::new();
    one.add(CredentialRecord::new("new", "user", "pw"));
    let alone = encode(&one);
    assert_eq!(&after[..8], &[4, 0, 0, 0, 0, 0, 0, 0]);
    assert_eq!(&after[8..before.len()], &before[8..]);
    assert_eq!(&after[before.len()..], &alone[8..]);
}

#[test]
fn collections_that_differ_have_encodings_that_differ() {
    let mut first = VaultContents::new();
    first.add(CredentialRecord::new("ab", "c", ""));
    let mut second = VaultContents::new();
    second.add(CredentialRecord::new("a", "bc", ""));
    let mut third = VaultContents::new();
    third.add(CredentialRecord::new("ab", "", "c"));
    let encodings = [encode(&first), encode(&second), encode(&third)];
    assert_ne!(encodings[0], encodings[1]);
    assert_ne!(encodings[0], encodings[2]);
    assert_ne!(encodings[1], encodings[2]);
    assert!(decode(&encodings[0]) == Ok(first));
    assert!(decode(&encodings[1]) == Ok(second));
    assert!(decode(&encodings[2]) == Ok(third));
}
