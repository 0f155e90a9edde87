//! Credential records and their ordered collection.
use vstd::prelude::*;

use crate::error::VaultError;

verus! {

/// What a record is, as plain sequences of characters.
pub struct RecordView {
    pub name: Seq<char>,
    pub username: Seq<char>,
    pub secret: Seq<char>,
}

/// One credential: the service it belongs to, the account, and the password.
///
/// A record does not change once it is made, and it cannot be printed.
#[derive(PartialEq, Eq)]
pub struct CredentialRecord {
    name: String,
    username: String,
    secret: String,
}

impl View for CredentialRecord {
    type V = RecordView;

    closed spec fn view(&self) -> RecordView {
        RecordView { name: self.name@, username: self.username@, secret: self.secret@ }
    }
}

impl Clone for CredentialRecord {
    fn clone(&self) -> (copy: Self)
        ensures
            copy@ == self@,
    {
        CredentialRecord {
            name: self.name.clone(),
            username: self.username.clone(),
            secret: self.secret.clone(),
        }
    }
}

impl CredentialRecord {
    /// A record from its three fields.
    pub fn new(name: &str, username: &str, secret: &str) -> (record: Self)
        ensures
            record@ == (RecordView { name: name@, username: username@, secret: secret@ }),
    {
        CredentialRecord {
            name: name.to_owned(),
            username: username.to_owned(),
            secret: secret.to_owned(),
        }
    }

    /// A record from its three fields, taking them over.
    pub fn from_parts(name: String, username: String, secret: String) -> (record: Self)
        ensures
            record@ == (RecordView { name: name@, username: username@, secret: secret@ }),
    {
        CredentialRecord { name, username, secret }
    }

    /// The service the credential belongs to.
    pub fn name(&self) -> (name: &str)
        ensures
            name@ == self@.name,
    {
        self.name.as_str()
    }

    /// The account.
    pub fn username(&self) -> (username: &str)
        ensures
            username@ == self@.username,
    {
        self.username.as_str()
    }

    /// The password.
    pub fn secret(&self) -> (secret: &str)
        ensures
            secret@ == self@.secret,
    {
        self.secret.as_str()
    }
}

/// `i` is the position of a record called `name`, and no earlier record has that name.
pub open spec fn is_first_named(records: Seq<RecordView>, name: Seq<char>, i: int) -> bool {
    &&& 0 <= i < records.len()
    &&& records[i].name == name
    &&& forall|j: int| 0 <= j < i ==> records[j].name != name
}

/// `record` is the first record of `records` called `name`.
pub open spec fn is_first_match(records: Seq<RecordView>, name: Seq<char>, record: RecordView) -> bool {
    exists|i: int| is_first_named(records, name, i) && records[i] == record
}

/// No record of `records` is called `name`.
pub open spec fn none_named(records: Seq<RecordView>, name: Seq<char>) -> bool {
    forall|i: int| 0 <= i < records.len() ==> (#[trigger] records[i]).name != name
}

/// The records of a vault, in the order in which they were added.
///
/// Names need not be unique: a lookup gives the first record of that name.
#[derive(PartialEq, Eq)]
pub struct VaultContents {
    records: Vec<CredentialRecord>,
}

/// The records of `records` as plain values, in the same order.
pub open spec fn views_of(records: Seq<CredentialRecord>) -> Seq<RecordView> {
    Seq::new(records.len(), |i: int| records[i]@)
}

impl View for VaultContents {
    type V = Seq<RecordView>;

    closed spec fn view(&self) -> Seq<RecordView> {
        views_of(self.records@)
    }
}

impl VaultContents {
    /// A collection without records.
    pub fn new() -> (contents: Self)
        ensures
            contents@ == Seq::<RecordView>::empty(),
    {
        VaultContents { records: Vec::new() }
    }

    /// The collection of `records`, in their order.
    pub fn from_records(records: Vec<CredentialRecord>) -> (contents: Self)
        ensures
            contents@ == views_of(records@),
    {
        VaultContents { records }
    }

    /// The number of records.
    pub fn len(&self) -> (n: usize)
        ensures
            n == self@.len(),
    {
        self.records.len()
    }

    /// Appends `record`; the earlier records keep their places.
    pub fn add(&mut self, record: CredentialRecord)
        ensures
            final(self)@ == old(self)@.push(record@),
    {
        self.records.push(record);
    }

    /// The records in insertion order.
    pub fn list(&self) -> (records: &[CredentialRecord])
        ensures
            views_of(records@) == self@,
    {
        self.records.as_slice()
    }

    /// The first record called `name`, or `NotFound` where no record has that name.
    pub fn find(&self, name: &str) -> (found: Result<&CredentialRecord, VaultError>)
        ensures
            match found {
                Ok(record) => is_first_match(self@, name@, record@),
                Err(e) => e == VaultError::NotFound && none_named(self@, name@),
            },
    {
        let wanted = name.to_owned();
        let mut i: usize = 0;
        while i < self.records.len()
            invariant
                i <= self.records.len(),
                wanted@ == name@,
                forall|j: int| 0 <= j < i ==> (#[trigger] self@[j]).name != name@,
            decreases self.records.len() - i,
        {
            if self.records[i].name == wanted {
                assert(is_first_named(self@, name@, i as int));
                return Ok(&self.records[i]);
            }
            i += 1;
        }
        Err(VaultError::NotFound)
    }
}

} // verus!
