//! The byte encoding of a record collection, and its inverse.
//!
//! Every length is a 64-bit little-endian integer. A text is its UTF-8 length
//! followed by its UTF-8 bytes; a record is its three texts, name first; a
//! collection is the number of records followed by the records in order.
//! Nothing separates or closes the parts: each prefix says where it ends.
use vstd::prelude::*;
use vstd::utf8::*;
use vstd::string::StringSliceAdditionalSpecFns;

use crate::error::VaultError;
use crate::record::{views_of, CredentialRecord, RecordView, VaultContents};

verus! {

/// The eight bytes of `n`, least significant first.
pub open spec fn le_bytes(n: nat) -> Seq<u8> {
    seq![
        (n % 0x100) as u8,
        (n / 0x100 % 0x100) as u8,
        (n / 0x1_0000 % 0x100) as u8,
        (n / 0x100_0000 % 0x100) as u8,
        (n / 0x1_0000_0000 % 0x100) as u8,
        (n / 0x100_0000_0000 % 0x100) as u8,
        (n / 0x1_0000_0000_0000 % 0x100) as u8,
        (n / 0x100_0000_0000_0000 % 0x100) as u8,
    ]
}

/// The number whose little-endian bytes are the first eight of `bytes`.
pub open spec fn le_value(bytes: Seq<u8>) -> nat
    recommends
        bytes.len() >= 8,
{
    (bytes[0] as nat) + (bytes[1] as nat) * 0x100 + (bytes[2] as nat) * 0x1_0000 + (
    bytes[3] as nat) * 0x100_0000 + (bytes[4] as nat) * 0x1_0000_0000 + (bytes[5] as nat)
        * 0x100_0000_0000 + (bytes[6] as nat) * 0x1_0000_0000_0000 + (bytes[7] as nat)
        * 0x100_0000_0000_0000
}

/// A text: the length of its UTF-8 form, then that form.
pub open spec fn encode_text(text: Seq<char>) -> Seq<u8> {
    le_bytes(encode_utf8(text).len()) + encode_utf8(text)
}

/// A record: name, username and secret, each as a text.
#[verifier::opaque]
pub open spec fn encode_record(record: RecordView) -> Seq<u8> {
    encode_text(record.name) + encode_text(record.username) + encode_text(record.secret)
}

/// The records one after the other, first record first.
pub open spec fn encode_records(records: Seq<RecordView>) -> Seq<u8>
    decreases records.len(),
{
    if records.len() == 0 {
        Seq::empty()
    } else {
        encode_record(records.first()) + encode_records(records.drop_first())
    }
}

/// A collection: the number of records, then the records.
pub open spec fn encode_spec(records: Seq<RecordView>) -> Seq<u8> {
    le_bytes(records.len()) + encode_records(records)
}

/// Every length in the encoding of `records` fits in 64 bits.
///
/// This holds of every collection that exists in memory.
pub open spec fn encodable(records: Seq<RecordView>) -> bool {
    &&& records.len() <= u64::MAX
    &&& forall|i: int| 0 <= i < records.len() ==> encodable_record(#[trigger] records[i])
}

/// Every text of `record` has a UTF-8 length that fits in 64 bits.
pub open spec fn encodable_record(record: RecordView) -> bool {
    &&& encode_utf8(record.name).len() <= u64::MAX
    &&& encode_utf8(record.username).len() <= u64::MAX
    &&& encode_utf8(record.secret).len() <= u64::MAX
}

/// Dividing twice by 256 at a time is dividing by the product.
proof fn lemma_div_256(n: nat, d: nat)
    requires
        d > 0,
    ensures
        n / (d * 0x100) == n / d / 0x100,
        n / d == (n / (d * 0x100)) * 0x100 + n / d % 0x100,
{
    let q = n / d;
    let r = n % d;
    assert(n == d * q + r) by {
        vstd::arithmetic::div_mod::lemma_fundamental_div_mod(n as int, d as int);
    }
    let q2 = q / 0x100;
    let r2 = q % 0x100;
    assert(n == q2 * (d * 0x100) + (d * r2 + r)) by (nonlinear_arith)
        requires
            n == d * q + r,
            q == q2 * 0x100 + r2,
    ;
    assert(0 <= d * r2 + r < d * 0x100) by (nonlinear_arith)
        requires
            0 <= r < d,
            0 <= r2 < 0x100,
            d > 0,
    ;
    vstd::arithmetic::div_mod::lemma_fundamental_div_mod_converse(
        n as int,
        (d * 0x100) as int,
        q2 as int,
        (d * r2 + r) as int,
    );
}

/// The digits of `n` in base 256, and what is left above the eighth.
proof fn lemma_base_256(n: nat)
    ensures
        n == n % 0x100 + (n / 0x100 % 0x100) * 0x100 + (n / 0x1_0000 % 0x100) * 0x1_0000 + (n
            / 0x100_0000 % 0x100) * 0x100_0000 + (n / 0x1_0000_0000 % 0x100) * 0x1_0000_0000 + (n
            / 0x100_0000_0000 % 0x100) * 0x100_0000_0000 + (n / 0x1_0000_0000_0000 % 0x100)
            * 0x1_0000_0000_0000 + (n / 0x100_0000_0000_0000) * 0x100_0000_0000_0000,
{
    lemma_div_256(n, 1);
    lemma_div_256(n, 0x100);
    lemma_div_256(n, 0x1_0000);
    lemma_div_256(n, 0x100_0000);
    lemma_div_256(n, 0x1_0000_0000);
    lemma_div_256(n, 0x100_0000_0000);
    lemma_div_256(n, 0x1_0000_0000_0000);
}

/// `le_value` undoes `le_bytes` on numbers of 64 bits.
pub proof fn lemma_le_value_of_le_bytes(n: nat)
    requires
        n <= u64::MAX,
    ensures
        le_bytes(n).len() == 8,
        le_value(le_bytes(n)) == n,
{
    lemma_base_256(n);
    assert(n / 0x100_0000_0000_0000 < 0x100);
}

/// The digit of `n` that stands at the place worth `place`.
proof fn lemma_digit(n: nat, place: nat, below: nat, digit: nat, above: nat)
    requires
        place > 0,
        below < place,
        digit < 0x100,
        n == (above * 0x100 + digit) * place + below,
    ensures
        n / place % 0x100 == digit,
{
    vstd::arithmetic::div_mod::lemma_fundamental_div_mod_converse(
        n as int,
        place as int,
        (above * 0x100 + digit) as int,
        below as int,
    );
    vstd::arithmetic::div_mod::lemma_fundamental_div_mod_converse(
        (above * 0x100 + digit) as int,
        0x100,
        above as int,
        digit as int,
    );
}

/// `le_bytes` undoes `le_value` on eight bytes.
pub proof fn lemma_le_bytes_of_le_value(bytes: Seq<u8>)
    requires
        bytes.len() == 8,
    ensures
        le_value(bytes) <= u64::MAX,
        le_bytes(le_value(bytes)) == bytes,
{
    let n = le_value(bytes);
    let b0 = bytes[0] as nat;
    let b1 = bytes[1] as nat;
    let b2 = bytes[2] as nat;
    let b3 = bytes[3] as nat;
    let b4 = bytes[4] as nat;
    let b5 = bytes[5] as nat;
    let b6 = bytes[6] as nat;
    let b7 = bytes[7] as nat;
    let a6 = b7;
    let a5 = a6 * 0x100 + b6;
    let a4 = a5 * 0x100 + b5;
    let a3 = a4 * 0x100 + b4;
    let a2 = a3 * 0x100 + b3;
    let a1 = a2 * 0x100 + b2;
    let a0 = a1 * 0x100 + b1;
    let l1 = b0;
    let l2 = l1 + b1 * 0x100;
    let l3 = l2 + b2 * 0x1_0000;
    let l4 = l3 + b3 * 0x100_0000;
    let l5 = l4 + b4 * 0x1_0000_0000;
    let l6 = l5 + b5 * 0x100_0000_0000;
    let l7 = l6 + b6 * 0x1_0000_0000_0000;
    lemma_digit(n, 1, 0, b0, a0);
    lemma_digit(n, 0x100, l1, b1, a1);
    lemma_digit(n, 0x1_0000, l2, b2, a2);
    lemma_digit(n, 0x100_0000, l3, b3, a3);
    lemma_digit(n, 0x1_0000_0000, l4, b4, a4);
    lemma_digit(n, 0x100_0000_0000, l5, b5, a5);
    lemma_digit(n, 0x1_0000_0000_0000, l6, b6, a6);
    lemma_digit(n, 0x100_0000_0000_0000, l7, b7, 0);
    assert(n / 1 == n);
    assert(le_bytes(n) =~= bytes);
}

fn push_len(out: &mut Vec<u8>, n: u64)
    ensures
        final(out)@ == old(out)@ + le_bytes(n as nat),
{
    out.push((n % 0x100) as u8);
    out.push((n / 0x100 % 0x100) as u8);
    out.push((n / 0x1_0000 % 0x100) as u8);
    out.push((n / 0x100_0000 % 0x100) as u8);
    out.push((n / 0x1_0000_0000 % 0x100) as u8);
    out.push((n / 0x100_0000_0000 % 0x100) as u8);
    out.push((n / 0x1_0000_0000_0000 % 0x100) as u8);
    out.push((n / 0x100_0000_0000_0000 % 0x100) as u8);
    assert(out@ =~= old(out)@ + le_bytes(n as nat));
}

fn push_text(out: &mut Vec<u8>, text: &str)
    ensures
        final(out)@ == old(out)@ + encode_text(text@),
        encode_utf8(text@).len() <= u64::MAX,
{
    let bytes = text.as_bytes();
    push_len(out, bytes.len() as u64);
    out.extend_from_slice(bytes);
    assert(out@ =~= old(out)@ + encode_text(text@));
}

fn push_record(out: &mut Vec<u8>, record: &CredentialRecord)
    ensures
        final(out)@ == old(out)@ + encode_record(record@),
        encodable_record(record@),
{
    push_text(out, record.name());
    push_text(out, record.username());
    push_text(out, record.secret());
    reveal(encode_record);
    assert(out@ =~= old(out)@ + encode_record(record@));
}

/// Joining byte sequences does not depend on the grouping.
proof fn lemma_join_assoc(a: Seq<u8>, b: Seq<u8>, c: Seq<u8>)
    ensures
        a + (b + c) == (a + b) + c,
        Seq::<u8>::empty() + a == a,
        a + Seq::<u8>::empty() == a,
{
    assert(a + (b + c) =~= (a + b) + c);
    assert(Seq::<u8>::empty() + a =~= a);
    assert(a + Seq::<u8>::empty() =~= a);
}

/// The encoding of no records is the eight bytes of the number zero.
pub proof fn lemma_encoding_len(records: Seq<RecordView>)
    ensures
        encode_spec(records).len() >= 8,
        records.len() == 0 ==> encode_spec(records).len() == 8,
{
}

/// Encoding one more record appends its bytes.
pub proof fn lemma_encode_records_push(records: Seq<RecordView>, record: RecordView)
    ensures
        encode_records(records.push(record)) == encode_records(records) + encode_record(record),
    decreases records.len(),
{
    let longer = records.push(record);
    if records.len() == 0 {
        assert(records =~= Seq::<RecordView>::empty());
        assert(longer.drop_first() =~= Seq::<RecordView>::empty());
        assert(longer.first() == record);
        assert(encode_records(Seq::<RecordView>::empty()) == Seq::<u8>::empty());
        assert(encode_records(longer) == encode_record(record) + encode_records(
            longer.drop_first(),
        ));
        lemma_join_assoc(encode_record(record), Seq::empty(), Seq::empty());
    } else {
        let head = records.first();
        let tail = records.drop_first();
        lemma_encode_records_push(tail, record);
        assert(longer.drop_first() =~= tail.push(record));
        assert(longer.first() == head);
        assert(encode_records(longer) == encode_record(head) + encode_records(
            longer.drop_first(),
        ));
        assert(encode_records(records) == encode_record(head) + encode_records(tail));
        lemma_join_assoc(encode_record(head), encode_records(tail), encode_record(record));
    }
}

/// The encoding of `contents`.
pub fn encode(contents: &VaultContents) -> (bytes: Vec<u8>)
    ensures
        bytes@ == encode_spec(contents@),
        encodable(contents@),
{
    let mut out: Vec<u8> = Vec::new();
    let records = contents.list();
    let count = records.len();
    push_len(&mut out, count as u64);
    let mut i: usize = 0;
    while i < count
        invariant
            i <= count,
            count == records@.len(),
            views_of(records@) == contents@,
            out@ == le_bytes(count as nat) + encode_records(contents@.take(i as int)),
            forall|j: int| 0 <= j < i ==> encodable_record(#[trigger] contents@[j]),
        decreases count - i,
    {
        push_record(&mut out, &records[i]);
        proof {
            let before = contents@.take(i as int);
            let record = records@[i as int]@;
            assert(contents@.take(i + 1) =~= before.push(record));
            lemma_encode_records_push(before, record);
            assert(out@ =~= le_bytes(count as nat) + encode_records(before.push(record)));
            assert(contents@[i as int] == record);
        }
        i += 1;
    }
    assert(contents@.take(i as int) =~= contents@);
    out
}

/// `records` is what `bytes` decodes to: its encoding is what `bytes` begins with.
///
/// Bytes after the encoding are not looked at.
pub open spec fn decodes_to(bytes: Seq<u8>, records: Seq<RecordView>) -> bool {
    encodable(records) && encode_spec(records).is_prefix_of(bytes)
}

/// The records that `bytes` decodes to, if it decodes to any.
///
/// At most one collection qualifies: see [`lemma_decoding_unique`].
pub open spec fn decode_spec(bytes: Seq<u8>) -> Option<Seq<RecordView>> {
    if exists|records: Seq<RecordView>| decodes_to(bytes, records) {
        Some(choose|records: Seq<RecordView>| decodes_to(bytes, records))
    } else {
        None
    }
}

/// `part` stands in `bytes` at `pos`.
spec fn holds_at(bytes: Seq<u8>, pos: int, part: Seq<u8>) -> bool {
    &&& 0 <= pos
    &&& pos + part.len() <= bytes.len()
    &&& bytes.subrange(pos, pos + part.len()) == part
}

/// Two parts stand one after the other exactly when their join stands there.
proof fn lemma_holds_at_join(bytes: Seq<u8>, pos: int, a: Seq<u8>, b: Seq<u8>)
    ensures
        holds_at(bytes, pos, a + b) <==> holds_at(bytes, pos, a) && holds_at(
            bytes,
            pos + a.len(),
            b,
        ),
{
    if holds_at(bytes, pos, a + b) {
        let whole = bytes.subrange(pos, pos + (a + b).len());
        assert(bytes.subrange(pos, pos + a.len()) =~= whole.subrange(0, a.len() as int));
        assert(whole.subrange(0, a.len() as int) =~= a);
        assert(bytes.subrange(pos + a.len(), pos + a.len() + b.len()) =~= whole.subrange(
            a.len() as int,
            (a + b).len() as int,
        ));
        assert(whole.subrange(a.len() as int, (a + b).len() as int) =~= b);
    }
    if holds_at(bytes, pos, a) && holds_at(bytes, pos + a.len(), b) {
        assert(bytes.subrange(pos, pos + (a + b).len()) =~= bytes.subrange(pos, pos + a.len())
            + bytes.subrange(pos + a.len(), pos + a.len() + b.len()));
    }
}

/// The text that stands at `pos`, and where it ends.
#[verifier::opaque]
spec fn text_at(bytes: Seq<u8>, pos: int) -> Option<(Seq<char>, int)> {
    if pos < 0 || bytes.len() - pos < 8 {
        None
    } else {
        let n = le_value(bytes.subrange(pos, pos + 8));
        if bytes.len() - pos - 8 < n {
            None
        } else {
            let body = bytes.subrange(pos + 8, pos + 8 + n);
            if valid_utf8(body) {
                Some((decode_utf8(body), pos + 8 + n))
            } else {
                None
            }
        }
    }
}

proof fn lemma_text_at_sound(bytes: Seq<u8>, pos: int)
    requires
        text_at(bytes, pos) is Some,
    ensures
        ({
            let (text, next) = text_at(bytes, pos)->0;
            &&& holds_at(bytes, pos, encode_text(text))
            &&& next == pos + encode_text(text).len()
            &&& encode_utf8(text).len() <= u64::MAX
        }),
{
    reveal(text_at);
    let head = bytes.subrange(pos, pos + 8);
    let n = le_value(head);
    let body = bytes.subrange(pos + 8, pos + 8 + n);
    let text = decode_utf8(body);
    decode_utf8_encode_utf8(body);
    lemma_le_bytes_of_le_value(head);
    assert(holds_at(bytes, pos, head));
    assert(holds_at(bytes, pos + 8, body));
    lemma_holds_at_join(bytes, pos, head, body);
}

proof fn lemma_text_at_complete(bytes: Seq<u8>, pos: int, text: Seq<char>)
    requires
        holds_at(bytes, pos, encode_text(text)),
        encode_utf8(text).len() <= u64::MAX,
    ensures
        text_at(bytes, pos) == Some((text, pos + encode_text(text).len())),
{
    reveal(text_at);
    let n = encode_utf8(text).len();
    lemma_le_value_of_le_bytes(n);
    lemma_holds_at_join(bytes, pos, le_bytes(n), encode_utf8(text));
    encode_utf8_valid_utf8(text);
    encode_utf8_decode_utf8(text);
}

/// The record that stands at `pos`, and where it ends.
#[verifier::opaque]
spec fn record_at(bytes: Seq<u8>, pos: int) -> Option<(RecordView, int)> {
    match text_at(bytes, pos) {
        None => None,
        Some((name, after_name)) => match text_at(bytes, after_name) {
            None => None,
            Some((username, after_username)) => match text_at(bytes, after_username) {
                None => None,
                Some((secret, next)) => Some((RecordView { name, username, secret }, next)),
            },
        },
    }
}

proof fn lemma_record_at_sound(bytes: Seq<u8>, pos: int)
    requires
        record_at(bytes, pos) is Some,
    ensures
        ({
            let (record, next) = record_at(bytes, pos)->0;
            &&& holds_at(bytes, pos, encode_record(record))
            &&& next == pos + encode_record(record).len()
            &&& encodable_record(record)
        }),
{
    reveal(encode_record);
    reveal(record_at);
    let (name, after_name) = text_at(bytes, pos)->0;
    let (username, after_username) = text_at(bytes, after_name)->0;
    lemma_text_at_sound(bytes, pos);
    lemma_text_at_sound(bytes, after_name);
    lemma_text_at_sound(bytes, after_username);
    let (secret, next) = text_at(bytes, after_username)->0;
    lemma_holds_at_join(bytes, pos, encode_text(name), encode_text(username));
    lemma_holds_at_join(
        bytes,
        pos,
        encode_text(name) + encode_text(username),
        encode_text(secret),
    );
}

proof fn lemma_record_at_complete(bytes: Seq<u8>, pos: int, record: RecordView)
    requires
        holds_at(bytes, pos, encode_record(record)),
        encodable_record(record),
    ensures
        record_at(bytes, pos) == Some((record, pos + encode_record(record).len())),
{
    reveal(encode_record);
    reveal(record_at);
    let name = encode_text(record.name);
    let username = encode_text(record.username);
    let secret = encode_text(record.secret);
    lemma_holds_at_join(bytes, pos, name + username, secret);
    lemma_holds_at_join(bytes, pos, name, username);
    lemma_text_at_complete(bytes, pos, record.name);
    lemma_text_at_complete(bytes, pos + name.len(), record.username);
    lemma_text_at_complete(bytes, pos + name.len() + username.len(), record.secret);
}

/// The `count` records that stand one after the other from `pos`, and where they end.
spec fn records_at(bytes: Seq<u8>, pos: int, count: nat) -> Option<(Seq<RecordView>, int)>
    decreases count,
{
    if count == 0 {
        Some((Seq::empty(), pos))
    } else {
        match record_at(bytes, pos) {
            None => None,
            Some((record, after)) => match records_at(bytes, after, (count - 1) as nat) {
                None => None,
                Some((rest, next)) => Some((seq![record] + rest, next)),
            },
        }
    }
}

proof fn lemma_records_at_sound(bytes: Seq<u8>, pos: int, count: nat)
    requires
        0 <= pos <= bytes.len(),
        records_at(bytes, pos, count) is Some,
    ensures
        ({
            let (records, next) = records_at(bytes, pos, count)->0;
            &&& records.len() == count
            &&& holds_at(bytes, pos, encode_records(records))
            &&& next == pos + encode_records(records).len()
            &&& forall|i: int| 0 <= i < records.len() ==> encodable_record(#[trigger] records[i])
        }),
    decreases count,
{
    let (records, next) = records_at(bytes, pos, count)->0;
    if count == 0 {
        assert(encode_records(records) == Seq::<u8>::empty());
        assert(bytes.subrange(pos, pos) =~= Seq::<u8>::empty());
    } else {
        let (record, after) = record_at(bytes, pos)->0;
        let (rest, end) = records_at(bytes, after, (count - 1) as nat)->0;
        lemma_record_at_sound(bytes, pos);
        lemma_records_at_sound(bytes, after, (count - 1) as nat);
        assert(records == seq![record] + rest);
        assert(records.first() == record);
        assert(records.drop_first() =~= rest);
        assert(encode_records(records) == encode_record(record) + encode_records(rest));
        lemma_holds_at_join(bytes, pos, encode_record(record), encode_records(rest));
        assert forall|i: int| 0 <= i < records.len() implies encodable_record(
            #[trigger] records[i],
        ) by {
            if i > 0 {
                assert(records[i] == rest[i - 1]);
            }
        }
    }
}

proof fn lemma_records_at_complete(bytes: Seq<u8>, pos: int, records: Seq<RecordView>)
    requires
        holds_at(bytes, pos, encode_records(records)),
        forall|i: int| 0 <= i < records.len() ==> encodable_record(#[trigger] records[i]),
    ensures
        records_at(bytes, pos, records.len()) == Some(
            (records, pos + encode_records(records).len()),
        ),
    decreases records.len(),
{
    if records.len() == 0 {
        assert(records =~= Seq::<RecordView>::empty());
        assert(encode_records(records) == Seq::<u8>::empty());
    } else {
        let record = records.first();
        let rest = records.drop_first();
        assert(encode_records(records) == encode_record(record) + encode_records(rest));
        lemma_holds_at_join(bytes, pos, encode_record(record), encode_records(rest));
        assert(encodable_record(records[0]));
        lemma_record_at_complete(bytes, pos, record);
        assert forall|i: int| 0 <= i < rest.len() implies encodable_record(
            #[trigger] rest[i],
        ) by {
            assert(rest[i] == records[i + 1]);
        }
        lemma_records_at_complete(bytes, pos + encode_record(record).len(), rest);
        assert(seq![record] + rest =~= records);
    }
}

/// The collection that stands at the start of `bytes`.
spec fn contents_at_start(bytes: Seq<u8>) -> Option<Seq<RecordView>> {
    if bytes.len() < 8 {
        None
    } else {
        match records_at(bytes, 8, le_value(bytes.subrange(0, 8))) {
            None => None,
            Some((records, _)) => Some(records),
        }
    }
}

proof fn lemma_contents_at_start(bytes: Seq<u8>, records: Seq<RecordView>)
    ensures
        contents_at_start(bytes) == Some(records) <==> decodes_to(bytes, records),
{
    let head = bytes.subrange(0, 8);
    if contents_at_start(bytes) == Some(records) {
        let count = le_value(head);
        lemma_records_at_sound(bytes, 8, count);
        lemma_le_bytes_of_le_value(head);
        assert(holds_at(bytes, 0, le_bytes(count)));
        lemma_holds_at_join(bytes, 0, le_bytes(count), encode_records(records));
    }
    if decodes_to(bytes, records) {
        let count = records.len();
        lemma_le_value_of_le_bytes(count);
        assert(holds_at(bytes, 0, encode_spec(records)));
        lemma_holds_at_join(bytes, 0, le_bytes(count), encode_records(records));
        assert(head == le_bytes(count));
        lemma_records_at_complete(bytes, 8, records);
    }
}

/// Bytes decode to at most one collection.
pub proof fn lemma_decoding_unique(bytes: Seq<u8>, a: Seq<RecordView>, b: Seq<RecordView>)
    requires
        decodes_to(bytes, a),
        decodes_to(bytes, b),
    ensures
        a == b,
{
    lemma_contents_at_start(bytes, a);
    lemma_contents_at_start(bytes, b);
}

/// Decoding undoes encoding, whatever bytes follow the encoding.
pub proof fn lemma_decode_of_encode(records: Seq<RecordView>, trailing: Seq<u8>)
    requires
        encodable(records),
    ensures
        decode_spec(encode_spec(records) + trailing) == Some(records),
{
    let bytes = encode_spec(records) + trailing;
    assert(bytes.subrange(0, encode_spec(records).len() as int) =~= encode_spec(records));
    assert(decodes_to(bytes, records));
    let chosen = choose|v: Seq<RecordView>| decodes_to(bytes, v);
    lemma_decoding_unique(bytes, chosen, records);
}

fn read_len(bytes: &[u8], pos: usize) -> (n: u64)
    requires
        pos + 8 <= bytes@.len(),
    ensures
        n == le_value(bytes@.subrange(pos as int, pos + 8)),
{
    let b0 = bytes[pos] as u64;
    let b1 = bytes[pos + 1] as u64;
    let b2 = bytes[pos + 2] as u64;
    let b3 = bytes[pos + 3] as u64;
    let b4 = bytes[pos + 4] as u64;
    let b5 = bytes[pos + 5] as u64;
    let b6 = bytes[pos + 6] as u64;
    let b7 = bytes[pos + 7] as u64;
    b0 + b1 * 0x100 + b2 * 0x1_0000 + b3 * 0x100_0000 + b4 * 0x1_0000_0000 + b5
        * 0x100_0000_0000 + b6 * 0x1_0000_0000_0000 + b7 * 0x100_0000_0000_0000
}

/// `std::str::from_utf8`, with its error dropped: the text that `bytes` is the
/// UTF-8 form of, or nothing where `bytes` is not valid UTF-8.
#[verifier::external_body]
fn text_of_utf8(bytes: &[u8]) -> (text: Option<&str>)
    ensures
        text is Some <==> valid_utf8(bytes@),
        text matches Some(t) ==> t.spec_bytes() == bytes@,
{
    std::str::from_utf8(bytes).ok()
}

fn read_text(bytes: &[u8], pos: usize) -> (read: Option<(String, usize)>)
    requires
        pos <= bytes@.len(),
    ensures
        match text_at(bytes@, pos as int) {
            None => read is None,
            Some((text, next)) => read matches Some((t, p)) && t@ == text && p == next && pos
                <= p <= bytes@.len(),
        },
{
    reveal(text_at);
    if bytes.len() - pos < 8 {
        return None;
    }
    let n = read_len(bytes, pos);
    let left = bytes.len() - pos - 8;
    if n > left as u64 {
        return None;
    }
    let start = pos + 8;
    let end = start + n as usize;
    let body = vstd::slice::slice_subrange(bytes, start, end);
    match text_of_utf8(body) {
        None => None,
        Some(text) => {
            proof {
                encode_utf8_decode_utf8(text@);
            }
            Some((text.to_owned(), end))
        },
    }
}

fn read_record(bytes: &[u8], pos: usize) -> (read: Option<(CredentialRecord, usize)>)
    requires
        pos <= bytes@.len(),
    ensures
        match record_at(bytes@, pos as int) {
            None => read is None,
            Some((record, next)) => read matches Some((r, p)) && r@ == record && p == next
                && pos <= p <= bytes@.len(),
        },
{
    reveal(record_at);
    let (name, after_name) = match read_text(bytes, pos) {
        None => { return None; },
        Some(found) => found,
    };
    let (username, after_username) = match read_text(bytes, after_name) {
        None => { return None; },
        Some(found) => found,
    };
    let (secret, next) = match read_text(bytes, after_username) {
        None => { return None; },
        Some(found) => found,
    };
    Some((CredentialRecord::from_parts(name, username, secret), next))
}

/// What is known of the whole once `done` is read and `rest` stands for what follows.
spec fn after_reading(done: Seq<RecordView>, rest: Option<(Seq<RecordView>, int)>) -> Option<
    (Seq<RecordView>, int),
> {
    match rest {
        None => None,
        Some((records, next)) => Some((done + records, next)),
    }
}

proof fn lemma_read_one_more(
    bytes: Seq<u8>,
    pos: int,
    left: nat,
    done: Seq<RecordView>,
)
    requires
        left > 0,
    ensures
        match record_at(bytes, pos) {
            None => after_reading(done, records_at(bytes, pos, left)) is None,
            Some((record, after)) => after_reading(done, records_at(bytes, pos, left))
                == after_reading(done.push(record), records_at(bytes, after, (left - 1) as nat)),
        },
{
    match record_at(bytes, pos) {
        None => {},
        Some((record, after)) => {
            match records_at(bytes, after, (left - 1) as nat) {
                None => {},
                Some((rest, next)) => {
                    assert(done + (seq![record] + rest) =~= done.push(record) + rest);
                },
            }
        },
    }
}

/// What stands at the start of `bytes` is what `bytes` decodes to.
proof fn lemma_decode_spec_is(bytes: Seq<u8>)
    ensures
        decode_spec(bytes) == contents_at_start(bytes),
{
    assert forall|v: Seq<RecordView>| decodes_to(bytes, v) <==> contents_at_start(bytes) == Some(
        v,
    ) by {
        lemma_contents_at_start(bytes, v);
    }
    if contents_at_start(bytes) is Some {
        assert(decodes_to(bytes, contents_at_start(bytes)->0));
    }
}

/// The records that `bytes` begins with the encoding of; bytes after it are ignored.
///
/// `MalformedRecords` where `bytes` begins with no encoding: it is cut short,
/// a length points past its end, or a text is not UTF-8.
pub fn decode(bytes: &[u8]) -> (decoded: Result<VaultContents, VaultError>)
    ensures
        match decoded {
            Ok(contents) => decode_spec(bytes@) == Some(contents@),
            Err(e) => e == VaultError::MalformedRecords && decode_spec(bytes@) is None,
        },
{
    proof {
        lemma_decode_spec_is(bytes@);
    }
    if bytes.len() < 8 {
        return Err(VaultError::MalformedRecords);
    }
    let count = read_len(bytes, 0);
    let mut records: Vec<CredentialRecord> = Vec::new();
    let mut pos: usize = 8;
    let mut i: u64 = 0;
    assert(views_of(records@) + Seq::<RecordView>::empty() =~= Seq::<RecordView>::empty());
    while i < count
        invariant
            i <= count,
            8 <= pos <= bytes@.len(),
            count == le_value(bytes@.subrange(0, 8)),
            decode_spec(bytes@) == contents_at_start(bytes@),
            records_at(bytes@, 8, count as nat) == after_reading(
                views_of(records@),
                records_at(bytes@, pos as int, (count - i) as nat),
            ),
        decreases count - i,
    {
        proof {
            lemma_read_one_more(bytes@, pos as int, (count - i) as nat, views_of(records@));
        }
        match read_record(bytes, pos) {
            None => {
                return Err(VaultError::MalformedRecords);
            },
            Some((record, next)) => {
                proof {
                    assert(views_of(records@.push(record)) =~= views_of(records@).push(record@));
                }
                records.push(record);
                pos = next;
            },
        }
        i += 1;
    }
    assert(views_of(records@) + Seq::<RecordView>::empty() =~= views_of(records@));
    Ok(VaultContents::from_records(records))
}

} // verus!
