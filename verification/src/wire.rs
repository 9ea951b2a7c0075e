//! The wire format of updates.
//!
//! An update is a sequence of records, one after the other, with nothing
//! before, between or after them:
//!
//! ```text
//! record  = client (u64, little endian)
//!           version (u64, little endian)
//!           tag (one byte: 0 tombstone, 1 payload)
//!           [ length (u32, little endian)  text (UTF-8, `length` bytes) ]
//! ```
//!
//! The bracketed part follows only where the tag is 1.

use crate::error::Error;
use crate::model::{RecordModel, TableModel};
use vstd::bytes::*;
use vstd::prelude::*;
use vstd::slice::*;
use vstd::utf8::*;

verus! {

/// The tag of a record without a payload.
pub const TAG_TOMBSTONE: u8 = 0;

/// The tag of a record with a payload.
pub const TAG_PRESENT: u8 = 1;

/// The bytes of a record before its payload: client, version and tag.
pub const HEADER_LEN: usize = 17;

/// One record of an update.
#[derive(Debug, PartialEq, Eq)]
pub struct UpdateRecord {
    pub client: u64,
    pub version: u64,
    pub payload: Option<String>,
}

/// The view of an optional text.
pub open spec fn payload_model(payload: Option<String>) -> Option<Seq<char>> {
    match payload {
        Some(text) => Some(text@),
        None => None,
    }
}

impl View for UpdateRecord {
    type V = RecordModel;

    open spec fn view(&self) -> RecordModel {
        RecordModel {
            client: self.client,
            version: self.version,
            payload: payload_model(self.payload),
        }
    }
}

/// The views of a sequence of records.
pub open spec fn record_models(records: Seq<UpdateRecord>) -> Seq<RecordModel> {
    records.map_values(|r: UpdateRecord| r@)
}

/// A record fits the format when its text, as UTF-8, has a length that fits
/// the length field.
pub open spec fn encodable(rec: RecordModel) -> bool {
    rec.payload matches Some(text) ==> encode_utf8(text).len() <= u32::MAX
}

pub open spec fn all_encodable(recs: Seq<RecordModel>) -> bool {
    forall|i: int| 0 <= i < recs.len() ==> encodable(#[trigger] recs[i])
}

/// The bytes of a payload: the tag, and for a text its length and its UTF-8.
pub open spec fn encode_payload(payload: Option<Seq<char>>) -> Seq<u8> {
    match payload {
        None => seq![TAG_TOMBSTONE],
        Some(text) => seq![TAG_PRESENT] + spec_u32_to_le_bytes(encode_utf8(text).len() as u32)
            + encode_utf8(text),
    }
}

/// The bytes of one record.
pub open spec fn encode_record(rec: RecordModel) -> Seq<u8> {
    spec_u64_to_le_bytes(rec.client) + spec_u64_to_le_bytes(rec.version) + encode_payload(
        rec.payload,
    )
}

/// The bytes of an update: its records, first to last.
pub open spec fn encode_records(recs: Seq<RecordModel>) -> Seq<u8>
    decreases recs.len(),
{
    if recs.len() == 0 {
        Seq::empty()
    } else {
        encode_records(recs.drop_last()) + encode_record(recs.last())
    }
}

/// The record at the front of `bytes` and the number of bytes it takes, or
/// `None` where `bytes` does not start with a well-formed record.
pub open spec fn decode_record(bytes: Seq<u8>) -> Option<(RecordModel, int)> {
    if bytes.len() < HEADER_LEN {
        None
    } else {
        let client = spec_u64_from_le_bytes(bytes.subrange(0, 8));
        let version = spec_u64_from_le_bytes(bytes.subrange(8, 16));
        if bytes[16] == TAG_TOMBSTONE {
            Some((RecordModel { client, version, payload: None }, HEADER_LEN as int))
        } else if bytes[16] == TAG_PRESENT && bytes.len() >= HEADER_LEN + 4 {
            let len = spec_u32_from_le_bytes(bytes.subrange(17, 21)) as int;
            let text = bytes.subrange(21, 21 + len);
            if bytes.len() >= 21 + len && valid_utf8(text) {
                Some((RecordModel { client, version, payload: Some(decode_utf8(text)) }, 21 + len))
            } else {
                None
            }
        } else {
            None
        }
    }
}

/// The records that `bytes` holds, or `None` where `bytes` is not a
/// well-formed update: a record is cut short, has an unknown tag or a text
/// that is not UTF-8.
pub open spec fn decode_records(bytes: Seq<u8>) -> Option<Seq<RecordModel>>
    decreases bytes.len(),
{
    if bytes.len() == 0 {
        Some(Seq::empty())
    } else {
        match decode_record(bytes) {
            None => None,
            Some((rec, used)) => {
                if 0 < used <= bytes.len() {
                    match decode_records(bytes.skip(used)) {
                        None => None,
                        Some(rest) => Some(seq![rec] + rest),
                    }
                } else {
                    None
                }
            },
        }
    }
}

/// The table after `bytes` were applied to it at time `now`: the records are
/// merged where `bytes` is a well-formed update, and nothing changes where
/// it is not.
pub open spec fn apply_bytes(t: TableModel, bytes: Seq<u8>, now: u64) -> TableModel {
    match decode_records(bytes) {
        Some(recs) => t.merge_all(recs, now),
        None => t,
    }
}

/// Turns bytes into text with `String::from_utf8`.
///
/// Trusted: the call succeeds exactly on well-formed UTF-8, and the text it
/// returns is made of the very bytes it was given.
#[verifier::external_body]
fn text_from_utf8(bytes: Vec<u8>) -> (text: Option<String>)
    ensures
        text is Some <==> valid_utf8(bytes@),
        text matches Some(s) ==> encode_utf8(s@) == bytes@,
{
    String::from_utf8(bytes).ok()
}

/// Appends to `out` the bytes of the record made of `client`, `version` and
/// `payload`, or leaves `out` alone where that record does not fit the
/// format.
pub(crate) fn encode_record_into(
    client: u64,
    version: u64,
    payload: &Option<String>,
    out: &mut Vec<u8>,
) -> (ok: bool)
    ensures
        ok == encodable(
            RecordModel { client, version, payload: payload_model(*payload) },
        ),
        ok ==> final(out)@ == old(out)@ + encode_record(
            RecordModel { client, version, payload: payload_model(*payload) },
        ),
        !ok ==> final(out)@ == old(out)@,
{
    let ghost rec = RecordModel { client, version, payload: payload_model(*payload) };
    match payload {
        None => {
            let mut head = u64_to_le_bytes(client);
            let mut rest = u64_to_le_bytes(version);
            head.append(&mut rest);
            head.push(TAG_TOMBSTONE);
            out.append(&mut head);
            proof {
                assert(final(out)@ =~= old(out)@ + encode_record(rec));
            }
            true
        },
        Some(text) => {
            let raw = text.as_str().as_bytes();
            if raw.len() > u32::MAX as usize {
                return false;
            }
            let mut head = u64_to_le_bytes(client);
            let mut rest = u64_to_le_bytes(version);
            let mut len = u32_to_le_bytes(raw.len() as u32);
            let mut body = slice_to_vec(raw);
            head.append(&mut rest);
            head.push(TAG_PRESENT);
            head.append(&mut len);
            head.append(&mut body);
            out.append(&mut head);
            proof {
                assert(final(out)@ =~= old(out)@ + encode_record(rec));
            }
            true
        },
    }
}

/// Writes `records` as one update.
///
/// Fails, with no bytes produced, exactly where some record holds a text
/// whose UTF-8 is longer than `u32::MAX` bytes.
pub fn encode_update(records: &Vec<UpdateRecord>) -> (result: Result<Vec<u8>, Error>)
    ensures
        match result {
            Ok(bytes) => all_encodable(record_models(records@)) && bytes@ == encode_records(
                record_models(records@),
            ),
            Err(e) => e == Error::EncodeError && !all_encodable(record_models(records@)),
        },
{
    let mut out: Vec<u8> = Vec::new();
    let mut i: usize = 0;
    while i < records.len()
        invariant
            i <= records.len(),
            all_encodable(record_models(records@).take(i as int)),
            out@ == encode_records(record_models(records@).take(i as int)),
        decreases records.len() - i,
    {
        let ghost models = record_models(records@);
        let rec = &records[i];
        let ok = encode_record_into(rec.client, rec.version, &rec.payload, &mut out);
        if !ok {
            assert(!encodable(models[i as int]));
            return Err(Error::EncodeError);
        }
        proof {
            assert(models.take(i + 1).drop_last() =~= models.take(i as int));
            assert(models.take(i + 1).last() == models[i as int]);
        }
        i += 1;
    }
    proof {
        assert(record_models(records@).take(i as int) =~= record_models(records@));
    }
    Ok(out)
}

/// Reads the record that starts at `pos`.
fn decode_record_at(bytes: &[u8], pos: usize) -> (result: Option<(UpdateRecord, usize)>)
    requires
        pos <= bytes.len(),
    ensures
        match result {
            Some((rec, next)) => pos < next <= bytes.len() && decode_record(bytes@.skip(pos as int))
                == Some((rec@, next - pos)),
            None => decode_record(bytes@.skip(pos as int)) is None,
        },
{
    let ghost rest = bytes@.skip(pos as int);
    let left = bytes.len() - pos;
    if left < HEADER_LEN {
        return None;
    }
    let client = u64_from_le_bytes(slice_subrange(bytes, pos, pos + 8));
    let version = u64_from_le_bytes(slice_subrange(bytes, pos + 8, pos + 16));
    let tag = bytes[pos + 16];
    proof {
        assert(bytes@.subrange(pos as int, pos + 8) =~= rest.subrange(0, 8));
        assert(bytes@.subrange(pos + 8, pos + 16) =~= rest.subrange(8, 16));
        assert(bytes@[pos + 16] == rest[16]);
    }
    if tag == TAG_TOMBSTONE {
        return Some((UpdateRecord { client, version, payload: None }, pos + HEADER_LEN));
    }
    if tag != TAG_PRESENT || left < HEADER_LEN + 4 {
        return None;
    }
    let len = u32_from_le_bytes(slice_subrange(bytes, pos + 17, pos + 21)) as usize;
    proof {
        assert(bytes@.subrange(pos + 17, pos + 21) =~= rest.subrange(17, 21));
    }
    if left - 21 < len {
        return None;
    }
    let raw = slice_to_vec(slice_subrange(bytes, pos + 21, pos + 21 + len));
    proof {
        assert(bytes@.subrange(pos + 21, pos + 21 + len) =~= rest.subrange(21, 21 + len));
    }
    match text_from_utf8(raw) {
        None => None,
        Some(text) => {
            proof {
                encode_utf8_decode_utf8(text@);
            }
            Some((UpdateRecord { client, version, payload: Some(text) }, pos + 21 + len))
        },
    }
}

/// Reads an update.
///
/// Succeeds exactly where `bytes` is a well-formed update, with its records
/// in order; any malformed record fails the whole update.
pub fn decode_update(bytes: &[u8]) -> (result: Result<Vec<UpdateRecord>, Error>)
    ensures
        match result {
            Ok(records) => decode_records(bytes@) == Some(record_models(records@)),
            Err(e) => e == Error::DecodeError && decode_records(bytes@) is None,
        },
{
    let mut out: Vec<UpdateRecord> = Vec::new();
    let mut pos: usize = 0;
    proof {
        assert(bytes@.skip(0) =~= bytes@);
        let all = decode_records(bytes@);
        if all is Some {
            assert(record_models(out@) + all->0 =~= all->0);
        }
    }
    while pos < bytes.len()
        invariant
            pos <= bytes.len(),
            decode_records(bytes@) == match decode_records(bytes@.skip(pos as int)) {
                Some(rest) => Some(record_models(out@) + rest),
                None => None,
            },
        decreases bytes.len() - pos,
    {
        let ghost before = record_models(out@);
        match decode_record_at(bytes, pos) {
            None => {
                return Err(Error::DecodeError);
            },
            Some((rec, next)) => {
                proof {
                    assert(bytes@.skip(pos as int).skip(next - pos) =~= bytes@.skip(next as int));
                    let tail = decode_records(bytes@.skip(next as int));
                    if tail is Some {
                        assert(before + (seq![rec@] + tail->0) =~= before.push(rec@) + tail->0);
                    }
                    assert(record_models(out@.push(rec)) =~= before.push(rec@));
                }
                out.push(rec);
                pos = next;
            },
        }
    }
    proof {
        assert(bytes@.skip(pos as int) =~= Seq::<u8>::empty());
        assert(record_models(out@) + Seq::<RecordModel>::empty() =~= record_models(out@));
    }
    Ok(out)
}

/// A record's bytes in front of any others decode to the record and its length.
pub proof fn lemma_decode_encoded_record(rec: RecordModel, tail: Seq<u8>)
    requires
        encodable(rec),
    ensures
        encode_record(rec).len() >= HEADER_LEN,
        decode_record(encode_record(rec) + tail) == Some((rec, encode_record(rec).len() as int)),
{
    lemma_auto_spec_u64_to_from_le_bytes();
    lemma_auto_spec_u32_to_from_le_bytes();
    let client = spec_u64_to_le_bytes(rec.client);
    let version = spec_u64_to_le_bytes(rec.version);
    let payload = encode_payload(rec.payload);
    let all = encode_record(rec) + tail;
    assert(all.subrange(0, 8) =~= client);
    assert(all.subrange(8, 16) =~= version);
    assert(all[16] == payload[0]);
    match rec.payload {
        None => {},
        Some(text) => {
            let raw = encode_utf8(text);
            let len = spec_u32_to_le_bytes(raw.len() as u32);
            assert(all.subrange(17, 21) =~= len);
            assert(all.subrange(21, 21 + raw.len() as int) =~= raw);
            encode_utf8_valid_utf8(text);
            encode_utf8_decode_utf8(text);
        },
    }
}

/// An update's bytes are its first record's bytes and then the others'.
pub proof fn lemma_encode_first(rec: RecordModel, rest: Seq<RecordModel>)
    ensures
        encode_records(seq![rec] + rest) == encode_record(rec) + encode_records(rest),
    decreases rest.len(),
{
    let all = seq![rec] + rest;
    if rest.len() == 0 {
        assert(all.drop_last() =~= Seq::<RecordModel>::empty());
        assert(encode_records(all.drop_last()) =~= Seq::<u8>::empty());
        assert(encode_records(all) =~= encode_record(rec) + encode_records(rest));
    } else {
        assert(all.drop_last() =~= seq![rec] + rest.drop_last());
        lemma_encode_first(rec, rest.drop_last());
        assert(encode_records(all) =~= encode_record(rec) + encode_records(rest));
    }
}

/// Decoding undoes encoding: the bytes written for records that fit the
/// format decode to exactly those records.
pub proof fn lemma_decode_encode(recs: Seq<RecordModel>)
    requires
        all_encodable(recs),
    ensures
        decode_records(encode_records(recs)) == Some(recs),
    decreases recs.len(),
{
    if recs.len() == 0 {
    } else {
        let first = recs[0];
        let rest = recs.drop_first();
        assert(recs =~= seq![first] + rest);
        lemma_encode_first(first, rest);
        lemma_decode_encoded_record(first, encode_records(rest));
        let bytes = encode_records(recs);
        let used = encode_record(first).len() as int;
        assert(bytes.skip(used) =~= encode_records(rest));
        assert forall|i: int| 0 <= i < rest.len() implies encodable(#[trigger] rest[i]) by {
            assert(rest[i] == recs[i + 1]);
        }
        lemma_decode_encode(rest);
    }
}

/// What decodes as one record is that record's bytes, and the record fits
/// the format.
pub proof fn lemma_encode_decoded_record(bytes: Seq<u8>)
    requires
        decode_record(bytes) is Some,
    ensures
        ({
            let (rec, used) = decode_record(bytes)->0;
            &&& HEADER_LEN <= used <= bytes.len()
            &&& encodable(rec)
            &&& encode_record(rec) == bytes.subrange(0, used)
        }),
{
    lemma_auto_spec_u64_to_from_le_bytes();
    lemma_auto_spec_u32_to_from_le_bytes();
    let (rec, used) = decode_record(bytes)->0;
    assert(bytes.subrange(0, 8).len() == 8);
    assert(bytes.subrange(8, 16).len() == 8);
    if bytes[16] == TAG_TOMBSTONE {
        assert(encode_record(rec) =~= bytes.subrange(0, used));
    } else {
        let field = bytes.subrange(17, 21);
        assert(field.len() == 4);
        let len = spec_u32_from_le_bytes(field);
        let text = bytes.subrange(21, 21 + len);
        decode_utf8_encode_utf8(text);
        assert(encode_utf8(decode_utf8(text)).len() as u32 == len);
        assert(encode_record(rec) =~= bytes.subrange(0, used));
    }
}

/// Encoding undoes decoding: bytes that decode are exactly the bytes written
/// for the records they hold. So an update has one byte form only, and the
/// decoder accepts nothing but what the encoder writes.
pub proof fn lemma_encode_decode(bytes: Seq<u8>)
    requires
        decode_records(bytes) is Some,
    ensures
        all_encodable(decode_records(bytes)->0),
        encode_records(decode_records(bytes)->0) == bytes,
    decreases bytes.len(),
{
    if bytes.len() == 0 {
        assert(encode_records(Seq::<RecordModel>::empty()) =~= bytes);
    } else {
        let (rec, used) = decode_record(bytes)->0;
        let rest = decode_records(bytes.skip(used))->0;
        lemma_encode_decoded_record(bytes);
        lemma_encode_decode(bytes.skip(used));
        lemma_encode_first(rec, rest);
        assert(bytes.subrange(0, used) + bytes.skip(used) =~= bytes);
        let recs = seq![rec] + rest;
        assert forall|i: int| 0 <= i < recs.len() implies encodable(#[trigger] recs[i]) by {
            if i > 0 {
                assert(recs[i] == rest[i - 1]);
            }
        }
    }
}

} // verus!
