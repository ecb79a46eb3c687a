//! Log record framing and payload encodings.
//!
//! A log record is a fixed-length header, a variable-length payload and a
//! fixed-length trailer: a 1-byte action code, the 4-byte CRC-32 of the
//! payload, the 4-byte payload length, the payload itself, and the 4-byte
//! offset at which the record begins in the log. All integers are
//! little-endian.
//!
//! Payloads are canonical length-prefixed encodings, fixed here: a key-value
//! payload is `len(key) ++ key ++ len(value) ++ value` with 4-byte length
//! tags; sorted-map payloads embed a search-key encoding (see `key_codec`).

use vstd::prelude::*;

verus! {

use vstd::bytes::spec_u32_to_le_bytes;
use vstd::bytes::spec_u32_from_le_bytes;
use vstd::bytes::lemma_auto_spec_u32_to_from_le_bytes;
use vstd::bytes::u32_to_le_bytes;
use vstd::bytes::u32_from_le_bytes;
use vstd::slice::slice_subrange;
use vstd::slice::slice_to_vec;

pub const ACT_TYPE_FIELD_LEN: u8 = 1;

pub const CRC32_FIELD_LEN: u8 = 4;

pub const DATA_SIZE_FIELD_LEN: u8 = 4;

pub const BLOCK_START_OFFSET_LEN: u8 = 4;

pub const FIXED_BLOCK_LEN: u8 = ACT_TYPE_FIELD_LEN + CRC32_FIELD_LEN + DATA_SIZE_FIELD_LEN
    + BLOCK_START_OFFSET_LEN;

pub const DELETE_ACT: u8 = 0;

pub const PUT_ACT: u8 = 1;

pub const SET_APPEND_ACT: u8 = 2;

pub const SET_REMOVE_ACT: u8 = 3;

pub const SORTED_PUT_ACT: u8 = 4;

pub const SORTED_REMOVE_ACT: u8 = 5;

/// What CRC-32 (IEEE) returns for a byte sequence; a function of the bytes
/// alone.
pub uninterp spec fn crc32_of(bytes: Seq<u8>) -> u32;

/// Relies on crc32fast::Hasher (new, update, finalize): the IEEE CRC-32 of
/// exactly the bytes fed to the hasher, a pure function of those bytes.
#[verifier::external_body]
pub fn crc(bytes: &[u8]) -> (r: u32)
    ensures
        r == crc32_of(bytes@),
{
    let mut hasher = crc32fast::Hasher::new();
    hasher.update(bytes);
    hasher.finalize()
}

/// Appends a byte slice to a vector.
pub fn push_bytes(out: &mut Vec<u8>, b: &[u8])
    ensures
        final(out)@ == old(out)@ + b@,
{
    let mut i: usize = 0;
    while i < b.len()
        invariant
            i <= b@.len(),
            out@ == old(out)@ + b@.subrange(0, i as int),
        decreases b@.len() - i,
    {
        out.push(b[i]);
        proof {
            assert(old(out)@ + b@.subrange(0, i as int + 1) =~= (old(out)@ + b@.subrange(
                0,
                i as int,
            )).push(b@[i as int]));
        }
        i += 1;
    }
    proof {
        assert(b@.subrange(0, b@.len() as int) =~= b@);
    }
}

/// A key together with a value, both raw bytes.
#[derive(Debug)]
pub struct KeyValueData {
    key: Vec<u8>,
    value: Vec<u8>,
}

impl KeyValueData {
    pub closed spec fn key_model(&self) -> Seq<u8> {
        self.key@
    }

    pub closed spec fn value_model(&self) -> Seq<u8> {
        self.value@
    }

    pub fn new(key: Vec<u8>, value: Vec<u8>) -> (r: Self)
        ensures
            r.key_model() == key@,
            r.value_model() == value@,
    {
        KeyValueData { key, value }
    }

    pub fn owned_key_value(self) -> (r: (Vec<u8>, Vec<u8>))
        ensures
            r.0@ == self.key_model(),
            r.1@ == self.value_model(),
    {
        (self.key, self.value)
    }
}

/// The canonical key-value payload: 4-byte length tags before each field.
pub open spec fn spec_encode_kv(key: Seq<u8>, value: Seq<u8>) -> Seq<u8> {
    spec_u32_to_le_bytes(key.len() as u32) + key + spec_u32_to_le_bytes(value.len() as u32) + value
}

/// Strict inverse of `spec_encode_kv`: trailing bytes are an error.
pub open spec fn spec_decode_kv(data: Seq<u8>) -> Option<(Seq<u8>, Seq<u8>)> {
    if data.len() < 4 {
        None
    } else {
        let klen = spec_u32_from_le_bytes(data.subrange(0, 4)) as int;
        if data.len() < 8 + klen {
            None
        } else {
            let key = data.subrange(4, 4 + klen);
            let vlen = spec_u32_from_le_bytes(data.subrange(4 + klen, 8 + klen)) as int;
            if data.len() != 8 + klen + vlen {
                None
            } else {
                Some((key, data.subrange(8 + klen, 8 + klen + vlen)))
            }
        }
    }
}

pub proof fn lemma_kv_round_trip(key: Seq<u8>, value: Seq<u8>)
    requires
        key.len() <= u32::MAX,
        value.len() <= u32::MAX,
    ensures
        spec_decode_kv(spec_encode_kv(key, value)) == Some((key, value)),
{
    lemma_auto_spec_u32_to_from_le_bytes();
    let data = spec_encode_kv(key, value);
    let klen = key.len() as int;
    let vlen = value.len() as int;
    assert(spec_u32_to_le_bytes(key.len() as u32).len() == 4);
    assert(data.len() == 8 + klen + vlen);
    assert(data.subrange(0, 4) =~= spec_u32_to_le_bytes(key.len() as u32));
    assert(data.subrange(4, 4 + klen) =~= key);
    assert(data.subrange(4 + klen, 8 + klen) =~= spec_u32_to_le_bytes(value.len() as u32));
    assert(data.subrange(8 + klen, 8 + klen + vlen) =~= value);
}

/// Builds the canonical key-value payload.
pub fn encode_kv(key: &Vec<u8>, value: &Vec<u8>) -> (r: Vec<u8>)
    requires
        key@.len() <= u32::MAX,
        value@.len() <= u32::MAX,
    ensures
        r@ == spec_encode_kv(key@, value@),
{
    let mut out = u32_to_le_bytes(key.len() as u32);
    push_bytes(&mut out, key.as_slice());
    let mut vtag = u32_to_le_bytes(value.len() as u32);
    out.append(&mut vtag);
    push_bytes(&mut out, value.as_slice());
    proof {
        assert(out@ =~= spec_encode_kv(key@, value@));
    }
    out
}

/// Parses the canonical key-value payload; `None` on any malformation.
pub fn decode_kv(data: &[u8]) -> (r: Option<(Vec<u8>, Vec<u8>)>)
    ensures
        match r {
            Some((k, v)) => spec_decode_kv(data@) == Some((k@, v@)),
            None => spec_decode_kv(data@) is None,
        },
{
    proof {
        lemma_auto_spec_u32_to_from_le_bytes();
    }
    let n = data.len();
    if n < 4 {
        return None;
    }
    let klen = u32_from_le_bytes(slice_subrange(data, 0, 4)) as usize;
    if n < 8 || n - 8 < klen {
        return None;
    }
    let key = slice_to_vec(slice_subrange(data, 4, 4 + klen));
    let vlen = u32_from_le_bytes(slice_subrange(data, 4 + klen, 8 + klen)) as usize;
    if n - 8 - klen != vlen {
        return None;
    }
    let value = slice_to_vec(slice_subrange(data, 8 + klen, 8 + klen + vlen));
    Some((key, value))
}

/// The serialized form of a record: action code, payload CRC, payload
/// length, payload, and the offset at which the record starts.
pub open spec fn spec_record_bytes(act: u8, data: Seq<u8>, start: u32) -> Seq<u8> {
    seq![act] + spec_u32_to_le_bytes(crc32_of(data)) + spec_u32_to_le_bytes(data.len() as u32)
        + data + spec_u32_to_le_bytes(start)
}

/// One framed log record, as built by a writer or parsed from a log.
#[derive(Debug)]
pub struct StoredAction {
    act_type: u8,
    crc: u32,
    data_size: u32,
    data: Vec<u8>,
    start_offset: u32,
}

impl StoredAction {
    pub closed spec fn spec_act_type(&self) -> u8 {
        self.act_type
    }

    pub closed spec fn spec_crc(&self) -> u32 {
        self.crc
    }

    pub closed spec fn spec_data_size(&self) -> u32 {
        self.data_size
    }

    pub closed spec fn spec_data(&self) -> Seq<u8> {
        self.data@
    }

    pub closed spec fn spec_start_offset(&self) -> u32 {
        self.start_offset
    }

    /// The bytes this record occupies in a log.
    pub open spec fn spec_bytes(&self) -> Seq<u8> {
        seq![self.spec_act_type()] + spec_u32_to_le_bytes(self.spec_crc()) + spec_u32_to_le_bytes(
            self.spec_data_size(),
        ) + self.spec_data() + spec_u32_to_le_bytes(self.spec_start_offset())
    }

    pub fn new(act_type: u8, crc: u32, data_size: u32, data: Vec<u8>, start_offset: u32) -> (r:
        Self)
        ensures
            r.spec_act_type() == act_type,
            r.spec_crc() == crc,
            r.spec_data_size() == data_size,
            r.spec_data() == data@,
            r.spec_start_offset() == start_offset,
    {
        StoredAction { act_type, crc, data_size, data, start_offset }
    }

    /// Frames a payload under the given action code at the given offset.
    pub(crate) fn framed(act_type: u8, data: Vec<u8>, offset: &u32) -> (r: Self)
        requires
            data@.len() <= u32::MAX,
        ensures
            r.spec_act_type() == act_type,
            r.spec_crc() == crc32_of(data@),
            r.spec_data_size() == data@.len(),
            r.spec_data() == data@,
            r.spec_start_offset() == *offset,
            r.spec_bytes() == spec_record_bytes(act_type, data@, *offset),
    {
        let c = crc(data.as_slice());
        let data_size = data.len() as u32;
        StoredAction { act_type, crc: c, data_size, data, start_offset: *offset }
    }

    /// A PUT record for a key-value payload.
    pub fn put_action(offset: &u32, key_value: &KeyValueData) -> (r: Self)
        requires
            key_value.key_model().len() <= u32::MAX,
            key_value.value_model().len() <= u32::MAX,
            8 + key_value.key_model().len() + key_value.value_model().len() <= u32::MAX,
        ensures
            r.spec_act_type() == PUT_ACT,
            r.spec_data() == spec_encode_kv(key_value.key_model(), key_value.value_model()),
            r.spec_crc() == crc32_of(r.spec_data()),
            r.spec_data_size() == r.spec_data().len(),
            r.spec_start_offset() == *offset,
            r.spec_bytes() == spec_record_bytes(PUT_ACT, r.spec_data(), *offset),
    {
        let data = encode_kv(&key_value.key, &key_value.value);
        proof {
            lemma_auto_spec_u32_to_from_le_bytes();
        }
        Self::framed(PUT_ACT, data, offset)
    }

    /// A DELETE record; the payload is the raw outer key.
    pub fn delete_action(offset: &u32, key: &[u8]) -> (r: Self)
        requires
            key@.len() <= u32::MAX,
        ensures
            r.spec_act_type() == DELETE_ACT,
            r.spec_data() == key@,
            r.spec_crc() == crc32_of(r.spec_data()),
            r.spec_data_size() == r.spec_data().len(),
            r.spec_start_offset() == *offset,
            r.spec_bytes() == spec_record_bytes(DELETE_ACT, key@, *offset),
    {
        let data = slice_to_vec(key);
        Self::framed(DELETE_ACT, data, offset)
    }

    /// A SET_APPEND record for a key-element payload.
    pub fn append_to_set(offset: &u32, key_value: &KeyValueData) -> (r: Self)
        requires
            key_value.key_model().len() <= u32::MAX,
            key_value.value_model().len() <= u32::MAX,
            8 + key_value.key_model().len() + key_value.value_model().len() <= u32::MAX,
        ensures
            r.spec_act_type() == SET_APPEND_ACT,
            r.spec_data() == spec_encode_kv(key_value.key_model(), key_value.value_model()),
            r.spec_crc() == crc32_of(r.spec_data()),
            r.spec_data_size() == r.spec_data().len(),
            r.spec_start_offset() == *offset,
            r.spec_bytes() == spec_record_bytes(SET_APPEND_ACT, r.spec_data(), *offset),
    {
        let data = encode_kv(&key_value.key, &key_value.value);
        proof {
            lemma_auto_spec_u32_to_from_le_bytes();
        }
        Self::framed(SET_APPEND_ACT, data, offset)
    }

    /// A SET_REMOVE record for a key-element payload.
    pub fn remove_from_set(offset: &u32, key_value: &KeyValueData) -> (r: Self)
        requires
            key_value.key_model().len() <= u32::MAX,
            key_value.value_model().len() <= u32::MAX,
            8 + key_value.key_model().len() + key_value.value_model().len() <= u32::MAX,
        ensures
            r.spec_act_type() == SET_REMOVE_ACT,
            r.spec_data() == spec_encode_kv(key_value.key_model(), key_value.value_model()),
            r.spec_crc() == crc32_of(r.spec_data()),
            r.spec_data_size() == r.spec_data().len(),
            r.spec_start_offset() == *offset,
            r.spec_bytes() == spec_record_bytes(SET_REMOVE_ACT, r.spec_data(), *offset),
    {
        let data = encode_kv(&key_value.key, &key_value.value);
        proof {
            lemma_auto_spec_u32_to_from_le_bytes();
        }
        Self::framed(SET_REMOVE_ACT, data, offset)
    }

    pub fn act_type(&self) -> (r: &u8)
        ensures
            *r == self.spec_act_type(),
    {
        &self.act_type
    }

    pub fn crc(&self) -> (r: &u32)
        ensures
            *r == self.spec_crc(),
    {
        &self.crc
    }

    pub fn data_size(&self) -> (r: &u32)
        ensures
            *r == self.spec_data_size(),
    {
        &self.data_size
    }

    pub fn data(&self) -> (r: &[u8])
        ensures
            r@ == self.spec_data(),
    {
        self.data.as_slice()
    }

    pub fn start_offset(&self) -> (r: &u32)
        ensures
            *r == self.spec_start_offset(),
    {
        &self.start_offset
    }
}

} // verus!
