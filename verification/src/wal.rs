//! The write-ahead log: an append-only byte buffer of framed records, the
//! replay semantics that give a log its meaning, and the forward and
//! backward recovery scanners.
//!
//! Replaying a log from the start, record by record, yields the collection
//! state the log describes; every mutation appends its record before the
//! in-memory state changes, so the log is always a faithful prefix history.

use vstd::prelude::*;

verus! {

use vstd::bytes::spec_u32_to_le_bytes;
use vstd::bytes::spec_u32_from_le_bytes;
use vstd::bytes::lemma_auto_spec_u32_to_from_le_bytes;
use vstd::bytes::u32_to_le_bytes;
use vstd::bytes::u32_from_le_bytes;
use vstd::slice::slice_subrange;
use vstd::slice::slice_to_vec;
use crate::codec::DELETE_ACT;
use crate::codec::PUT_ACT;
use crate::codec::SET_APPEND_ACT;
use crate::codec::SET_REMOVE_ACT;
use crate::codec::SORTED_PUT_ACT;
use crate::codec::SORTED_REMOVE_ACT;
use crate::codec::crc32_of;
use crate::codec::crc;
use crate::codec::push_bytes;
use crate::codec::KeyValueData;
use crate::codec::StoredAction;
use crate::codec::spec_record_bytes;
use crate::codec::spec_encode_kv;
use crate::codec::spec_decode_kv;
use crate::codec::decode_kv;
use crate::key_codec::spec_encode_sorted_entry;
use crate::key_codec::spec_decode_sorted_entry;
use crate::key_codec::spec_encode_sorted_key;
use crate::key_codec::spec_decode_sorted_key;
use crate::key_codec::encode_sorted_entry;
use crate::key_codec::encode_sorted_key;
use crate::key_codec::decode_sorted_entry;
use crate::key_codec::decode_sorted_key;
use crate::key_codec::search_key_encodable;
use crate::keys::KeyModel;
use crate::keys::SearchKey;
use crate::containers::sorted_insert;
use crate::containers::sorted_remove;
use crate::containers::ByteSet;
use crate::containers::SortedEntries;
use crate::containers::AssocMap;

/// An error of the store's core.
#[derive(Debug, PartialEq, Eq, Structural, Clone, Copy)]
pub enum StoreError {
    /// A record's CRC does not match its payload, a length field would read
    /// past the end of the log, or a payload cannot be decoded.
    CorruptLog,
    /// A value was accessed as a number but its byte length is not 8.
    BadEncoding,
    /// Appending one more record would carry the log past the largest
    /// offset the record format can hold.
    LogFull,
}

/// A parsed record: action code, stored CRC, payload and start offset.
pub struct RecordModel {
    pub act: u8,
    pub crc: u32,
    pub data: Seq<u8>,
    pub start: u32,
}

/// Reads the record at `pos`: header, payload and trailer; `None` if any
/// field would run past the end.
pub open spec fn spec_parse_record(log: Seq<u8>, pos: int) -> Option<(RecordModel, int)> {
    if pos < 0 || log.len() - pos < 13 {
        None
    } else {
        let act = log[pos];
        let crc_field = spec_u32_from_le_bytes(log.subrange(pos + 1, pos + 5));
        let size = spec_u32_from_le_bytes(log.subrange(pos + 5, pos + 9)) as int;
        if log.len() - pos - 13 < size {
            None
        } else {
            let data = log.subrange(pos + 9, pos + 9 + size);
            let start = spec_u32_from_le_bytes(log.subrange(pos + 9 + size, pos + 13 + size));
            Some((RecordModel { act, crc: crc_field, data, start }, pos + 13 + size))
        }
    }
}

/// Whether a record can be applied to a key-value snapshot.
pub open spec fn kv_ok(r: RecordModel) -> bool {
    ||| r.act == DELETE_ACT
    ||| (r.act == PUT_ACT && spec_decode_kv(r.data) is Some)
}

/// The effect of one record on a key-value snapshot.
pub open spec fn kv_apply(m: Map<Seq<u8>, Seq<u8>>, r: RecordModel) -> Map<Seq<u8>, Seq<u8>> {
    if r.act == DELETE_ACT {
        m.remove(r.data)
    } else if r.act == PUT_ACT && spec_decode_kv(r.data) is Some {
        let p = choose|p: (Seq<u8>, Seq<u8>)| spec_decode_kv(r.data) == Some(p);
        m.insert(p.0, p.1)
    } else {
        m
    }
}

/// Replays the key-value records from `pos` over `m`; `None` on a parse
/// failure, a CRC mismatch, an unsupported action or an undecodable payload.
pub open spec fn replay_kv_at(log: Seq<u8>, pos: int, m: Map<Seq<u8>, Seq<u8>>) -> Option<
    Map<Seq<u8>, Seq<u8>>,
>
    decreases log.len() - pos,
{
    if pos == log.len() {
        Some(m)
    } else {
        match spec_parse_record(log, pos) {
            None => None,
            Some(p) => {
                if p.0.crc == crc32_of(p.0.data) && kv_ok(p.0) {
                    replay_kv_at(log, p.1, kv_apply(m, p.0))
                } else {
                    None
                }
            },
        }
    }
}

/// The key-value snapshot a whole log describes.
pub open spec fn replay_kv(log: Seq<u8>) -> Option<Map<Seq<u8>, Seq<u8>>> {
    replay_kv_at(log, 0, Map::empty())
}

/// Whether a record can be applied to a key-set snapshot.
pub open spec fn set_ok(r: RecordModel) -> bool {
    ||| r.act == DELETE_ACT
    ||| ((r.act == SET_APPEND_ACT || r.act == SET_REMOVE_ACT) && spec_decode_kv(r.data) is Some)
}

/// The effect of one record on a key-set snapshot.
pub open spec fn set_apply(m: Map<Seq<u8>, Set<Seq<u8>>>, r: RecordModel) -> Map<
    Seq<u8>,
    Set<Seq<u8>>,
> {
    if r.act == DELETE_ACT {
        m.remove(r.data)
    } else if r.act == SET_APPEND_ACT && spec_decode_kv(r.data) is Some {
        let p = choose|p: (Seq<u8>, Seq<u8>)| spec_decode_kv(r.data) == Some(p);
        let cur = if m.contains_key(p.0) {
            m[p.0]
        } else {
            Set::empty()
        };
        m.insert(p.0, cur.insert(p.1))
    } else if r.act == SET_REMOVE_ACT && spec_decode_kv(r.data) is Some {
        let p = choose|p: (Seq<u8>, Seq<u8>)| spec_decode_kv(r.data) == Some(p);
        if m.contains_key(p.0) {
            m.insert(p.0, m[p.0].remove(p.1))
        } else {
            m
        }
    } else {
        m
    }
}

/// Replays the key-set records from `pos` over `m`.
pub open spec fn replay_set_at(log: Seq<u8>, pos: int, m: Map<Seq<u8>, Set<Seq<u8>>>) -> Option<
    Map<Seq<u8>, Set<Seq<u8>>>,
>
    decreases log.len() - pos,
{
    if pos == log.len() {
        Some(m)
    } else {
        match spec_parse_record(log, pos) {
            None => None,
            Some(p) => {
                if p.0.crc == crc32_of(p.0.data) && set_ok(p.0) {
                    replay_set_at(log, p.1, set_apply(m, p.0))
                } else {
                    None
                }
            },
        }
    }
}

/// The key-set snapshot a whole log describes.
pub open spec fn replay_set(log: Seq<u8>) -> Option<Map<Seq<u8>, Set<Seq<u8>>>> {
    replay_set_at(log, 0, Map::empty())
}

/// Whether a record can be applied to a sorted-map snapshot.
pub open spec fn sorted_ok(r: RecordModel) -> bool {
    ||| r.act == DELETE_ACT
    ||| (r.act == SORTED_PUT_ACT && spec_decode_sorted_entry(r.data) is Some)
    ||| (r.act == SORTED_REMOVE_ACT && spec_decode_sorted_key(r.data) is Some)
}

/// The effect of one record on a sorted-map snapshot: inner maps are the
/// canonical sorted entry sequences.
pub open spec fn sorted_apply(
    m: Map<Seq<u8>, Seq<(Seq<KeyModel>, Seq<u8>)>>,
    r: RecordModel,
) -> Map<Seq<u8>, Seq<(Seq<KeyModel>, Seq<u8>)>> {
    if r.act == DELETE_ACT {
        m.remove(r.data)
    } else if r.act == SORTED_PUT_ACT && spec_decode_sorted_entry(r.data) is Some {
        let p = choose|p: (Seq<u8>, Seq<KeyModel>, Seq<u8>)|
            spec_decode_sorted_entry(r.data) == Some(p);
        let cur = if m.contains_key(p.0) {
            m[p.0]
        } else {
            Seq::empty()
        };
        m.insert(p.0, sorted_insert(cur, p.1, p.2))
    } else if r.act == SORTED_REMOVE_ACT && spec_decode_sorted_key(r.data) is Some {
        let p = choose|p: (Seq<u8>, Seq<KeyModel>)| spec_decode_sorted_key(r.data) == Some(p);
        if m.contains_key(p.0) {
            m.insert(p.0, sorted_remove(m[p.0], p.1))
        } else {
            m
        }
    } else {
        m
    }
}

/// Replays the sorted-map records from `pos` over `m`.
pub open spec fn replay_sorted_at(
    log: Seq<u8>,
    pos: int,
    m: Map<Seq<u8>, Seq<(Seq<KeyModel>, Seq<u8>)>>,
) -> Option<Map<Seq<u8>, Seq<(Seq<KeyModel>, Seq<u8>)>>>
    decreases log.len() - pos,
{
    if pos == log.len() {
        Some(m)
    } else {
        match spec_parse_record(log, pos) {
            None => None,
            Some(p) => {
                if p.0.crc == crc32_of(p.0.data) && sorted_ok(p.0) {
                    replay_sorted_at(log, p.1, sorted_apply(m, p.0))
                } else {
                    None
                }
            },
        }
    }
}

/// The sorted-map snapshot a whole log describes.
pub open spec fn replay_sorted(log: Seq<u8>) -> Option<
    Map<Seq<u8>, Seq<(Seq<KeyModel>, Seq<u8>)>>,
> {
    replay_sorted_at(log, 0, Map::empty())
}

/// The log is a well-formed chain from `pos` to its end: records are
/// contiguous, and each record's trailer holds the offset at which that
/// record itself starts.
pub open spec fn wf_chain(log: Seq<u8>, pos: int) -> bool
    decreases log.len() - pos,
{
    if pos == log.len() {
        true
    } else {
        match spec_parse_record(log, pos) {
            None => false,
            Some(p) => p.0.start == pos && wf_chain(log, p.1),
        }
    }
}

/// Appending a record whose trailer names the old end of the log keeps the
/// chain well-formed.
pub proof fn lemma_wf_chain_append(log: Seq<u8>, pos: int, act: u8, data: Seq<u8>)
    requires
        0 <= pos,
        wf_chain(log, pos),
        log.len() + 13 + data.len() <= u32::MAX,
    ensures
        wf_chain(log + spec_record_bytes(act, data, log.len() as u32), pos),
    decreases log.len() - pos,
{
    let rb = spec_record_bytes(act, data, log.len() as u32);
    let full = log + rb;
    if pos == log.len() {
        lemma_parse_appended(log, act, data);
        lemma_auto_spec_u32_to_from_le_bytes();
        assert(rb.len() == 13 + data.len());
        assert(spec_parse_record(full, pos).unwrap().1 == full.len() as int);
        assert(wf_chain(full, full.len() as int));
    } else {
        let p = spec_parse_record(log, pos).unwrap();
        lemma_parse_stable(log, rb, pos);
        lemma_wf_chain_append(log, p.1, act, data);
    }
}

/// There is a well-formed chain of records from `pos` to exactly `end`.
pub open spec fn chain_to(log: Seq<u8>, pos: int, end: int) -> bool
    decreases end - pos,
{
    if pos >= end {
        pos == end
    } else {
        match spec_parse_record(log, pos) {
            None => false,
            Some(p) => p.0.start == pos && p.1 <= end && chain_to(log, p.1, end),
        }
    }
}

/// A well-formed log is a chain from `pos` to its end.
pub proof fn lemma_wf_chain_chain_to(log: Seq<u8>, pos: int)
    requires
        0 <= pos,
        wf_chain(log, pos),
    ensures
        chain_to(log, pos, log.len() as int),
    decreases log.len() - pos,
{
    if pos != log.len() {
        let p = spec_parse_record(log, pos).unwrap();
        lemma_wf_chain_chain_to(log, p.1);
    }
}

/// The start of the last record of the chain from `pos` to `end`.
pub open spec fn chain_last_pos(log: Seq<u8>, pos: int, end: int) -> int
    decreases end - pos when 0 <= pos < end && chain_to(log, pos, end)
{
    match spec_parse_record(log, pos) {
        None => pos,
        Some(p) => if p.1 == end {
            pos
        } else {
            chain_last_pos(log, p.1, end)
        },
    }
}

/// The last record of a non-empty chain ends exactly at `end` and carries
/// its own start offset.
pub proof fn lemma_chain_last(log: Seq<u8>, pos: int, end: int)
    requires
        0 <= pos < end,
        chain_to(log, pos, end),
    ensures
        ({
            let q = chain_last_pos(log, pos, end);
            &&& pos <= q < end
            &&& chain_to(log, pos, q)
            &&& spec_parse_record(log, q) is Some
            &&& spec_parse_record(log, q).unwrap().1 == end
            &&& spec_parse_record(log, q).unwrap().0.start == q
        }),
    decreases end - pos,
{
    let p = spec_parse_record(log, pos).unwrap();
    if p.1 == end {
        assert(chain_to(log, pos, pos));
    } else {
        lemma_chain_last(log, p.1, end);
        let q = chain_last_pos(log, p.1, end);
        assert(chain_to(log, pos, q));
    }
}

/// Replay reaches every chain position: if the whole replay from `pos` is
/// defined, so is the replay from any chain position after it.
pub proof fn lemma_replay_some_along(log: Seq<u8>, pos: int, q: int, m: Map<Seq<u8>, Seq<u8>>)
    requires
        0 <= pos,
        chain_to(log, pos, q),
        replay_kv_at(log, pos, m) is Some,
    ensures
        exists|m2: Map<Seq<u8>, Seq<u8>>| #[trigger] replay_kv_at(log, q, m2) is Some,
    decreases q - pos,
{
    if pos == q {
        assert(replay_kv_at(log, q, m) is Some);
    } else {
        let p = spec_parse_record(log, pos).unwrap();
        lemma_replay_some_along(log, p.1, q, kv_apply(m, p.0));
    }
}

/// Every record of the log from `pos` on is a PUT with a decodable
/// key-value payload.
pub open spec fn all_puts(log: Seq<u8>, pos: int) -> bool
    decreases log.len() - pos,
{
    if pos == log.len() {
        true
    } else {
        match spec_parse_record(log, pos) {
            None => false,
            Some(p) => p.0.act == PUT_ACT && spec_decode_kv(p.0.data) is Some && all_puts(
                log,
                p.1,
            ),
        }
    }
}

/// How many records the log holds from `pos` on.
pub open spec fn record_count(log: Seq<u8>, pos: int) -> nat
    decreases log.len() - pos,
{
    if pos == log.len() {
        0
    } else {
        match spec_parse_record(log, pos) {
            None => 0,
            Some(p) => 1 + record_count(log, p.1),
        }
    }
}

/// Appending one decodable PUT record keeps the log all-PUTs and raises the
/// record count by one.
pub proof fn lemma_compacted_append(log: Seq<u8>, pos: int, data: Seq<u8>)
    requires
        0 <= pos,
        all_puts(log, pos),
        spec_decode_kv(data) is Some,
        log.len() + 13 + data.len() <= u32::MAX,
    ensures
        all_puts(log + spec_record_bytes(PUT_ACT, data, log.len() as u32), pos),
        record_count(log + spec_record_bytes(PUT_ACT, data, log.len() as u32), pos)
            == record_count(log, pos) + 1,
    decreases log.len() - pos,
{
    let rb = spec_record_bytes(PUT_ACT, data, log.len() as u32);
    let full = log + rb;
    if pos == log.len() {
        lemma_parse_appended(log, PUT_ACT, data);
        lemma_auto_spec_u32_to_from_le_bytes();
        assert(rb.len() == 13 + data.len());
        assert(spec_parse_record(full, pos).unwrap().1 == full.len() as int);
        assert(all_puts(full, full.len() as int));
        assert(record_count(full, full.len() as int) == 0);
        assert(record_count(log, pos) == 0);
    } else {
        let p = spec_parse_record(log, pos).unwrap();
        lemma_parse_stable(log, rb, pos);
        lemma_compacted_append(log, p.1, data);
    }
}

/// Every record of the log from `pos` on is a SET_APPEND with a decodable
/// key-element payload.
pub open spec fn all_set_appends(log: Seq<u8>, pos: int) -> bool
    decreases log.len() - pos,
{
    if pos == log.len() {
        true
    } else {
        match spec_parse_record(log, pos) {
            None => false,
            Some(p) => p.0.act == SET_APPEND_ACT && spec_decode_kv(p.0.data) is Some
                && all_set_appends(log, p.1),
        }
    }
}

/// Appending one decodable SET_APPEND record keeps the log append-only.
pub proof fn lemma_set_compacted_append(log: Seq<u8>, pos: int, data: Seq<u8>)
    requires
        0 <= pos,
        all_set_appends(log, pos),
        spec_decode_kv(data) is Some,
        log.len() + 13 + data.len() <= u32::MAX,
    ensures
        all_set_appends(log + spec_record_bytes(SET_APPEND_ACT, data, log.len() as u32), pos),
    decreases log.len() - pos,
{
    let rb = spec_record_bytes(SET_APPEND_ACT, data, log.len() as u32);
    let full = log + rb;
    if pos == log.len() {
        lemma_parse_appended(log, SET_APPEND_ACT, data);
        lemma_auto_spec_u32_to_from_le_bytes();
        assert(rb.len() == 13 + data.len());
        assert(spec_parse_record(full, pos).unwrap().1 == full.len() as int);
        assert(all_set_appends(full, full.len() as int));
    } else {
        let p = spec_parse_record(log, pos).unwrap();
        lemma_parse_stable(log, rb, pos);
        lemma_set_compacted_append(log, p.1, data);
    }
}

/// Every record of the log from `pos` on is a SORTED_PUT with a decodable
/// sorted-entry payload.
pub open spec fn all_sorted_puts(log: Seq<u8>, pos: int) -> bool
    decreases log.len() - pos,
{
    if pos == log.len() {
        true
    } else {
        match spec_parse_record(log, pos) {
            None => false,
            Some(p) => p.0.act == SORTED_PUT_ACT && spec_decode_sorted_entry(p.0.data) is Some
                && all_sorted_puts(log, p.1),
        }
    }
}

/// Appending one decodable SORTED_PUT record keeps the log insert-only.
pub proof fn lemma_sorted_compacted_append(log: Seq<u8>, pos: int, data: Seq<u8>)
    requires
        0 <= pos,
        all_sorted_puts(log, pos),
        spec_decode_sorted_entry(data) is Some,
        log.len() + 13 + data.len() <= u32::MAX,
    ensures
        all_sorted_puts(log + spec_record_bytes(SORTED_PUT_ACT, data, log.len() as u32), pos),
    decreases log.len() - pos,
{
    let rb = spec_record_bytes(SORTED_PUT_ACT, data, log.len() as u32);
    let full = log + rb;
    if pos == log.len() {
        lemma_parse_appended(log, SORTED_PUT_ACT, data);
        lemma_auto_spec_u32_to_from_le_bytes();
        assert(rb.len() == 13 + data.len());
        assert(spec_parse_record(full, pos).unwrap().1 == full.len() as int);
        assert(all_sorted_puts(full, full.len() as int));
    } else {
        let p = spec_parse_record(log, pos).unwrap();
        lemma_parse_stable(log, rb, pos);
        lemma_sorted_compacted_append(log, p.1, data);
    }
}

/// A record already parsed from the log reads back unchanged after an
/// append.
pub proof fn lemma_parse_stable(log: Seq<u8>, ext: Seq<u8>, pos: int)
    requires
        spec_parse_record(log, pos) is Some,
    ensures
        spec_parse_record(log + ext, pos) == spec_parse_record(log, pos),
{
    let full = log + ext;
    let size = spec_u32_from_le_bytes(log.subrange(pos + 5, pos + 9)) as int;
    assert(full.subrange(pos + 1, pos + 5) =~= log.subrange(pos + 1, pos + 5));
    assert(full.subrange(pos + 5, pos + 9) =~= log.subrange(pos + 5, pos + 9));
    assert(full.subrange(pos + 9, pos + 9 + size) =~= log.subrange(pos + 9, pos + 9 + size));
    assert(full.subrange(pos + 9 + size, pos + 13 + size) =~= log.subrange(
        pos + 9 + size,
        pos + 13 + size,
    ));
}

/// A record appended at the end of the log parses back to exactly its
/// fields.
pub proof fn lemma_parse_appended(log: Seq<u8>, act: u8, data: Seq<u8>)
    requires
        log.len() + 13 + data.len() <= u32::MAX,
    ensures
        spec_parse_record(
            log + spec_record_bytes(act, data, log.len() as u32),
            log.len() as int,
        ) == Some(
            (
                RecordModel { act, crc: crc32_of(data), data, start: log.len() as u32 },
                log.len() + 13 + data.len() as int,
            ),
        ),
{
    lemma_auto_spec_u32_to_from_le_bytes();
    let rb = spec_record_bytes(act, data, log.len() as u32);
    let full = log + rb;
    let pos = log.len() as int;
    let size = data.len() as int;
    assert(rb.len() == 13 + size);
    assert(full[pos] == rb[0]);
    assert(rb[0] == act);
    assert(full.subrange(pos + 1, pos + 5) =~= spec_u32_to_le_bytes(crc32_of(data)));
    assert(full.subrange(pos + 5, pos + 9) =~= spec_u32_to_le_bytes(data.len() as u32));
    assert(full.subrange(pos + 9, pos + 9 + size) =~= data);
    assert(full.subrange(pos + 9 + size, pos + 13 + size) =~= spec_u32_to_le_bytes(
        log.len() as u32,
    ));
}

/// Appending a valid key-value record extends the replay by its effect.
pub proof fn lemma_replay_kv_append(
    log: Seq<u8>,
    pos: int,
    m: Map<Seq<u8>, Seq<u8>>,
    act: u8,
    data: Seq<u8>,
)
    requires
        0 <= pos,
        replay_kv_at(log, pos, m) is Some,
        log.len() + 13 + data.len() <= u32::MAX,
        kv_ok(RecordModel { act, crc: crc32_of(data), data, start: log.len() as u32 }),
    ensures
        replay_kv_at(log + spec_record_bytes(act, data, log.len() as u32), pos, m) == Some(
            kv_apply(replay_kv_at(log, pos, m).unwrap(), RecordModel {
                act,
                crc: crc32_of(data),
                data,
                start: log.len() as u32,
            }),
        ),
    decreases log.len() - pos,
{
    let rb = spec_record_bytes(act, data, log.len() as u32);
    let full = log + rb;
    let rec = RecordModel { act, crc: crc32_of(data), data, start: log.len() as u32 };
    if pos == log.len() {
        lemma_parse_appended(log, act, data);
        lemma_auto_spec_u32_to_from_le_bytes();
        assert(rb.len() == 13 + data.len());
        assert(spec_parse_record(full, pos) == Some((rec, full.len() as int)));
        assert(replay_kv_at(full, full.len() as int, kv_apply(m, rec)) == Some(kv_apply(m, rec)));
    } else {
        let p = spec_parse_record(log, pos).unwrap();
        lemma_parse_stable(log, rb, pos);
        lemma_replay_kv_append(log, p.1, kv_apply(m, p.0), act, data);
    }
}

/// Appending a valid key-set record extends the replay by its effect.
pub proof fn lemma_replay_set_append(
    log: Seq<u8>,
    pos: int,
    m: Map<Seq<u8>, Set<Seq<u8>>>,
    act: u8,
    data: Seq<u8>,
)
    requires
        0 <= pos,
        replay_set_at(log, pos, m) is Some,
        log.len() + 13 + data.len() <= u32::MAX,
        set_ok(RecordModel { act, crc: crc32_of(data), data, start: log.len() as u32 }),
    ensures
        replay_set_at(log + spec_record_bytes(act, data, log.len() as u32), pos, m) == Some(
            set_apply(replay_set_at(log, pos, m).unwrap(), RecordModel {
                act,
                crc: crc32_of(data),
                data,
                start: log.len() as u32,
            }),
        ),
    decreases log.len() - pos,
{
    let rb = spec_record_bytes(act, data, log.len() as u32);
    let full = log + rb;
    let rec = RecordModel { act, crc: crc32_of(data), data, start: log.len() as u32 };
    if pos == log.len() {
        lemma_parse_appended(log, act, data);
        lemma_auto_spec_u32_to_from_le_bytes();
        assert(rb.len() == 13 + data.len());
        assert(spec_parse_record(full, pos) == Some((rec, full.len() as int)));
        assert(replay_set_at(full, full.len() as int, set_apply(m, rec)) == Some(
            set_apply(m, rec),
        ));
    } else {
        let p = spec_parse_record(log, pos).unwrap();
        lemma_parse_stable(log, rb, pos);
        lemma_replay_set_append(log, p.1, set_apply(m, p.0), act, data);
    }
}

/// Appending a valid sorted-map record extends the replay by its effect.
pub proof fn lemma_replay_sorted_append(
    log: Seq<u8>,
    pos: int,
    m: Map<Seq<u8>, Seq<(Seq<KeyModel>, Seq<u8>)>>,
    act: u8,
    data: Seq<u8>,
)
    requires
        0 <= pos,
        replay_sorted_at(log, pos, m) is Some,
        log.len() + 13 + data.len() <= u32::MAX,
        sorted_ok(RecordModel { act, crc: crc32_of(data), data, start: log.len() as u32 }),
    ensures
        replay_sorted_at(log + spec_record_bytes(act, data, log.len() as u32), pos, m) == Some(
            sorted_apply(replay_sorted_at(log, pos, m).unwrap(), RecordModel {
                act,
                crc: crc32_of(data),
                data,
                start: log.len() as u32,
            }),
        ),
    decreases log.len() - pos,
{
    let rb = spec_record_bytes(act, data, log.len() as u32);
    let full = log + rb;
    let rec = RecordModel { act, crc: crc32_of(data), data, start: log.len() as u32 };
    if pos == log.len() {
        lemma_parse_appended(log, act, data);
        lemma_auto_spec_u32_to_from_le_bytes();
        assert(rb.len() == 13 + data.len());
        assert(spec_parse_record(full, pos) == Some((rec, full.len() as int)));
        assert(replay_sorted_at(full, full.len() as int, sorted_apply(m, rec)) == Some(
            sorted_apply(m, rec),
        ));
    } else {
        let p = spec_parse_record(log, pos).unwrap();
        lemma_parse_stable(log, rb, pos);
        lemma_replay_sorted_append(log, p.1, sorted_apply(m, p.0), act, data);
    }
}

/// The append-only log buffer. Its view is the bytes written so far; the
/// next record starts at the buffer's length.
#[derive(Debug)]
pub struct WalStorage {
    log: Vec<u8>,
}

impl View for WalStorage {
    type V = Seq<u8>;

    closed spec fn view(&self) -> Seq<u8> {
        self.log@
    }
}

/// Appends a framed record to the log buffer.
pub fn write(log: &mut Vec<u8>, put_action: &StoredAction)
    ensures
        final(log)@ == old(log)@ + put_action.spec_bytes(),
{
    log.push(*put_action.act_type());
    let mut crc_bytes = u32_to_le_bytes(*put_action.crc());
    log.append(&mut crc_bytes);
    let mut size_bytes = u32_to_le_bytes(*put_action.data_size());
    log.append(&mut size_bytes);
    push_bytes(log, put_action.data());
    let mut start_bytes = u32_to_le_bytes(*put_action.start_offset());
    log.append(&mut start_bytes);
    proof {
        assert(log@ =~= old(log)@ + put_action.spec_bytes());
    }
}

impl WalStorage {
    /// An empty in-memory log.
    pub fn new_vec_based() -> (r: Self)
        ensures
            r@ == Seq::<u8>::empty(),
    {
        let r = WalStorage { log: Vec::new() };
        proof {
            assert(r@ =~= Seq::<u8>::empty());
        }
        r
    }

    /// The log bytes written so far.
    pub fn log_bytes(&self) -> (r: &Vec<u8>)
        ensures
            r@ == self@,
    {
        &self.log
    }

    /// The offset at which the next record will start.
    pub fn offset(&self) -> (r: u32)
        requires
            self@.len() <= u32::MAX,
        ensures
            r == self@.len(),
    {
        self.log.len() as u32
    }

    /// Appends a PUT record and hands the buffers back.
    pub fn store_put_event(&mut self, key: Vec<u8>, value: Vec<u8>) -> (r: (Vec<u8>, Vec<u8>))
        requires
            old(self)@.len() + 21 + key@.len() + value@.len() <= u32::MAX,
        ensures
            final(self)@ == old(self)@ + spec_record_bytes(
                PUT_ACT,
                spec_encode_kv(key@, value@),
                old(self)@.len() as u32,
            ),
            r.0@ == key@,
            r.1@ == value@,
    {
        let offset = self.log.len() as u32;
        let key_value = KeyValueData::new(key, value);
        let put_action = StoredAction::put_action(&offset, &key_value);
        write(&mut self.log, &put_action);
        key_value.owned_key_value()
    }

    /// Appends a DELETE record; the payload is the raw key.
    pub fn store_delete_event(&mut self, key: &[u8])
        requires
            old(self)@.len() + 13 + key@.len() <= u32::MAX,
        ensures
            final(self)@ == old(self)@ + spec_record_bytes(
                DELETE_ACT,
                key@,
                old(self)@.len() as u32,
            ),
    {
        let offset = self.log.len() as u32;
        let put_action = StoredAction::delete_action(&offset, key);
        write(&mut self.log, &put_action);
    }

    /// Appends a SET_APPEND record and hands the buffers back.
    pub fn store_append_to_set_event(&mut self, key: Vec<u8>, set_key: Vec<u8>) -> (r: (
        Vec<u8>,
        Vec<u8>,
    ))
        requires
            old(self)@.len() + 21 + key@.len() + set_key@.len() <= u32::MAX,
        ensures
            final(self)@ == old(self)@ + spec_record_bytes(
                SET_APPEND_ACT,
                spec_encode_kv(key@, set_key@),
                old(self)@.len() as u32,
            ),
            r.0@ == key@,
            r.1@ == set_key@,
    {
        let offset = self.log.len() as u32;
        let key_value = KeyValueData::new(key, set_key);
        let put_action = StoredAction::append_to_set(&offset, &key_value);
        write(&mut self.log, &put_action);
        key_value.owned_key_value()
    }

    /// Appends a SET_REMOVE record and hands the buffers back.
    pub fn store_remove_from_set_event(&mut self, key: Vec<u8>, value: Vec<u8>) -> (r: (
        Vec<u8>,
        Vec<u8>,
    ))
        requires
            old(self)@.len() + 21 + key@.len() + value@.len() <= u32::MAX,
        ensures
            final(self)@ == old(self)@ + spec_record_bytes(
                SET_REMOVE_ACT,
                spec_encode_kv(key@, value@),
                old(self)@.len() as u32,
            ),
            r.0@ == key@,
            r.1@ == value@,
    {
        let offset = self.log.len() as u32;
        let key_value = KeyValueData::new(key, value);
        let put_action = StoredAction::remove_from_set(&offset, &key_value);
        write(&mut self.log, &put_action);
        key_value.owned_key_value()
    }

    /// Appends a SORTED_PUT record and hands the buffers back.
    pub fn store_put_to_map_event(
        &mut self,
        key: Vec<u8>,
        search_key: SearchKey,
        value: Vec<u8>,
    ) -> (r: (Vec<u8>, SearchKey, Vec<u8>))
        requires
            key@.len() <= u32::MAX,
            value@.len() <= u32::MAX,
            old(self)@.len() + 13 + spec_encode_sorted_entry(key@, search_key@, value@).len()
                <= u32::MAX,
        ensures
            final(self)@ == old(self)@ + spec_record_bytes(
                SORTED_PUT_ACT,
                spec_encode_sorted_entry(key@, search_key@, value@),
                old(self)@.len() as u32,
            ),
            search_key_encodable(search_key@),
            r.0@ == key@,
            r.1@ == search_key@,
            r.2@ == value@,
    {
        let offset = self.log.len() as u32;
        let data = encode_sorted_entry(&key, &search_key, &value);
        let action = StoredAction::framed(SORTED_PUT_ACT, data, &offset);
        write(&mut self.log, &action);
        (key, search_key, value)
    }

    /// Appends a SORTED_REMOVE record and hands the buffers back.
    pub fn store_remove_from_sorted_map_event(&mut self, key: Vec<u8>, search_key: SearchKey) -> (r:
        (Vec<u8>, SearchKey))
        requires
            key@.len() <= u32::MAX,
            old(self)@.len() + 13 + spec_encode_sorted_key(key@, search_key@).len() <= u32::MAX,
        ensures
            final(self)@ == old(self)@ + spec_record_bytes(
                SORTED_REMOVE_ACT,
                spec_encode_sorted_key(key@, search_key@),
                old(self)@.len() as u32,
            ),
            search_key_encodable(search_key@),
            r.0@ == key@,
            r.1@ == search_key@,
    {
        let offset = self.log.len() as u32;
        let data = encode_sorted_key(&key, &search_key);
        let action = StoredAction::framed(SORTED_REMOVE_ACT, data, &offset);
        write(&mut self.log, &action);
        (key, search_key)
    }
}

/// Parses the record starting at `*offset` and advances `*offset` past it.
pub fn build_action(offset: &mut usize, bytes: &[u8]) -> (r: Result<StoredAction, StoreError>)
    requires
        *old(offset) <= bytes@.len(),
    ensures
        match r {
            Ok(a) => {
                &&& spec_parse_record(bytes@, *old(offset) as int) == Some(
                    (
                        (RecordModel {
                            act: a.spec_act_type(),
                            crc: a.spec_crc(),
                            data: a.spec_data(),
                            start: a.spec_start_offset(),
                        }),
                        *final(offset) as int,
                    ),
                )
                &&& a.spec_data_size() == a.spec_data().len()
                &&& *old(offset) < *final(offset) <= bytes@.len()
            },
            Err(e) => spec_parse_record(bytes@, *old(offset) as int) is None && e
                == StoreError::CorruptLog,
        },
{
    proof {
        lemma_auto_spec_u32_to_from_le_bytes();
    }
    let n = bytes.len();
    let pos = *offset;
    if n - pos < 13 {
        return Err(StoreError::CorruptLog);
    }
    let act_type = bytes[pos];
    let crc_field = u32_from_le_bytes(slice_subrange(bytes, pos + 1, pos + 5));
    let data_size = u32_from_le_bytes(slice_subrange(bytes, pos + 5, pos + 9));
    let size = data_size as usize;
    if n - pos - 13 < size {
        return Err(StoreError::CorruptLog);
    }
    let data = slice_to_vec(slice_subrange(bytes, pos + 9, pos + 9 + size));
    let start_offset = u32_from_le_bytes(slice_subrange(bytes, pos + 9 + size, pos + 13 + size));
    *offset = pos + 13 + size;
    Ok(StoredAction::new(act_type, crc_field, data_size, data, start_offset))
}

/// Whether the stored CRC matches the payload's actual CRC.
pub fn valid_crc(expected_crc: &u32, data: &[u8]) -> (r: bool)
    ensures
        r == (*expected_crc == crc32_of(data@)),
{
    let actual_crc = crc(data);
    actual_crc == *expected_crc
}

/// Forward scan for the key-value store: applies PUT and DELETE records in
/// log order; any parse failure, CRC mismatch or undecodable payload aborts.
pub fn read_forward(bytes: &[u8]) -> (r: Result<AssocMap<Vec<u8>>, StoreError>)
    ensures
        match r {
            Ok(m) => replay_kv(bytes@) == Some(m@),
            Err(_) => replay_kv(bytes@) is None,
        },
{
    let mut result: AssocMap<Vec<u8>> = AssocMap::new();
    let mut offset: usize = 0;
    while offset < bytes.len()
        invariant
            offset <= bytes@.len(),
            replay_kv(bytes@) == replay_kv_at(bytes@, offset as int, result@),
        decreases bytes@.len() - offset,
    {
        let ghost pre_map = result@;
        let ghost pre_off = offset as int;
        let stored_action = match build_action(&mut offset, bytes) {
            Ok(a) => a,
            Err(e) => {
                return Err(e);
            },
        };
        let ghost rec = (RecordModel {
            act: stored_action.spec_act_type(),
            crc: stored_action.spec_crc(),
            data: stored_action.spec_data(),
            start: stored_action.spec_start_offset(),
        });
        if !valid_crc(stored_action.crc(), stored_action.data()) {
            return Err(StoreError::CorruptLog);
        }
        let act = *stored_action.act_type();
        if act == DELETE_ACT {
            result.remove(stored_action.data());
            proof {
                assert(result@ == kv_apply(pre_map, rec));
            }
        } else if act == PUT_ACT {
            match decode_kv(stored_action.data()) {
                Some((k, v)) => {
                    let ghost gk = k@;
                    let ghost gv = v@;
                    result.insert(k, v);
                    proof {
                        let p = choose|p: (Seq<u8>, Seq<u8>)| spec_decode_kv(rec.data) == Some(p);
                        assert(Some(p) == Some((gk, gv)));
                        assert(result@ == kv_apply(pre_map, rec));
                    }
                },
                None => {
                    proof {
                        assert(!kv_ok(rec));
                    }
                    return Err(StoreError::CorruptLog);
                },
            }
        } else {
            proof {
                assert(!kv_ok(rec));
            }
            return Err(StoreError::CorruptLog);
        }
    }
    Ok(result)
}

/// Forward scan for the key-set store: applies SET_APPEND, SET_REMOVE and
/// DELETE records in log order.
pub fn read_for_set(bytes: &[u8]) -> (r: Result<AssocMap<ByteSet>, StoreError>)
    ensures
        match r {
            Ok(m) => replay_set(bytes@) == Some(m@),
            Err(_) => replay_set(bytes@) is None,
        },
{
    let mut result: AssocMap<ByteSet> = AssocMap::new();
    let mut offset: usize = 0;
    while offset < bytes.len()
        invariant
            offset <= bytes@.len(),
            replay_set(bytes@) == replay_set_at(bytes@, offset as int, result@),
        decreases bytes@.len() - offset,
    {
        let ghost pre_map = result@;
        let stored_action = match build_action(&mut offset, bytes) {
            Ok(a) => a,
            Err(e) => {
                return Err(e);
            },
        };
        let ghost rec = (RecordModel {
            act: stored_action.spec_act_type(),
            crc: stored_action.spec_crc(),
            data: stored_action.spec_data(),
            start: stored_action.spec_start_offset(),
        });
        if !valid_crc(stored_action.crc(), stored_action.data()) {
            return Err(StoreError::CorruptLog);
        }
        let act = *stored_action.act_type();
        if act == DELETE_ACT {
            result.remove(stored_action.data());
            proof {
                assert(result@ == set_apply(pre_map, rec));
            }
        } else if act == SET_APPEND_ACT {
            match decode_kv(stored_action.data()) {
                Some((k, elem)) => {
                    let ghost gk = k@;
                    let ghost ge = elem@;
                    let mut cur = match result.get(k.as_slice()) {
                        Some(s) => s.clone(),
                        None => ByteSet::new(),
                    };
                    cur.insert_elem(elem);
                    result.insert(k, cur);
                    proof {
                        let p = choose|p: (Seq<u8>, Seq<u8>)| spec_decode_kv(rec.data) == Some(p);
                        assert(Some(p) == Some((gk, ge)));
                        assert(result@ =~= set_apply(pre_map, rec));
                    }
                },
                None => {
                    proof {
                        assert(!set_ok(rec));
                    }
                    return Err(StoreError::CorruptLog);
                },
            }
        } else if act == SET_REMOVE_ACT {
            match decode_kv(stored_action.data()) {
                Some((k, elem)) => {
                    let ghost gk = k@;
                    let ghost ge = elem@;
                    match result.get(k.as_slice()) {
                        Some(s) => {
                            let mut cur = s.clone();
                            cur.remove_elem(elem.as_slice());
                            result.insert(k, cur);
                        },
                        None => {},
                    }
                    proof {
                        let p = choose|p: (Seq<u8>, Seq<u8>)| spec_decode_kv(rec.data) == Some(p);
                        assert(Some(p) == Some((gk, ge)));
                        assert(result@ =~= set_apply(pre_map, rec));
                    }
                },
                None => {
                    proof {
                        assert(!set_ok(rec));
                    }
                    return Err(StoreError::CorruptLog);
                },
            }
        } else {
            proof {
                assert(!set_ok(rec));
            }
            return Err(StoreError::CorruptLog);
        }
    }
    Ok(result)
}

/// Forward scan for the sorted-map store: applies SORTED_PUT, SORTED_REMOVE
/// and DELETE records in log order.
pub fn read_for_map(bytes: &[u8]) -> (r: Result<AssocMap<SortedEntries>, StoreError>)
    ensures
        match r {
            Ok(m) => replay_sorted(bytes@) == Some(m@),
            Err(_) => replay_sorted(bytes@) is None,
        },
{
    let mut result: AssocMap<SortedEntries> = AssocMap::new();
    let mut offset: usize = 0;
    while offset < bytes.len()
        invariant
            offset <= bytes@.len(),
            replay_sorted(bytes@) == replay_sorted_at(bytes@, offset as int, result@),
        decreases bytes@.len() - offset,
    {
        let ghost pre_map = result@;
        let stored_action = match build_action(&mut offset, bytes) {
            Ok(a) => a,
            Err(e) => {
                return Err(e);
            },
        };
        let ghost rec = (RecordModel {
            act: stored_action.spec_act_type(),
            crc: stored_action.spec_crc(),
            data: stored_action.spec_data(),
            start: stored_action.spec_start_offset(),
        });
        if !valid_crc(stored_action.crc(), stored_action.data()) {
            return Err(StoreError::CorruptLog);
        }
        let act = *stored_action.act_type();
        if act == DELETE_ACT {
            result.remove(stored_action.data());
            proof {
                assert(result@ == sorted_apply(pre_map, rec));
            }
        } else if act == SORTED_PUT_ACT {
            match decode_sorted_entry(stored_action.data()) {
                Some((k, sk, v)) => {
                    let ghost gk = k@;
                    let ghost gsk = sk@;
                    let ghost gv = v@;
                    let mut cur = match result.get(k.as_slice()) {
                        Some(s) => s.clone(),
                        None => SortedEntries::new(),
                    };
                    cur.insert_entry(sk, v);
                    result.insert(k, cur);
                    proof {
                        let p = choose|p: (Seq<u8>, Seq<KeyModel>, Seq<u8>)|
                            spec_decode_sorted_entry(rec.data) == Some(p);
                        assert(Some(p) == Some((gk, gsk, gv)));
                        assert(result@ =~= sorted_apply(pre_map, rec));
                    }
                },
                None => {
                    proof {
                        assert(!sorted_ok(rec));
                    }
                    return Err(StoreError::CorruptLog);
                },
            }
        } else if act == SORTED_REMOVE_ACT {
            match decode_sorted_key(stored_action.data()) {
                Some((k, sk)) => {
                    let ghost gk = k@;
                    let ghost gsk = sk@;
                    match result.get(k.as_slice()) {
                        Some(s) => {
                            let mut cur = s.clone();
                            cur.remove_entry(&sk);
                            result.insert(k, cur);
                        },
                        None => {},
                    }
                    proof {
                        let p = choose|p: (Seq<u8>, Seq<KeyModel>)|
                            spec_decode_sorted_key(rec.data) == Some(p);
                        assert(Some(p) == Some((gk, gsk)));
                        assert(result@ =~= sorted_apply(pre_map, rec));
                    }
                },
                None => {
                    proof {
                        assert(!sorted_ok(rec));
                    }
                    return Err(StoreError::CorruptLog);
                },
            }
        } else {
            proof {
                assert(!sorted_ok(rec));
            }
            return Err(StoreError::CorruptLog);
        }
    }
    Ok(result)
}

/// Looks up a key in a snapshot, `None` when absent.
pub open spec fn opt_lookup(m: Map<Seq<u8>, Seq<u8>>, q: Seq<u8>) -> Option<Seq<u8>> {
    if m.contains_key(q) {
        Some(m[q])
    } else {
        None
    }
}

/// Applies records in order over a base snapshot.
pub open spec fn fold_kv(rs: Seq<RecordModel>, m: Map<Seq<u8>, Seq<u8>>) -> Map<Seq<u8>, Seq<u8>>
    decreases rs.len(),
{
    if rs.len() == 0 {
        m
    } else {
        fold_kv(rs.drop_first(), kv_apply(m, rs[0]))
    }
}

/// What the backward scan knows of a key: a first-seen PUT wins, a
/// first-seen DELETE pins absence, anything else defers to older records.
pub open spec fn backward_mask(
    result: Map<Seq<u8>, Seq<u8>>,
    removed: Set<Seq<u8>>,
    base: Option<Seq<u8>>,
    q: Seq<u8>,
) -> Option<Seq<u8>> {
    if result.contains_key(q) {
        Some(result[q])
    } else if removed.contains(q) {
        None
    } else {
        base
    }
}

/// Reads the 4-byte back-link that ends at `idx`: the start offset of the
/// record whose bytes end there.
pub fn prev_block_start_offset(idx: usize, bytes: &[u8]) -> (r: Result<usize, StoreError>)
    requires
        idx <= bytes@.len(),
    ensures
        match r {
            Ok(p) => idx >= 4 && p == spec_u32_from_le_bytes(
                bytes@.subrange(idx - 4, idx as int),
            ),
            Err(_) => idx < 4,
        },
{
    if idx < 4 {
        return Err(StoreError::CorruptLog);
    }
    proof {
        lemma_auto_spec_u32_to_from_le_bytes();
    }
    Ok(u32_from_le_bytes(slice_subrange(bytes, idx - 4, idx)) as usize)
}

/// First-seen handling of one record during the backward scan: a DELETE
/// pins the key absent unless a newer PUT was seen; a PUT installs its
/// value unless a newer PUT or DELETE was seen.
pub fn update_backward_reading_map(
    stored_action: &StoredAction,
    map: &mut AssocMap<Vec<u8>>,
    removed_keys: &mut ByteSet,
) -> (r: Result<(), StoreError>)
    ensures
        ({
            let rec = (RecordModel {
                act: stored_action.spec_act_type(),
                crc: stored_action.spec_crc(),
                data: stored_action.spec_data(),
                start: stored_action.spec_start_offset(),
            });
            match r {
                Ok(_) => {
                    &&& kv_ok(rec)
                    &&& if rec.act == DELETE_ACT {
                        &&& final(map)@ == old(map)@
                        &&& final(removed_keys)@ == if old(map)@.contains_key(rec.data) {
                            old(removed_keys)@
                        } else {
                            old(removed_keys)@.insert(rec.data)
                        }
                    } else {
                        let p = choose|p: (Seq<u8>, Seq<u8>)| spec_decode_kv(rec.data) == Some(p);
                        &&& final(removed_keys)@ == old(removed_keys)@
                        &&& final(map)@ == if !old(map)@.contains_key(p.0) && !old(
                            removed_keys,
                        )@.contains(p.0) {
                            old(map)@.insert(p.0, p.1)
                        } else {
                            old(map)@
                        }
                    }
                },
                Err(_) => {
                    &&& !kv_ok(rec)
                    &&& final(map)@ == old(map)@
                    &&& final(removed_keys)@ == old(removed_keys)@
                },
            }
        }),
{
    let act = *stored_action.act_type();
    if act == DELETE_ACT {
        if !map.contains_key(stored_action.data()) {
            let key = slice_to_vec(stored_action.data());
            removed_keys.insert_elem(key);
            proof {
                assert(!old(map)@.contains_key(stored_action.spec_data()));
            }
        }
        Ok(())
    } else if act == PUT_ACT {
        match decode_kv(stored_action.data()) {
            Some((k, v)) => {
                let ghost gk = k@;
                let ghost gv = v@;
                if !map.contains_key(k.as_slice()) && !removed_keys.contains(k.as_slice()) {
                    map.insert(k, v);
                }
                proof {
                    let p = choose|p: (Seq<u8>, Seq<u8>)|
                        spec_decode_kv(stored_action.spec_data()) == Some(p);
                    assert(Some(p) == Some((gk, gv)));
                }
                Ok(())
            },
            None => Err(StoreError::CorruptLog),
        }
    } else {
        Err(StoreError::CorruptLog)
    }
}

/// Backward scan for the key-value store: follows the back-links from the
/// newest record to offset 0, resolving each key at its newest record. On
/// success the result is exactly what a full forward replay would produce;
/// any structural inconsistency or CRC mismatch is an error.
pub fn read_backward(bytes: &[u8]) -> (r: Result<AssocMap<Vec<u8>>, StoreError>)
    ensures
        match r {
            Ok(m) => replay_kv(bytes@) == Some(m@),
            Err(_) => true,
        },
        wf_chain(bytes@, 0) && replay_kv(bytes@) is Some ==> r is Ok,
{
    let n = bytes.len();
    let mut result: AssocMap<Vec<u8>> = AssocMap::new();
    let mut removed_keys: ByteSet = ByteSet::new();
    let mut boundary: usize = n;
    let ghost mut rs: Seq<RecordModel> = Seq::empty();
    let ghost clean = wf_chain(bytes@, 0) && replay_kv(bytes@) is Some;
    proof {
        if clean {
            lemma_wf_chain_chain_to(bytes@, 0);
        }
    }
    while boundary != 0
        invariant
            boundary <= bytes@.len(),
            clean == (wf_chain(bytes@, 0) && replay_kv(bytes@) is Some),
            clean ==> chain_to(bytes@, 0, boundary as int),
            forall|m0: Map<Seq<u8>, Seq<u8>>| #[trigger] replay_kv_at(
                bytes@,
                boundary as int,
                m0,
            ) == Some(fold_kv(rs, m0)),
            forall|m0: Map<Seq<u8>, Seq<u8>>, q: Seq<u8>| #[trigger] opt_lookup(
                fold_kv(rs, m0),
                q,
            ) == backward_mask(result@, removed_keys@, opt_lookup(m0, q), q),
        decreases boundary,
    {
        let ghost old_rs = rs;
        let ghost old_result = result@;
        let ghost old_removed = removed_keys@;
        let ghost last_start = chain_last_pos(bytes@, 0, boundary as int);
        proof {
            if clean {
                lemma_chain_last(bytes@, 0, boundary as int);
                lemma_replay_some_along(bytes@, 0, last_start, Map::empty());
                let prev = spec_parse_record(bytes@, last_start).unwrap();
                assert(bytes@.subrange(boundary - 4, boundary as int) =~= bytes@.subrange(
                    last_start + 9 + (prev.1 - last_start - 13),
                    last_start + 13 + (prev.1 - last_start - 13),
                ));
            }
        }
        let start = match prev_block_start_offset(boundary, bytes) {
            Ok(p) => p,
            Err(e) => {
                proof {
                    assert(!clean);
                }
                return Err(e);
            },
        };
        proof {
            if clean {
                assert(start as int == last_start);
            }
        }
        if start >= boundary {
            proof {
                assert(!clean);
            }
            return Err(StoreError::CorruptLog);
        }
        let mut off = start;
        let stored_action = match build_action(&mut off, bytes) {
            Ok(a) => a,
            Err(e) => {
                proof {
                    assert(!clean);
                }
                return Err(e);
            },
        };
        if off != boundary {
            proof {
                assert(!clean);
            }
            return Err(StoreError::CorruptLog);
        }
        proof {
            if clean {
                let m2 = choose|m2: Map<Seq<u8>, Seq<u8>>|
                    #[trigger] replay_kv_at(bytes@, last_start, m2) is Some;
                assert(replay_kv_at(bytes@, last_start, m2) is Some);
                assert(stored_action.spec_crc() == crc32_of(stored_action.spec_data()));
                assert(kv_ok(
                    RecordModel {
                        act: stored_action.spec_act_type(),
                        crc: stored_action.spec_crc(),
                        data: stored_action.spec_data(),
                        start: stored_action.spec_start_offset(),
                    },
                ));
            }
        }
        if !valid_crc(stored_action.crc(), stored_action.data()) {
            proof {
                assert(!clean);
            }
            return Err(StoreError::CorruptLog);
        }
        let ghost rec = (RecordModel {
            act: stored_action.spec_act_type(),
            crc: stored_action.spec_crc(),
            data: stored_action.spec_data(),
            start: stored_action.spec_start_offset(),
        });
        match update_backward_reading_map(&stored_action, &mut result, &mut removed_keys) {
            Ok(_) => {},
            Err(e) => {
                proof {
                    assert(!clean);
                }
                return Err(e);
            },
        }
        proof {
            rs = seq![rec] + old_rs;
            assert(rs[0] == rec);
            assert(rs.drop_first() =~= old_rs);
            assert forall|m0: Map<Seq<u8>, Seq<u8>>| #[trigger] replay_kv_at(
                bytes@,
                start as int,
                m0,
            ) == Some(fold_kv(rs, m0)) by {
                assert(replay_kv_at(bytes@, boundary as int, kv_apply(m0, rec)) == Some(
                    fold_kv(old_rs, kv_apply(m0, rec)),
                ));
                assert(fold_kv(rs, m0) == fold_kv(old_rs, kv_apply(m0, rec)));
            }
            assert forall|m0: Map<Seq<u8>, Seq<u8>>, q: Seq<u8>| #[trigger] opt_lookup(
                fold_kv(rs, m0),
                q,
            ) == backward_mask(result@, removed_keys@, opt_lookup(m0, q), q) by {
                let m0p = kv_apply(m0, rec);
                assert(fold_kv(rs, m0) == fold_kv(old_rs, m0p));
                assert(opt_lookup(fold_kv(old_rs, m0p), q) == backward_mask(
                    old_result,
                    old_removed,
                    opt_lookup(m0p, q),
                    q,
                ));
                if rec.act == DELETE_ACT {
                    if q == rec.data {
                        assert(opt_lookup(m0p, q) is None);
                    } else {
                        assert(opt_lookup(m0p, q) == opt_lookup(m0, q));
                    }
                } else {
                    let p = choose|p: (Seq<u8>, Seq<u8>)| spec_decode_kv(rec.data) == Some(p);
                    if q == p.0 {
                        assert(opt_lookup(m0p, q) == Some(p.1));
                    } else {
                        assert(opt_lookup(m0p, q) == opt_lookup(m0, q));
                    }
                }
            }
        }
        boundary = start;
    }
    proof {
        assert(replay_kv_at(bytes@, 0, Map::empty()) == Some(fold_kv(rs, Map::empty())));
        let m_final = fold_kv(rs, Map::empty());
        assert forall|q: Seq<u8>| #[trigger] m_final.contains_key(q) == result@.contains_key(q)
            && (m_final.contains_key(q) ==> m_final[q] == result@[q]) by {
            assert(opt_lookup(m_final, q) == backward_mask(
                result@,
                removed_keys@,
                opt_lookup(Map::empty(), q),
                q,
            ));
        }
        assert(m_final =~= result@);
    }
    Ok(result)
}

/// Recovers a key-value snapshot: backward scan first, forward scan as the
/// fallback.
pub fn collect(bytes: &[u8]) -> (r: Result<AssocMap<Vec<u8>>, StoreError>)
    ensures
        match r {
            Ok(m) => replay_kv(bytes@) == Some(m@),
            Err(_) => replay_kv(bytes@) is None,
        },
{
    match read_backward(bytes) {
        Ok(val) => Ok(val),
        Err(_) => read_forward(bytes),
    }
}

} // verus!
