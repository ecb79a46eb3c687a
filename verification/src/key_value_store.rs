//! The durable key-value store: a sharded concurrent map of byte-string
//! keys to byte-string values, every mutation logged before it is applied.
//!
//! The store's central invariant: replaying its log from the start yields
//! exactly its in-memory contents.

use vstd::prelude::*;

verus! {

use vstd::bytes::spec_u64_to_le_bytes;
use vstd::bytes::spec_u64_from_le_bytes;
use vstd::bytes::lemma_auto_spec_u64_to_from_le_bytes;
use vstd::bytes::u64_to_le_bytes;
use vstd::bytes::u64_from_le_bytes;
use crate::codec::PUT_ACT;
use crate::codec::DELETE_ACT;
use crate::codec::spec_record_bytes;
use crate::codec::spec_encode_kv;
use crate::codec::lemma_kv_round_trip;
use crate::keys::clone_bytes;
use crate::shards::kv_shards_view;
use crate::shards::kv_shards_new;
use crate::shards::kv_shards_get;
use crate::shards::kv_shards_insert;
use crate::shards::kv_shards_remove;
use crate::shards::kv_shards_contains;
use crate::shards::kv_shards_len;
use crate::wal::WalStorage;
use crate::wal::StoreError;
use crate::wal::RecordModel;
use crate::wal::replay_kv;
use crate::wal::kv_apply;
use crate::wal::wf_chain;
use crate::wal::lemma_wf_chain_append;
use crate::wal::collect;
use crate::codec::crc32_of;
use crate::wal::lemma_replay_kv_append;

/// How `compute` sees the current value: a borrowed slice of the stored
/// bytes, or nothing when the key is absent.
pub open spec fn kv_prev_arg(m: Map<Seq<u8>, Seq<u8>>, k: Seq<u8>, prev: Option<&[u8]>) -> bool {
    match prev {
        Some(s) => m.contains_key(k) && s@ == m[k],
        None => !m.contains_key(k),
    }
}

/// A byte-string value read as a number: exactly 8 little-endian bytes.
pub open spec fn spec_as_number(v: Seq<u8>) -> Option<u64> {
    if v.len() == 8 {
        Some(spec_u64_from_le_bytes(v))
    } else {
        None
    }
}

/// The log bytes one PUT record per binding occupies: framing and length
/// tags plus the key and value themselves.
pub open spec fn kv_pairs_size(pairs: Seq<(Seq<u8>, Seq<u8>)>) -> nat
    decreases pairs.len(),
{
    if pairs.len() == 0 {
        0
    } else {
        kv_pairs_size(pairs.drop_last()) + 21 + pairs.last().0.len() + pairs.last().1.len()
    }
}

/// The snapshot can be re-logged within the 4-byte offset format: every
/// duplicate-free enumeration of its bindings (all enumerations have the
/// same total size) fits a log of at most `u32::MAX` bytes.
pub open spec fn kv_snapshot_fits(m: Map<Seq<u8>, Seq<u8>>) -> bool {
    forall|pairs: Seq<(Seq<u8>, Seq<u8>)>|
        crate::containers::map_of(pairs) == m && crate::containers::assoc_keys(
            pairs,
        ).no_duplicates() ==> kv_pairs_size(pairs) <= u32::MAX
}

/// A prefix never outweighs the whole, and one more pair adds its exact
/// record size.
pub proof fn lemma_kv_pairs_size_prefix(pairs: Seq<(Seq<u8>, Seq<u8>)>, j: int)
    requires
        0 <= j <= pairs.len(),
    ensures
        kv_pairs_size(pairs.subrange(0, j)) <= kv_pairs_size(pairs),
        j < pairs.len() ==> kv_pairs_size(pairs.subrange(0, j + 1)) == kv_pairs_size(
            pairs.subrange(0, j),
        ) + 21 + pairs[j].0.len() + pairs[j].1.len(),
    decreases pairs.len() - j,
{
    if j < pairs.len() {
        let p = pairs.subrange(0, j);
        let p1 = pairs.subrange(0, j + 1);
        assert(p1.drop_last() =~= p);
        assert(p1.last() == pairs[j]);
        lemma_kv_pairs_size_prefix(pairs, j + 1);
    } else {
        assert(pairs.subrange(0, j) =~= pairs);
    }
}

/// The durable key-value store.
pub struct DurableKeyValueStore {
    store: dashmap::DashMap<Vec<u8>, Vec<u8>>,
    wal: WalStorage,
}

impl View for DurableKeyValueStore {
    type V = Map<Seq<u8>, Seq<u8>>;

    closed spec fn view(&self) -> Map<Seq<u8>, Seq<u8>> {
        kv_shards_view(self.store)
    }
}

impl DurableKeyValueStore {
    /// The bytes of the store's log.
    pub closed spec fn log(&self) -> Seq<u8> {
        self.wal@
    }

    /// The store is consistent with its log: replaying the log yields the
    /// in-memory contents, and one more record can still be addressed.
    pub open spec fn wf(&self) -> bool {
        &&& replay_kv(self.log()) == Some(self@)
        &&& self@.dom().finite()
        &&& wf_chain(self.log(), 0)
    }

    /// Room in the log for one more record with a payload of `data_len`
    /// bytes.
    pub open spec fn can_log(&self, data_len: nat) -> bool {
        self.log().len() + 13 + data_len <= u32::MAX
    }

    /// An empty store over an empty in-memory log.
    pub fn new_vec_based() -> (r: Self)
        ensures
            r.wf(),
            r@ == Map::<Seq<u8>, Seq<u8>>::empty(),
            r.log() == Seq::<u8>::empty(),
    {
        let r = DurableKeyValueStore { store: kv_shards_new(), wal: WalStorage::new_vec_based() };
        r
    }

    /// The log bytes written so far.
    pub fn log_bytes(&self) -> (r: &Vec<u8>)
        ensures
            r@ == self.log(),
    {
        self.wal.log_bytes()
    }

    /// The value stored under `key`, copied out, if any.
    pub fn get(&self, key: &[u8]) -> (r: Option<Vec<u8>>)
        ensures
            match r {
                Some(v) => self@.contains_key(key@) && v@ == self@[key@],
                None => !self@.contains_key(key@),
            },
    {
        kv_shards_get(&self.store, key)
    }

    /// Whether `key` is bound.
    pub fn contains(&self, key: &[u8]) -> (r: bool)
        ensures
            r == self@.contains_key(key@),
    {
        kv_shards_contains(&self.store, key)
    }

    /// How many keys the store holds.
    pub fn size(&self) -> (r: usize)
        requires
            self.wf(),
        ensures
            r == self@.dom().len(),
    {
        kv_shards_len(&self.store)
    }

    /// Logs and applies a PUT: binds `key` to `val`.
    pub fn put(&mut self, key: Vec<u8>, val: Vec<u8>)
        requires
            old(self).wf(),
            old(self).can_log(8 + key@.len() + val@.len()),
        ensures
            final(self).wf(),
            final(self)@ == old(self)@.insert(key@, val@),
            final(self).log() == old(self).log() + spec_record_bytes(
                PUT_ACT,
                spec_encode_kv(key@, val@),
                old(self).log().len() as u32,
            ),
    {
        let ghost gk = key@;
        let ghost gv = val@;
        let (key, val) = self.wal.store_put_event(key, val);
        proof {
            let data = spec_encode_kv(gk, gv);
            let rec = (RecordModel {
                act: PUT_ACT,
                crc: crc32_of(data),
                data,
                start: old(self).log().len() as u32,
            });
            lemma_kv_round_trip(gk, gv);
            lemma_replay_kv_append(old(self).log(), 0, Map::empty(), PUT_ACT, data);
            lemma_wf_chain_append(old(self).log(), 0, PUT_ACT, data);
            assert(kv_apply(old(self)@, rec) == old(self)@.insert(gk, gv));
        }
        kv_shards_insert(&mut self.store, key, val);
    }

    /// Logs and applies a DELETE: unbinds `key`.
    pub fn remove(&mut self, key: &[u8])
        requires
            old(self).wf(),
            old(self).can_log(key@.len()),
        ensures
            final(self).wf(),
            final(self)@ == old(self)@.remove(key@),
            final(self).log() == old(self).log() + spec_record_bytes(
                DELETE_ACT,
                key@,
                old(self).log().len() as u32,
            ),
    {
        self.wal.store_delete_event(key);
        proof {
            let rec = (RecordModel {
                act: DELETE_ACT,
                crc: crc32_of(key@),
                data: key@,
                start: old(self).log().len() as u32,
            });
            lemma_replay_kv_append(old(self).log(), 0, Map::empty(), DELETE_ACT, key@);
            lemma_wf_chain_append(old(self).log(), 0, DELETE_ACT, key@);
            assert(kv_apply(old(self)@, rec) == old(self)@.remove(key@));
        }
        kv_shards_remove(&mut self.store, key);
    }

    /// Reads the current value (if any), computes a new one with `func`,
    /// logs a PUT and installs it.
    pub fn compute<F: FnOnce(Option<&[u8]>) -> Vec<u8>>(&mut self, key: Vec<u8>, func: F)
        requires
            old(self).wf(),
            forall|prev: Option<&[u8]>|
                kv_prev_arg(old(self)@, key@, prev) ==> call_requires(func, (prev,)),
            forall|prev: Option<&[u8]>, out: Vec<u8>|
                call_ensures(func, (prev,), out) ==> old(self).can_log(8 + key@.len() + out@.len()),
        ensures
            final(self).wf(),
            exists|prev: Option<&[u8]>, out: Vec<u8>|
                {
                    &&& kv_prev_arg(old(self)@, key@, prev)
                    &&& call_ensures(func, (prev,), out)
                    &&& final(self)@ == old(self)@.insert(key@, out@)
                    &&& final(self).log() == old(self).log() + spec_record_bytes(
                        PUT_ACT,
                        spec_encode_kv(key@, out@),
                        old(self).log().len() as u32,
                    )
                },
    {
        let cur = kv_shards_get(&self.store, key.as_slice());
        let new_val = match &cur {
            Some(c) => {
                let cs = c.as_slice();
                proof {
                    assert(kv_prev_arg(old(self)@, key@, Some(cs)));
                }
                func(Some(cs))
            },
            None => {
                proof {
                    assert(kv_prev_arg(old(self)@, key@, Option::<&[u8]>::None));
                }
                func(None)
            },
        };
        self.put(key, new_val);
    }

    /// Interprets the current value as an 8-byte number (0 when absent),
    /// adds `increment_by`, stores the result and returns it. Fails without
    /// any change when the current value is not exactly 8 bytes.
    pub fn increment_or_init(&mut self, key: Vec<u8>, increment_by: u64) -> (r: Result<
        u64,
        StoreError,
    >)
        requires
            old(self).wf(),
            old(self).can_log(8 + key@.len() + 8),
            old(self)@.contains_key(key@) && spec_as_number(old(self)@[key@]) is Some ==> (
            spec_as_number(old(self)@[key@]).unwrap() + increment_by <= u64::MAX),
        ensures
            final(self).wf(),
            match r {
                Ok(n) => {
                    &&& if old(self)@.contains_key(key@) {
                        n == spec_as_number(old(self)@[key@]).unwrap() + increment_by
                    } else {
                        n == increment_by
                    }
                    &&& (old(self)@.contains_key(key@) ==> spec_as_number(old(self)@[key@]) is Some)
                    &&& final(self)@ == old(self)@.insert(key@, spec_u64_to_le_bytes(n))
                    &&& final(self).log() == old(self).log() + spec_record_bytes(
                        PUT_ACT,
                        spec_encode_kv(key@, spec_u64_to_le_bytes(n)),
                        old(self).log().len() as u32,
                    )
                },
                Err(e) => {
                    &&& e == StoreError::BadEncoding
                    &&& old(self)@.contains_key(key@)
                    &&& spec_as_number(old(self)@[key@]) is None
                    &&& final(self)@ == old(self)@
                    &&& final(self).log() == old(self).log()
                },
            },
    {
        proof {
            lemma_auto_spec_u64_to_from_le_bytes();
        }
        let cur = kv_shards_get(&self.store, key.as_slice());
        let new_num: u64 = match &cur {
            Some(bytes) => {
                if bytes.len() != 8 {
                    return Err(StoreError::BadEncoding);
                }
                let cur_num = u64_from_le_bytes(bytes.as_slice());
                cur_num + increment_by
            },
            None => increment_by,
        };
        let new_bytes = u64_to_le_bytes(new_num);
        self.put(key, new_bytes);
        Ok(new_num)
    }

    /// Like `increment_or_init`, but subtracts, saturating at 0, and does
    /// nothing when the key is absent.
    pub fn decrement(&mut self, key: Vec<u8>, decrement_by: u64) -> (r: Option<Result<
        u64,
        StoreError,
    >>)
        requires
            old(self).wf(),
            old(self).can_log(8 + key@.len() + 8),
        ensures
            final(self).wf(),
            match r {
                None => !old(self)@.contains_key(key@) && final(self)@ == old(self)@
                    && final(self).log() == old(self).log(),
                Some(inner) => {
                    &&& old(self)@.contains_key(key@)
                    &&& match inner {
                        Ok(n) => {
                            &&& spec_as_number(old(self)@[key@]) is Some
                            &&& {
                                let cur = spec_as_number(old(self)@[key@]).unwrap();
                                n == if decrement_by >= cur {
                                    0u64
                                } else {
                                    (cur - decrement_by) as u64
                                }
                            }
                            &&& final(self)@ == old(self)@.insert(key@, spec_u64_to_le_bytes(n))
                            &&& final(self).log() == old(self).log() + spec_record_bytes(
                                PUT_ACT,
                                spec_encode_kv(key@, spec_u64_to_le_bytes(n)),
                                old(self).log().len() as u32,
                            )
                        },
                        Err(e) => {
                            &&& e == StoreError::BadEncoding
                            &&& spec_as_number(old(self)@[key@]) is None
                            &&& final(self)@ == old(self)@
                            &&& final(self).log() == old(self).log()
                        },
                    }
                },
            },
    {
        proof {
            lemma_auto_spec_u64_to_from_le_bytes();
        }
        let cur = kv_shards_get(&self.store, key.as_slice());
        match &cur {
            None => None,
            Some(bytes) => {
                if bytes.len() != 8 {
                    return Some(Err(StoreError::BadEncoding));
                }
                let cur_num = u64_from_le_bytes(bytes.as_slice());
                let new_num = if decrement_by >= cur_num {
                    0
                } else {
                    cur_num - decrement_by
                };
                let new_bytes = u64_to_le_bytes(new_num);
                self.put(key, new_bytes);
                Some(Ok(new_num))
            },
        }
    }

    /// Reads the value under `key` as an 8-byte number.
    pub fn read_number(&self, key: &[u8]) -> (r: Option<Result<u64, StoreError>>)
        ensures
            match r {
                None => !self@.contains_key(key@),
                Some(inner) => self@.contains_key(key@) && match inner {
                    Ok(n) => spec_as_number(self@[key@]) == Some(n),
                    Err(e) => e == StoreError::BadEncoding && spec_as_number(self@[key@]) is None,
                },
            },
    {
        proof {
            lemma_auto_spec_u64_to_from_le_bytes();
        }
        match kv_shards_get(&self.store, key) {
            None => None,
            Some(bytes) => {
                if bytes.len() != 8 {
                    Some(Err(StoreError::BadEncoding))
                } else {
                    Some(Ok(u64_from_le_bytes(bytes.as_slice())))
                }
            },
        }
    }

    /// Stores `number` under `key` as 8 little-endian bytes.
    pub fn set_number(&mut self, key: Vec<u8>, number: u64)
        requires
            old(self).wf(),
            old(self).can_log(8 + key@.len() + 8),
        ensures
            final(self).wf(),
            final(self)@ == old(self)@.insert(key@, spec_u64_to_le_bytes(number)),
            final(self).log() == old(self).log() + spec_record_bytes(
                PUT_ACT,
                spec_encode_kv(key@, spec_u64_to_le_bytes(number)),
                old(self).log().len() as u32,
            ),
    {
        proof {
            lemma_auto_spec_u64_to_from_le_bytes();
        }
        let value = u64_to_le_bytes(number);
        self.put(key, value);
    }

    /// Rebuilds a store from an existing log: recovers the snapshot
    /// (backward scan first, forward as fallback) and replays it through a
    /// fresh log, so the new log holds exactly one PUT record per live key
    /// and nothing else. Succeeds exactly when the log replays and the
    /// compacted snapshot fits the offset format.
    pub fn recover_from_log(bytes: &[u8]) -> (r: Result<Self, StoreError>)
        ensures
            match r {
                Ok(s) => {
                    &&& s.wf()
                    &&& replay_kv(bytes@) is Some
                    &&& s@ == replay_kv(bytes@).unwrap()
                    &&& crate::wal::all_puts(s.log(), 0)
                    &&& crate::wal::record_count(s.log(), 0) == s@.dom().len()
                },
                Err(e) => (e == StoreError::CorruptLog && replay_kv(bytes@) is None) || (e
                    == StoreError::LogFull && replay_kv(bytes@) is Some && !kv_snapshot_fits(
                    replay_kv(bytes@).unwrap(),
                )),
            },
            replay_kv(bytes@) is Some && kv_snapshot_fits(replay_kv(bytes@).unwrap()) ==> r is Ok,
    {
        let snap = match collect(bytes) {
            Ok(m) => m,
            Err(_) => {
                return Err(StoreError::CorruptLog);
            },
        };
        let total = snap.len();
        let mut s = Self::new_vec_based();
        let mut i: usize = 0;
        proof {
            assert(snap.pairs().subrange(0, 0) =~= Seq::<(Seq<u8>, Seq<u8>)>::empty());
            assert(s@ =~= crate::containers::map_of(snap.pairs().subrange(0, 0)));
        }
        proof {
            assert(kv_pairs_size(snap.pairs().subrange(0, 0)) == 0);
        }
        while i < total
            invariant
                i <= snap.pairs().len(),
                total == snap.pairs().len(),
                snap@ == crate::containers::map_of(snap.pairs()),
                crate::containers::assoc_keys(snap.pairs()).no_duplicates(),
                replay_kv(bytes@) == Some(snap@),
                s.wf(),
                s@ == crate::containers::map_of(snap.pairs().subrange(0, i as int)),
                s.log().len() == kv_pairs_size(snap.pairs().subrange(0, i as int)),
                crate::wal::all_puts(s.log(), 0),
                crate::wal::record_count(s.log(), 0) == i,
            decreases total - i,
        {
            let k = clone_bytes(snap.key_at(i));
            let v = clone_bytes(snap.value_at(i));
            let room = ((u32::MAX as u64) - 21) as u64;
            let klen = k.len() as u64;
            let vlen = v.len() as u64;
            let loglen = s.wal.log_bytes().len() as u64;
            if klen > room || vlen > room - klen || loglen > room - klen - vlen {
                proof {
                    lemma_kv_pairs_size_prefix(snap.pairs(), i as int);
                    lemma_kv_pairs_size_prefix(snap.pairs(), i as int + 1);
                    assert(kv_pairs_size(snap.pairs().subrange(0, i as int + 1)) == s.log().len()
                        + 21 + k@.len() + v@.len());
                    assert(s.log().len() + 21 + k@.len() + v@.len() > u32::MAX);
                    assert(kv_pairs_size(snap.pairs()) > u32::MAX);
                    if kv_snapshot_fits(snap@) {
                        assert(kv_pairs_size(snap.pairs()) <= u32::MAX);
                    }
                    assert(!kv_snapshot_fits(snap@));
                }
                return Err(StoreError::LogFull);
            }
            proof {
                lemma_kv_pairs_size_prefix(snap.pairs(), i as int);
                lemma_auto_spec_u64_to_from_le_bytes();
                vstd::bytes::lemma_auto_spec_u32_to_from_le_bytes();
                lemma_kv_round_trip(k@, v@);
                crate::wal::lemma_compacted_append(s.log(), 0, spec_encode_kv(k@, v@));
            }
            s.put(k, v);
            proof {
                let prefix = snap.pairs().subrange(0, i as int);
                let prefix1 = snap.pairs().subrange(0, i as int + 1);
                assert(prefix1.drop_last() =~= prefix);
                assert(prefix1.last() == snap.pairs()[i as int]);
                assert(crate::containers::map_of(prefix1) == crate::containers::map_of(
                    prefix,
                ).insert(snap.pairs()[i as int].0, snap.pairs()[i as int].1));
                assert(s.log().len() == kv_pairs_size(prefix1));
            }
            i += 1;
        }
        proof {
            assert(snap.pairs().subrange(0, snap.pairs().len() as int) =~= snap.pairs());
            crate::containers::lemma_map_of(snap.pairs());
        }
        Ok(s)
    }
}

/// Replaying the store's live log from the start reproduces exactly its
/// in-memory contents, and the log is a contiguous chain of records, each
/// carrying the offset at which it starts.
pub proof fn replay_matches_kv_state(s: &DurableKeyValueStore)
    requires
        s.wf(),
    ensures
        replay_kv(s.log()) == Some(s@),
        wf_chain(s.log(), 0),
{
}

/// A mutation is observed by every subsequent read: after a binding is
/// installed, lookup of its key yields exactly the new value.
pub proof fn kv_update_observed(
    pre: Map<Seq<u8>, Seq<u8>>,
    post: Map<Seq<u8>, Seq<u8>>,
    k: Seq<u8>,
    v: Seq<u8>,
)
    requires
        post == pre.insert(k, v),
    ensures
        post.contains_key(k),
        post[k] == v,
{
}

} // verus!
