//! The durable key-set store: a sharded concurrent map of byte-string keys
//! to sets of byte strings, every logged mutation applied after its record
//! is appended. When a removal empties a set, the outer key is dropped in
//! the same step and a DELETE record follows the SET_REMOVE record.
//!
//! The `compute` family guards only the in-memory mutation: it writes no
//! log record, so durability of such changes is the caller's own concern,
//! and the log-replay invariant holds again only once the caller has logged
//! an equivalent mutation or the store is rebuilt.

use vstd::prelude::*;

verus! {

use crate::codec::DELETE_ACT;
use crate::codec::SET_APPEND_ACT;
use crate::codec::SET_REMOVE_ACT;
use crate::codec::spec_record_bytes;
use crate::codec::spec_encode_kv;
use crate::codec::lemma_kv_round_trip;
use crate::codec::crc32_of;
use vstd::bytes::lemma_auto_spec_u32_to_from_le_bytes;
use crate::keys::clone_bytes;
use crate::containers::ByteSet;
use crate::containers::map_of;
use crate::shards::set_shards_view;
use crate::shards::set_shards_new;
use crate::shards::set_shards_get;
use crate::shards::set_shards_insert;
use crate::shards::set_shards_remove;
use crate::shards::set_shards_contains;
use crate::shards::set_shards_len;
use crate::wal::WalStorage;
use crate::wal::StoreError;
use crate::wal::RecordModel;
use crate::wal::replay_set;
use crate::wal::set_apply;
use crate::wal::wf_chain;
use crate::wal::lemma_wf_chain_append;
use crate::wal::read_for_set;
use crate::wal::lemma_replay_set_append;

/// The set bound to `k`, or the empty set when `k` is unbound.
pub open spec fn set_arg(m: Map<Seq<u8>, Set<Seq<u8>>>, k: Seq<u8>) -> Set<Seq<u8>> {
    if m.contains_key(k) {
        m[k]
    } else {
        Set::empty()
    }
}

/// No key is bound to an empty set.
pub open spec fn no_empty_sets(m: Map<Seq<u8>, Set<Seq<u8>>>) -> bool {
    forall|k: Seq<u8>| #[trigger] m.contains_key(k) ==> m[k] != Set::<Seq<u8>>::empty()
}

/// The bindings of `m` whose sets are non-empty.
pub open spec fn live_sets(m: Map<Seq<u8>, Set<Seq<u8>>>) -> Map<Seq<u8>, Set<Seq<u8>>> {
    Map::<Seq<u8>, Set<Seq<u8>>>::new(
        |k: Seq<u8>| m.contains_key(k) && m[k] != Set::<Seq<u8>>::empty(),
        |k: Seq<u8>| m[k],
    )
}

/// The log bytes one SET_APPEND record per element occupies when the
/// elements of one key's set are re-logged in the order `elems`.
pub open spec fn set_row_size_elems(k: Seq<u8>, elems: Seq<Seq<u8>>) -> nat
    decreases elems.len(),
{
    if elems.len() == 0 {
        0
    } else {
        set_row_size_elems(k, elems.drop_last()) + 21 + k.len() + elems.last().len()
    }
}

/// The log bytes one key's whole set occupies, summed over its elements.
pub open spec fn set_row_size(k: Seq<u8>, elems: Set<Seq<u8>>) -> nat
    decreases elems.len() when elems.finite()
{
    if elems.len() == 0 {
        0
    } else {
        let e = elems.choose();
        21 + k.len() + e.len() + set_row_size(k, elems.remove(e))
    }
}

/// The log bytes the snapshot occupies when re-logged key by key in the
/// order `ks`.
pub open spec fn set_enum_size(m: Map<Seq<u8>, Set<Seq<u8>>>, ks: Seq<Seq<u8>>) -> nat
    decreases ks.len(),
{
    if ks.len() == 0 {
        0
    } else {
        set_enum_size(m, ks.drop_last()) + set_row_size(ks.last(), m[ks.last()])
    }
}

/// The snapshot can be re-logged within the 4-byte offset format: every
/// duplicate-free ordering of its outer keys (all orderings have the same
/// total size) fits a log of at most `u32::MAX` bytes.
pub open spec fn set_snapshot_fits(m: Map<Seq<u8>, Set<Seq<u8>>>) -> bool {
    forall|ks: Seq<Seq<u8>>|
        ks.no_duplicates() && ks.to_set() == m.dom() ==> set_enum_size(m, ks) <= u32::MAX
}

/// A row prefix never outweighs the row, and one more element adds its
/// exact record size.
proof fn lemma_set_row_prefix(k: Seq<u8>, elems: Seq<Seq<u8>>, j: int)
    requires
        0 <= j <= elems.len(),
    ensures
        set_row_size_elems(k, elems.subrange(0, j)) <= set_row_size_elems(k, elems),
        j < elems.len() ==> set_row_size_elems(k, elems.subrange(0, j + 1)) == set_row_size_elems(
            k,
            elems.subrange(0, j),
        ) + 21 + k.len() + elems[j].len(),
    decreases elems.len() - j,
{
    if j < elems.len() {
        assert(elems.subrange(0, j + 1).drop_last() =~= elems.subrange(0, j));
        assert(elems.subrange(0, j + 1).last() == elems[j]);
        lemma_set_row_prefix(k, elems, j + 1);
    } else {
        assert(elems.subrange(0, j) =~= elems);
    }
}

/// Dropping the element at `idx` subtracts exactly its record size.
proof fn lemma_set_row_remove(k: Seq<u8>, elems: Seq<Seq<u8>>, idx: int)
    requires
        0 <= idx < elems.len(),
    ensures
        set_row_size_elems(k, elems) == set_row_size_elems(k, elems.remove(idx)) + 21 + k.len()
            + elems[idx].len(),
    decreases elems.len(),
{
    if idx == elems.len() - 1 {
        assert(elems.remove(idx) =~= elems.drop_last());
    } else {
        assert(elems.remove(idx).drop_last() =~= elems.drop_last().remove(idx));
        assert(elems.remove(idx).last() == elems.last());
        lemma_set_row_remove(k, elems.drop_last(), idx);
    }
}

/// Summed in any duplicate-free order, a set's elements occupy the same
/// bytes as the set itself.
proof fn lemma_set_row_size_to_set(k: Seq<u8>, elems: Seq<Seq<u8>>)
    requires
        elems.no_duplicates(),
    ensures
        set_row_size_elems(k, elems) == set_row_size(k, elems.to_set()),
    decreases elems.len(),
{
    broadcast use vstd::seq_lib::seq_to_set_is_finite;

    elems.unique_seq_to_set();
    let s = elems.to_set();
    if elems.len() == 0 {
        assert(s =~= Set::<Seq<u8>>::empty());
    } else {
        let e = s.choose();
        assert(s.contains(e));
        assert(elems.contains(e));
        let idx = choose|idx: int| 0 <= idx < elems.len() && elems[idx] == e;
        let rest = elems.remove(idx);
        assert(rest.no_duplicates()) by {
            assert forall|a: int, b: int| 0 <= a < b < rest.len() implies rest[a] != rest[b] by {
                let oa = if a < idx {
                    a
                } else {
                    a + 1
                };
                let ob = if b < idx {
                    b
                } else {
                    b + 1
                };
                assert(rest[a] == elems[oa]);
                assert(rest[b] == elems[ob]);
            }
        }
        assert(rest.to_set() =~= s.remove(e)) by {
            assert forall|x: Seq<u8>|
                rest.to_set().contains(x) == s.remove(e).contains(x) by {
                if rest.to_set().contains(x) {
                    let q = choose|q: int| 0 <= q < rest.len() && rest[q] == x;
                    let oq = if q < idx {
                        q
                    } else {
                        q + 1
                    };
                    assert(rest[q] == elems[oq]);
                    assert(elems.contains(x));
                    assert(oq != idx);
                    assert(x != e);
                } else if s.remove(e).contains(x) {
                    let q = choose|q: int| 0 <= q < elems.len() && elems[q] == x;
                    assert(q != idx);
                    let nq = if q < idx {
                        q
                    } else {
                        q - 1
                    };
                    assert(rest[nq] == x);
                    assert(rest.contains(x));
                }
            }
        }
        lemma_set_row_remove(k, elems, idx);
        lemma_set_row_size_to_set(k, rest);
    }
}

/// A key-order prefix never outweighs the whole, and one more key adds
/// exactly its row's size.
proof fn lemma_set_enum_prefix(m: Map<Seq<u8>, Set<Seq<u8>>>, ks: Seq<Seq<u8>>, j: int)
    requires
        0 <= j <= ks.len(),
    ensures
        set_enum_size(m, ks.subrange(0, j)) <= set_enum_size(m, ks),
        j < ks.len() ==> set_enum_size(m, ks.subrange(0, j + 1)) == set_enum_size(
            m,
            ks.subrange(0, j),
        ) + set_row_size(ks[j], m[ks[j]]),
    decreases ks.len() - j,
{
    if j < ks.len() {
        assert(ks.subrange(0, j + 1).drop_last() =~= ks.subrange(0, j));
        assert(ks.subrange(0, j + 1).last() == ks[j]);
        lemma_set_enum_prefix(m, ks, j + 1);
    } else {
        assert(ks.subrange(0, j) =~= ks);
    }
}

/// The durable key-set store.
pub struct DurableKeySetStore {
    store: dashmap::DashMap<Vec<u8>, ByteSet>,
    wal: WalStorage,
}

impl View for DurableKeySetStore {
    type V = Map<Seq<u8>, Set<Seq<u8>>>;

    closed spec fn view(&self) -> Map<Seq<u8>, Set<Seq<u8>>> {
        set_shards_view(self.store)
    }
}

impl DurableKeySetStore {
    /// The bytes of the store's log.
    pub closed spec fn log(&self) -> Seq<u8> {
        self.wal@
    }

    /// The store is consistent with its log, and no bound set is empty.
    pub open spec fn wf(&self) -> bool {
        &&& replay_set(self.log()) == Some(self@)
        &&& self@.dom().finite()
        &&& no_empty_sets(self@)
        &&& wf_chain(self.log(), 0)
    }

    /// Room in the log for one more record with a payload of `data_len`
    /// bytes.
    pub open spec fn can_log(&self, data_len: nat) -> bool {
        self.log().len() + 13 + data_len <= u32::MAX
    }

    /// An empty store over an empty in-memory log.
    pub fn new_vec_based() -> (r: Self)
        ensures
            r.wf(),
            r@ == Map::<Seq<u8>, Set<Seq<u8>>>::empty(),
            r.log() == Seq::<u8>::empty(),
    {
        DurableKeySetStore { store: set_shards_new(), wal: WalStorage::new_vec_based() }
    }

    /// The log bytes written so far.
    pub fn log_bytes(&self) -> (r: &Vec<u8>)
        ensures
            r@ == self.log(),
    {
        self.wal.log_bytes()
    }

    /// A copy of the set bound to `key`, if any.
    pub fn get_hashset(&self, key: &[u8]) -> (r: Option<ByteSet>)
        ensures
            match r {
                Some(s) => self@.contains_key(key@) && s@ == self@[key@],
                None => !self@.contains_key(key@),
            },
    {
        set_shards_get(&self.store, key)
    }

    /// Whether `set_key` is a member of the set bound to `key`.
    pub fn contains_in_set(&self, key: &[u8], set_key: &[u8]) -> (r: bool)
        ensures
            r == (self@.contains_key(key@) && self@[key@].contains(set_key@)),
    {
        match set_shards_get(&self.store, key) {
            None => false,
            Some(s) => s.contains(set_key),
        }
    }

    /// Whether `key` is bound.
    pub fn contains_key(&self, key: &[u8]) -> (r: bool)
        ensures
            r == self@.contains_key(key@),
    {
        set_shards_contains(&self.store, key)
    }

    /// How many keys the store holds.
    pub fn size(&self) -> (r: usize)
        requires
            self.wf(),
        ensures
            r == self@.dom().len(),
    {
        set_shards_len(&self.store)
    }

    /// Logs a SET_APPEND and adds `val` to the set under `key`, creating
    /// the set if needed.
    pub fn append(&mut self, key: Vec<u8>, val: Vec<u8>)
        requires
            old(self).wf(),
            old(self).can_log(8 + key@.len() + val@.len()),
        ensures
            final(self).wf(),
            final(self)@ == old(self)@.insert(key@, set_arg(old(self)@, key@).insert(val@)),
            final(self).log() == old(self).log() + spec_record_bytes(
                SET_APPEND_ACT,
                spec_encode_kv(key@, val@),
                old(self).log().len() as u32,
            ),
    {
        let ghost gk = key@;
        let ghost gv = val@;
        let (key, val) = self.wal.store_append_to_set_event(key, val);
        proof {
            let data = spec_encode_kv(gk, gv);
            let rec = (RecordModel {
                act: SET_APPEND_ACT,
                crc: crc32_of(data),
                data,
                start: old(self).log().len() as u32,
            });
            lemma_kv_round_trip(gk, gv);
            lemma_replay_set_append(old(self).log(), 0, Map::empty(), SET_APPEND_ACT, data);
            lemma_wf_chain_append(old(self).log(), 0, SET_APPEND_ACT, data);
            assert(set_apply(old(self)@, rec) == old(self)@.insert(
                gk,
                set_arg(old(self)@, gk).insert(gv),
            ));
        }
        let mut cur = match set_shards_get(&self.store, key.as_slice()) {
            Some(s) => s,
            None => ByteSet::new(),
        };
        cur.insert_elem(val);
        let ghost curv = cur@;
        set_shards_insert(&mut self.store, key, cur);
        proof {
            assert(curv.contains(gv));
            assert(curv != Set::<Seq<u8>>::empty());
            assert forall|k2: Seq<u8>| #[trigger] self@.contains_key(k2) implies self@[k2]
                != Set::<Seq<u8>>::empty() by {
                if k2 != gk {
                    assert(old(self)@.contains_key(k2));
                }
            }
        }
    }

    /// Logs a SET_REMOVE and removes `set_entry` from the set under `key`;
    /// when that empties the set, logs a DELETE and drops the key.
    pub fn remove_from_set(&mut self, key: Vec<u8>, set_entry: Vec<u8>)
        requires
            old(self).wf(),
            old(self).log().len() + 34 + 2 * key@.len() + set_entry@.len() <= u32::MAX,
        ensures
            final(self).wf(),
            final(self)@ == if !old(self)@.contains_key(key@) {
                old(self)@
            } else if old(self)@[key@].remove(set_entry@) =~= Set::<Seq<u8>>::empty() {
                old(self)@.remove(key@)
            } else {
                old(self)@.insert(key@, old(self)@[key@].remove(set_entry@))
            },
            final(self).log() == if old(self)@.contains_key(key@) && (old(self)@[key@].remove(
                set_entry@,
            ) =~= Set::<Seq<u8>>::empty()) {
                old(self).log() + spec_record_bytes(
                    SET_REMOVE_ACT,
                    spec_encode_kv(key@, set_entry@),
                    old(self).log().len() as u32,
                ) + spec_record_bytes(
                    DELETE_ACT,
                    key@,
                    (old(self).log().len() + 21 + key@.len() + set_entry@.len()) as u32,
                )
            } else {
                old(self).log() + spec_record_bytes(
                    SET_REMOVE_ACT,
                    spec_encode_kv(key@, set_entry@),
                    old(self).log().len() as u32,
                )
            },
    {
        let ghost gk = key@;
        let ghost ge = set_entry@;
        let ghost log0 = old(self).log();
        let (key, set_entry) = self.wal.store_remove_from_set_event(key, set_entry);
        proof {
            let data = spec_encode_kv(gk, ge);
            let rec = (RecordModel {
                act: SET_REMOVE_ACT,
                crc: crc32_of(data),
                data,
                start: log0.len() as u32,
            });
            lemma_kv_round_trip(gk, ge);
            lemma_replay_set_append(log0, 0, Map::empty(), SET_REMOVE_ACT, data);
            lemma_wf_chain_append(log0, 0, SET_REMOVE_ACT, data);
        }
        let ghost mid = set_apply(
            old(self)@,
            RecordModel {
                act: SET_REMOVE_ACT,
                crc: crc32_of(spec_encode_kv(gk, ge)),
                data: spec_encode_kv(gk, ge),
                start: log0.len() as u32,
            },
        );
        match set_shards_get(&self.store, key.as_slice()) {
            Some(s) => {
                let mut cur = s;
                cur.remove_elem(set_entry.as_slice());
                if cur.is_empty() {
                    let ghost log1 = self.wal@;
                    proof {
                        lemma_auto_spec_u32_to_from_le_bytes();
                        assert(log1.len() == log0.len() + 21 + gk.len() + ge.len());
                    }
                    self.wal.store_delete_event(key.as_slice());
                    proof {
                        let rec2 = (RecordModel {
                            act: DELETE_ACT,
                            crc: crc32_of(gk),
                            data: gk,
                            start: log1.len() as u32,
                        });
                        lemma_replay_set_append(log1, 0, Map::empty(), DELETE_ACT, gk);
                        lemma_wf_chain_append(log1, 0, DELETE_ACT, gk);
                        assert(set_apply(mid, rec2) == mid.remove(gk));
                    }
                    set_shards_remove(&mut self.store, key.as_slice());
                    proof {
                        assert(self@ =~= old(self)@.remove(gk));
                        assert(mid.remove(gk) =~= old(self)@.remove(gk));
                        assert forall|k2: Seq<u8>| #[trigger] self@.contains_key(k2) implies self@[
                            k2] != Set::<Seq<u8>>::empty() by {
                            assert(old(self)@.contains_key(k2));
                        }
                    }
                } else {
                    let ghost curv = cur@;
                    set_shards_insert(&mut self.store, key, cur);
                    proof {
                        assert(self@ =~= mid);
                        assert forall|k2: Seq<u8>| #[trigger] self@.contains_key(k2) implies self@[
                            k2] != Set::<Seq<u8>>::empty() by {
                            if k2 == gk {
                                assert(self@[gk] == curv);
                            } else {
                                assert(old(self)@.contains_key(k2));
                            }
                        }
                    }
                }
            },
            None => {
                proof {
                    assert(mid =~= old(self)@);
                }
            },
        }
    }

    /// As `remove_from_set`, and calls `key_removed_callback` with the
    /// removed entry exactly when the outer key was dropped; the callback's
    /// precondition is owed only in that case, which is also the only case
    /// in which it runs.
    pub fn remove_from_set_callback<F: FnOnce(&[u8])>(
        &mut self,
        key: Vec<u8>,
        set_entry: Vec<u8>,
        key_removed_callback: F,
    )
        requires
            old(self).wf(),
            old(self).log().len() + 34 + 2 * key@.len() + set_entry@.len() <= u32::MAX,
            old(self)@.contains_key(key@) && (old(self)@[key@].remove(set_entry@)
                =~= Set::<Seq<u8>>::empty()) ==> forall|x: &[u8]|
                x@ == set_entry@ ==> call_requires(key_removed_callback, (x,)),
        ensures
            final(self).wf(),
            final(self)@ == if !old(self)@.contains_key(key@) {
                old(self)@
            } else if old(self)@[key@].remove(set_entry@) =~= Set::<Seq<u8>>::empty() {
                old(self)@.remove(key@)
            } else {
                old(self)@.insert(key@, old(self)@[key@].remove(set_entry@))
            },
    {
        let ghost gk = key@;
        let ghost ge = set_entry@;
        let ghost log0 = old(self).log();
        let (key, set_entry) = self.wal.store_remove_from_set_event(key, set_entry);
        proof {
            let data = spec_encode_kv(gk, ge);
            lemma_kv_round_trip(gk, ge);
            lemma_replay_set_append(log0, 0, Map::empty(), SET_REMOVE_ACT, data);
            lemma_wf_chain_append(log0, 0, SET_REMOVE_ACT, data);
        }
        let ghost mid = set_apply(
            old(self)@,
            RecordModel {
                act: SET_REMOVE_ACT,
                crc: crc32_of(spec_encode_kv(gk, ge)),
                data: spec_encode_kv(gk, ge),
                start: log0.len() as u32,
            },
        );
        match set_shards_get(&self.store, key.as_slice()) {
            Some(s) => {
                let mut cur = s;
                cur.remove_elem(set_entry.as_slice());
                if cur.is_empty() {
                    let ghost log1 = self.wal@;
                    proof {
                        lemma_auto_spec_u32_to_from_le_bytes();
                        assert(log1.len() == log0.len() + 21 + gk.len() + ge.len());
                    }
                    self.wal.store_delete_event(key.as_slice());
                    proof {
                        lemma_replay_set_append(log1, 0, Map::empty(), DELETE_ACT, gk);
                        lemma_wf_chain_append(log1, 0, DELETE_ACT, gk);
                    }
                    set_shards_remove(&mut self.store, key.as_slice());
                    proof {
                        assert(self@ =~= old(self)@.remove(gk));
                        assert(mid.remove(gk) =~= old(self)@.remove(gk));
                        assert forall|k2: Seq<u8>| #[trigger] self@.contains_key(k2) implies self@[
                            k2] != Set::<Seq<u8>>::empty() by {
                            assert(old(self)@.contains_key(k2));
                        }
                    }
                    key_removed_callback(set_entry.as_slice());
                } else {
                    let ghost curv = cur@;
                    set_shards_insert(&mut self.store, key, cur);
                    proof {
                        assert(self@ =~= mid);
                        assert forall|k2: Seq<u8>| #[trigger] self@.contains_key(k2) implies self@[
                            k2] != Set::<Seq<u8>>::empty() by {
                            if k2 == gk {
                                assert(self@[gk] == curv);
                            } else {
                                assert(old(self)@.contains_key(k2));
                            }
                        }
                    }
                }
            },
            None => {
                proof {
                    assert(mid =~= old(self)@);
                }
            },
        }
    }

    /// Logs a DELETE and drops the key with its whole set.
    pub fn remove_key(&mut self, key: &[u8])
        requires
            old(self).wf(),
            old(self).can_log(key@.len()),
        ensures
            final(self).wf(),
            final(self)@ == old(self)@.remove(key@),
            final(self).log() == old(self).log() + spec_record_bytes(
                DELETE_ACT,
                key@,
                old(self).log().len() as u32,
            ),
    {
        self.wal.store_delete_event(key);
        proof {
            lemma_replay_set_append(old(self).log(), 0, Map::empty(), DELETE_ACT, key@);
            lemma_wf_chain_append(old(self).log(), 0, DELETE_ACT, key@);
        }
        set_shards_remove(&mut self.store, key);
        proof {
            assert forall|k2: Seq<u8>| #[trigger] self@.contains_key(k2) implies self@[k2]
                != Set::<Seq<u8>>::empty() by {
                assert(old(self)@.contains_key(k2));
            }
        }
    }

    /// Hands the current set (or an empty one) to `func` and installs what
    /// it returns. Writes no log record: durability of this mutation is the
    /// caller's concern.
    pub fn compute<F: FnOnce(ByteSet) -> ByteSet>(&mut self, key: Vec<u8>, func: F)
        requires
            forall|s: ByteSet| s@ == set_arg(old(self)@, key@) ==> call_requires(func, (s,)),
        ensures
            final(self).log() == old(self).log(),
            exists|s0: ByteSet, s1: ByteSet|
                {
                    &&& s0@ == set_arg(old(self)@, key@)
                    &&& call_ensures(func, (s0,), s1)
                    &&& final(self)@ == old(self)@.insert(key@, s1@)
                },
    {
        let cur = match set_shards_get(&self.store, key.as_slice()) {
            Some(s) => s,
            None => ByteSet::new(),
        };
        let out = func(cur);
        set_shards_insert(&mut self.store, key, out);
    }

    /// As `compute`, but only when `key` is already bound. Writes no log
    /// record.
    pub fn compute_if_present<F: FnOnce(ByteSet) -> ByteSet>(&mut self, key: Vec<u8>, func: F)
        requires
            forall|s: ByteSet| s@ == set_arg(old(self)@, key@) ==> call_requires(func, (s,)),
        ensures
            final(self).log() == old(self).log(),
            !old(self)@.contains_key(key@) ==> final(self)@ == old(self)@,
            old(self)@.contains_key(key@) ==> exists|s0: ByteSet, s1: ByteSet|
                {
                    &&& s0@ == set_arg(old(self)@, key@)
                    &&& call_ensures(func, (s0,), s1)
                    &&& final(self)@ == old(self)@.insert(key@, s1@)
                },
    {
        match set_shards_get(&self.store, key.as_slice()) {
            Some(cur) => {
                let out = func(cur);
                set_shards_insert(&mut self.store, key, out);
            },
            None => {},
        }
    }

    /// As `compute`, but only when `key` is not yet bound: hands `func` an
    /// empty set. Writes no log record.
    pub fn compute_if_absent<F: FnOnce(ByteSet) -> ByteSet>(&mut self, key: Vec<u8>, func: F)
        requires
            forall|s: ByteSet| s@ == Set::<Seq<u8>>::empty() ==> call_requires(func, (s,)),
        ensures
            final(self).log() == old(self).log(),
            old(self)@.contains_key(key@) ==> final(self)@ == old(self)@,
            !old(self)@.contains_key(key@) ==> exists|s0: ByteSet, s1: ByteSet|
                {
                    &&& s0@ == Set::<Seq<u8>>::empty()
                    &&& call_ensures(func, (s0,), s1)
                    &&& final(self)@ == old(self)@.insert(key@, s1@)
                },
    {
        if !set_shards_contains(&self.store, key.as_slice()) {
            let out = func(ByteSet::new());
            set_shards_insert(&mut self.store, key, out);
        }
    }

    /// If replaying the snapshot has already filled the offset space at
    /// element `j` of outer key `i`, the snapshot does not fit.
    proof fn lemma_recover_overflow(
        m: Map<Seq<u8>, Set<Seq<u8>>>,
        pairs: Seq<(Seq<u8>, Set<Seq<u8>>)>,
        elems: Seq<Seq<u8>>,
        i: int,
        j: int,
    )
        requires
            m == map_of(pairs),
            crate::containers::assoc_keys(pairs).no_duplicates(),
            0 <= i < pairs.len(),
            elems.no_duplicates(),
            elems.to_set() == pairs[i].1,
            0 <= j < elems.len(),
            set_enum_size(m, crate::containers::assoc_keys(pairs).subrange(0, i))
                + set_row_size_elems(pairs[i].0, elems.subrange(0, j)) + 21 + pairs[i].0.len()
                + elems[j].len() > u32::MAX,
        ensures
            !set_snapshot_fits(m),
    {
        let ks = crate::containers::assoc_keys(pairs);
        crate::containers::lemma_map_of(pairs);
        assert(ks[i] == pairs[i].0);
        assert(m.contains_key(pairs[i].0) && m[pairs[i].0] == pairs[i].1);
        lemma_set_row_prefix(pairs[i].0, elems, j);
        lemma_set_row_prefix(pairs[i].0, elems, j + 1);
        lemma_set_row_size_to_set(pairs[i].0, elems);
        lemma_set_enum_prefix(m, ks, i);
        lemma_set_enum_prefix(m, ks, i + 1);
        assert(set_row_size_elems(pairs[i].0, elems.subrange(0, j + 1)) == set_row_size_elems(
            pairs[i].0,
            elems.subrange(0, j),
        ) + 21 + pairs[i].0.len() + elems[j].len());
        assert(set_row_size(ks[i], m[ks[i]]) == set_row_size_elems(pairs[i].0, elems));
        assert(set_enum_size(m, ks.subrange(0, i + 1)) == set_enum_size(m, ks.subrange(0, i))
            + set_row_size(ks[i], m[ks[i]]));
        assert(set_enum_size(m, ks) > u32::MAX);
        assert(ks.to_set() =~= m.dom()) by {
            assert forall|q: Seq<u8>| ks.to_set().contains(q) == m.dom().contains(q) by {
                if ks.to_set().contains(q) {
                    let x = choose|x: int| 0 <= x < ks.len() && ks[x] == q;
                    assert(crate::containers::assoc_keys(pairs).contains(q));
                } else if m.dom().contains(q) {
                    assert(crate::containers::assoc_keys(pairs).contains(q));
                    let x = choose|x: int|
                        0 <= x < ks.len() && crate::containers::assoc_keys(pairs)[x] == q;
                    assert(ks[x] == q);
                    assert(ks.contains(q));
                }
            }
        }
        if set_snapshot_fits(m) {
            assert(set_enum_size(m, ks) <= u32::MAX);
        }
    }

    /// Rebuilds a store from an existing log: recovers the snapshot by a
    /// forward scan and replays every element through a fresh log. Keys
    /// whose recovered sets are empty are not replayed. Succeeds exactly
    /// when the log replays and the compacted snapshot fits the offset
    /// format.
    pub fn recover_from_log(bytes: &[u8]) -> (r: Result<Self, StoreError>)
        ensures
            match r {
                Ok(s) => {
                    &&& s.wf()
                    &&& replay_set(bytes@) is Some
                    &&& s@ == live_sets(replay_set(bytes@).unwrap())
                    &&& crate::wal::all_set_appends(s.log(), 0)
                },
                Err(e) => (e == StoreError::CorruptLog && replay_set(bytes@) is None) || (e
                    == StoreError::LogFull && replay_set(bytes@) is Some && !set_snapshot_fits(
                    replay_set(bytes@).unwrap(),
                )),
            },
            replay_set(bytes@) is Some && set_snapshot_fits(replay_set(bytes@).unwrap()) ==> r
                is Ok,
    {
        let snap = match read_for_set(bytes) {
            Ok(m) => m,
            Err(_) => {
                return Err(StoreError::CorruptLog);
            },
        };
        let total = snap.len();
        let mut s = Self::new_vec_based();
        let mut i: usize = 0;
        proof {
            assert(snap.pairs().subrange(0, 0) =~= Seq::<(Seq<u8>, Set<Seq<u8>>)>::empty());
            assert(s@ =~= live_sets(map_of(snap.pairs().subrange(0, 0))));
        }
        proof {
            assert(crate::containers::assoc_keys(snap.pairs()).subrange(0, 0) =~= Seq::<
                Seq<u8>,
            >::empty());
        }
        while i < total
            invariant
                i <= snap.pairs().len(),
                total == snap.pairs().len(),
                snap@ == map_of(snap.pairs()),
                crate::containers::assoc_keys(snap.pairs()).no_duplicates(),
                replay_set(bytes@) == Some(snap@),
                s.wf(),
                s@ == live_sets(map_of(snap.pairs().subrange(0, i as int))),
                s.log().len() == set_enum_size(
                    snap@,
                    crate::containers::assoc_keys(snap.pairs()).subrange(0, i as int),
                ),
                crate::wal::all_set_appends(s.log(), 0),
            decreases total - i,
        {
            let k = snap.key_at(i);
            let inner = snap.value_at(i);
            let elem_count = inner.len();
            let ghost elems = inner.elems();
            let ghost base = s@;
            let mut j: usize = 0;
            proof {
                assert(elems.subrange(0, 0) =~= Seq::<Seq<u8>>::empty());
                crate::containers::lemma_map_of(snap.pairs());
                assert(map_of(snap.pairs()).contains_key(snap.pairs()[i as int].0));
                assert forall|x: int|
                    0 <= x < i implies #[trigger] snap.pairs()[x].0 != snap.pairs()[i as int].0 by {
                    assert(crate::containers::assoc_keys(snap.pairs())[x] == snap.pairs()[x].0);
                    assert(crate::containers::assoc_keys(snap.pairs())[i as int] == snap.pairs()[
                        i as int].0);
                }
                assert(!map_of(snap.pairs().subrange(0, i as int)).contains_key(
                    snap.pairs()[i as int].0,
                )) by {
                    let prefix = snap.pairs().subrange(0, i as int);
                    assert forall|x: int|
                        0 <= x < prefix.len() implies #[trigger] crate::containers::assoc_keys(
                        prefix,
                    )[x] != snap.pairs()[i as int].0 by {
                        assert(crate::containers::assoc_keys(prefix)[x] == prefix[x].0);
                        assert(prefix[x].0 == snap.pairs()[x].0);
                    }
                    assert(crate::containers::assoc_keys(prefix).no_duplicates()) by {
                        assert forall|a: int, b: int|
                            0 <= a < b < prefix.len() implies #[trigger] crate::containers::assoc_keys(
                            prefix,
                        )[a] != #[trigger] crate::containers::assoc_keys(prefix)[b] by {
                            assert(crate::containers::assoc_keys(prefix)[a] == snap.pairs()[a].0);
                            assert(crate::containers::assoc_keys(prefix)[b] == snap.pairs()[b].0);
                            assert(crate::containers::assoc_keys(snap.pairs())[a] == snap.pairs()[
                                a].0);
                            assert(crate::containers::assoc_keys(snap.pairs())[b] == snap.pairs()[
                                b].0);
                        }
                    }
                    crate::containers::lemma_map_of(prefix);
                    if map_of(prefix).contains_key(snap.pairs()[i as int].0) {
                        let x = choose|x: int|
                            0 <= x < prefix.len() && crate::containers::assoc_keys(prefix)[x]
                                == snap.pairs()[i as int].0;
                    }
                }
                assert(!base.contains_key(snap.pairs()[i as int].0));
            }
            while j < elem_count
                invariant
                    i < snap.pairs().len(),
                    total == snap.pairs().len(),
                    snap@ == map_of(snap.pairs()),
                    crate::containers::assoc_keys(snap.pairs()).no_duplicates(),
                    replay_set(bytes@) == Some(snap@),
                    j <= elems.len(),
                    elem_count == elems.len(),
                    elems.no_duplicates(),
                    inner.elems() == elems,
                    inner@ == elems.to_set(),
                    elems.to_set() == snap.pairs()[i as int].1,
                    s.wf(),
                    !base.contains_key(snap.pairs()[i as int].0),
                    k@ == snap.pairs()[i as int].0,
                    s@ == if j == 0 {
                        base
                    } else {
                        base.insert(k@, elems.subrange(0, j as int).to_set())
                    },
                    s.log().len() == set_enum_size(
                        snap@,
                        crate::containers::assoc_keys(snap.pairs()).subrange(0, i as int),
                    ) + set_row_size_elems(k@, elems.subrange(0, j as int)),
                    crate::wal::all_set_appends(s.log(), 0),
                decreases elem_count - j,
            {
                let e = clone_bytes(inner.elem_at(j));
                let kk = clone_bytes(k);
                let room = ((u32::MAX as u64) - 21) as u64;
                let klen = kk.len() as u64;
                let elen = e.len() as u64;
                let loglen = s.wal.log_bytes().len() as u64;
                if klen > room || elen > room - klen || loglen > room - klen - elen {
                    proof {
                        Self::lemma_recover_overflow(
                            snap@,
                            snap.pairs(),
                            elems,
                            i as int,
                            j as int,
                        );
                    }
                    return Err(StoreError::LogFull);
                }
                proof {
                    lemma_auto_spec_u32_to_from_le_bytes();
                    lemma_set_row_prefix(k@, elems, j as int);
                    lemma_kv_round_trip(kk@, e@);
                    crate::wal::lemma_set_compacted_append(s.log(), 0, spec_encode_kv(kk@, e@));
                }
                s.append(kk, e);
                proof {
                    let prefix = elems.subrange(0, j as int);
                    let prefix1 = elems.subrange(0, j as int + 1);
                    assert forall|x: Seq<u8>|
                        prefix1.to_set().contains(x) == prefix.to_set().insert(
                            elems[j as int],
                        ).contains(x) by {
                        if prefix1.to_set().contains(x) {
                            let q = choose|q: int| 0 <= q < prefix1.len() && prefix1[q] == x;
                            if q < j {
                                assert(prefix[q] == x);
                                assert(prefix.contains(x));
                            } else {
                                assert(x == elems[j as int]);
                            }
                        } else if prefix.to_set().insert(elems[j as int]).contains(x) {
                            if x == elems[j as int] {
                                assert(prefix1[j as int] == x);
                            } else {
                                let q = choose|q: int| 0 <= q < prefix.len() && prefix[q] == x;
                                assert(prefix1[q] == x);
                            }
                            assert(prefix1.contains(x));
                        }
                    }
                    assert(prefix1.to_set() =~= prefix.to_set().insert(elems[j as int]));
                    if j == 0 {
                        assert(set_arg(base, k@) =~= Set::<Seq<u8>>::empty());
                        assert(elems.subrange(0, 0) =~= Seq::<Seq<u8>>::empty());
                        assert(Seq::<Seq<u8>>::empty().to_set() =~= Set::<Seq<u8>>::empty());
                    }
                    assert(s@ =~= base.insert(k@, elems.subrange(0, j as int + 1).to_set()));
                }
                j += 1;
            }
            proof {
                assert(elems.subrange(0, elems.len() as int) =~= elems);
                crate::containers::lemma_map_of(snap.pairs());
                assert(crate::containers::assoc_keys(snap.pairs())[i as int] == snap.pairs()[
                    i as int].0);
                assert(snap@.contains_key(k@) && snap@[k@] == snap.pairs()[i as int].1);
                lemma_set_row_size_to_set(k@, elems);
                lemma_set_enum_prefix(
                    snap@,
                    crate::containers::assoc_keys(snap.pairs()),
                    i as int,
                );
                assert(set_enum_size(
                    snap@,
                    crate::containers::assoc_keys(snap.pairs()).subrange(0, i as int + 1),
                ) == set_enum_size(
                    snap@,
                    crate::containers::assoc_keys(snap.pairs()).subrange(0, i as int),
                ) + set_row_size(k@, snap@[k@]));
                let prefix = snap.pairs().subrange(0, i as int);
                let prefix1 = snap.pairs().subrange(0, i as int + 1);
                assert(prefix1.drop_last() =~= prefix);
                assert(prefix1.last() == snap.pairs()[i as int]);
                assert(map_of(prefix1) == map_of(prefix).insert(
                    snap.pairs()[i as int].0,
                    snap.pairs()[i as int].1,
                ));
                if elem_count == 0 {
                    assert(snap.pairs()[i as int].1 =~= Set::<Seq<u8>>::empty());
                    assert(s@ =~= live_sets(map_of(prefix1)));
                } else {
                    assert(elems.to_set().contains(elems[0]));
                    assert(snap.pairs()[i as int].1 != Set::<Seq<u8>>::empty());
                    assert(s@ =~= live_sets(map_of(prefix1)));
                }
            }
            i += 1;
        }
        proof {
            assert(snap.pairs().subrange(0, snap.pairs().len() as int) =~= snap.pairs());
        }
        Ok(s)
    }
}

/// A successful append is observed: the key is bound afterwards and its
/// set holds the appended element.
pub proof fn set_update_observed(
    pre: Map<Seq<u8>, Set<Seq<u8>>>,
    post: Map<Seq<u8>, Set<Seq<u8>>>,
    k: Seq<u8>,
    e: Seq<u8>,
)
    requires
        post == pre.insert(k, set_arg(pre, k).insert(e)),
    ensures
        post.contains_key(k),
        post[k].contains(e),
{
}

/// Replaying the store's live log from the start reproduces exactly its
/// in-memory contents, and the log is a contiguous chain of records, each
/// carrying the offset at which it starts.
pub proof fn replay_matches_set_state(s: &DurableKeySetStore)
    requires
        s.wf(),
    ensures
        replay_set(s.log()) == Some(s@),
        wf_chain(s.log(), 0),
{
}

} // verus!
