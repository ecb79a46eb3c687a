//! The durable key-sorted-map store: byte-string keys bound to inner maps
//! from search keys to byte-string values, the inner maps totally ordered
//! by the search-key order. Every logged mutation appends its record before
//! the in-memory state changes; removing the last inner entry drops the
//! outer key and logs a DELETE after the SORTED_REMOVE.
//!
//! The `compute` family guards only the in-memory mutation: it writes no
//! log record, so durability of such changes is the caller's own concern.

use vstd::prelude::*;

verus! {

use vstd::bytes::lemma_auto_spec_u32_to_from_le_bytes;
use vstd::bytes::lemma_auto_spec_u64_to_from_le_bytes;
use crate::codec::DELETE_ACT;
use crate::codec::SORTED_PUT_ACT;
use crate::codec::SORTED_REMOVE_ACT;
use crate::codec::spec_record_bytes;
use crate::codec::crc32_of;
use crate::keys::Key;
use crate::keys::KeyModel;
use crate::keys::SearchKey;
use crate::keys::keys_view;
use crate::keys::clone_bytes;
use crate::key_codec::spec_encode_sorted_entry;
use crate::key_codec::spec_encode_sorted_key;
use crate::key_codec::spec_encode_search_key;
use crate::key_codec::spec_encode_keys;
use crate::key_codec::spec_encode_key;
use crate::key_codec::lemma_sorted_entry_round_trip;
use crate::key_codec::lemma_sorted_key_round_trip;
use crate::containers::AssocMap;
use crate::containers::SortedEntries;
use crate::containers::KeyBound;
use crate::containers::in_range;
use crate::containers::entry_views;
use crate::containers::entries_sorted;
use crate::containers::sorted_lookup;
use crate::containers::sorted_insert;
use crate::containers::sorted_remove;
use crate::containers::map_of;
use crate::containers::assoc_keys;
use crate::containers::lemma_map_of;
use crate::containers::lemma_sorted_at;
use crate::containers::lemma_sorted_remove_last;
use crate::wal::WalStorage;
use crate::wal::StoreError;
use crate::wal::RecordModel;
use crate::wal::replay_sorted;
use crate::wal::sorted_apply;
use crate::wal::wf_chain;
use crate::wal::lemma_wf_chain_append;
use crate::wal::read_for_map;
use crate::wal::lemma_replay_sorted_append;

/// The inner map bound to `k`, or the empty one when `k` is unbound.
pub open spec fn inner_arg(
    m: Map<Seq<u8>, Seq<(Seq<KeyModel>, Seq<u8>)>>,
    k: Seq<u8>,
) -> Seq<(Seq<KeyModel>, Seq<u8>)> {
    if m.contains_key(k) {
        m[k]
    } else {
        Seq::empty()
    }
}

/// No key is bound to an empty inner map.
pub open spec fn no_empty_inners(m: Map<Seq<u8>, Seq<(Seq<KeyModel>, Seq<u8>)>>) -> bool {
    forall|k: Seq<u8>| #[trigger] m.contains_key(k) ==> m[k].len() > 0
}

/// Every bound inner map is sorted by the search-key order.
pub open spec fn all_inners_sorted(m: Map<Seq<u8>, Seq<(Seq<KeyModel>, Seq<u8>)>>) -> bool {
    forall|k: Seq<u8>| #[trigger] m.contains_key(k) ==> entries_sorted(m[k])
}

/// The bindings of `m` whose inner maps are non-empty.
pub open spec fn live_inners(m: Map<Seq<u8>, Seq<(Seq<KeyModel>, Seq<u8>)>>) -> Map<
    Seq<u8>,
    Seq<(Seq<KeyModel>, Seq<u8>)>,
> {
    Map::<Seq<u8>, Seq<(Seq<KeyModel>, Seq<u8>)>>::new(
        |k: Seq<u8>| m.contains_key(k) && m[k].len() > 0,
        |k: Seq<u8>| m[k],
    )
}

/// The search key after the greatest one: one past its counter when the
/// greatest key is a single platform-sized unsigned integer, 0 otherwise
/// or when the inner map is empty.
pub open spec fn next_ordered_index(inner: Seq<(Seq<KeyModel>, Seq<u8>)>) -> int {
    if inner.len() == 0 {
        0
    } else {
        let sk = inner.last().0;
        if sk.len() == 1 {
            match sk[0] {
                KeyModel::USIZE(n) => n + 1,
                _ => 0,
            }
        } else {
            0
        }
    }
}

/// The log bytes one SORTED_PUT record per inner entry occupies, for one
/// outer key's whole inner map.
pub open spec fn sorted_row_size(k: Seq<u8>, row: Seq<(Seq<KeyModel>, Seq<u8>)>) -> nat
    decreases row.len(),
{
    if row.len() == 0 {
        0
    } else {
        sorted_row_size(k, row.drop_last()) + 13 + spec_encode_sorted_entry(
            k,
            row.last().0,
            row.last().1,
        ).len()
    }
}

/// The log bytes the snapshot occupies when re-logged key by key in the
/// order `ks`.
pub open spec fn sorted_enum_size(
    m: Map<Seq<u8>, Seq<(Seq<KeyModel>, Seq<u8>)>>,
    ks: Seq<Seq<u8>>,
) -> nat
    decreases ks.len(),
{
    if ks.len() == 0 {
        0
    } else {
        sorted_enum_size(m, ks.drop_last()) + sorted_row_size(ks.last(), m[ks.last()])
    }
}

/// The snapshot can be re-logged within the 4-byte offset format: every
/// duplicate-free ordering of its outer keys (all orderings have the same
/// total size) fits a log of at most `u32::MAX` bytes.
pub open spec fn sorted_snapshot_fits(m: Map<Seq<u8>, Seq<(Seq<KeyModel>, Seq<u8>)>>) -> bool {
    forall|ks: Seq<Seq<u8>>|
        ks.no_duplicates() && ks.to_set() == m.dom() ==> sorted_enum_size(m, ks) <= u32::MAX
}

/// A row prefix never outweighs the row, and one more entry adds its exact
/// record size.
proof fn lemma_sorted_row_prefix(k: Seq<u8>, row: Seq<(Seq<KeyModel>, Seq<u8>)>, j: int)
    requires
        0 <= j <= row.len(),
    ensures
        sorted_row_size(k, row.subrange(0, j)) <= sorted_row_size(k, row),
        j < row.len() ==> sorted_row_size(k, row.subrange(0, j + 1)) == sorted_row_size(
            k,
            row.subrange(0, j),
        ) + 13 + spec_encode_sorted_entry(k, row[j].0, row[j].1).len(),
    decreases row.len() - j,
{
    if j < row.len() {
        assert(row.subrange(0, j + 1).drop_last() =~= row.subrange(0, j));
        assert(row.subrange(0, j + 1).last() == row[j]);
        lemma_sorted_row_prefix(k, row, j + 1);
    } else {
        assert(row.subrange(0, j) =~= row);
    }
}

/// A key-order prefix never outweighs the whole, and one more key adds
/// exactly its row's size.
proof fn lemma_sorted_enum_prefix(
    m: Map<Seq<u8>, Seq<(Seq<KeyModel>, Seq<u8>)>>,
    ks: Seq<Seq<u8>>,
    j: int,
)
    requires
        0 <= j <= ks.len(),
    ensures
        sorted_enum_size(m, ks.subrange(0, j)) <= sorted_enum_size(m, ks),
        j < ks.len() ==> sorted_enum_size(m, ks.subrange(0, j + 1)) == sorted_enum_size(
            m,
            ks.subrange(0, j),
        ) + sorted_row_size(ks[j], m[ks[j]]),
    decreases ks.len() - j,
{
    if j < ks.len() {
        assert(ks.subrange(0, j + 1).drop_last() =~= ks.subrange(0, j));
        assert(ks.subrange(0, j + 1).last() == ks[j]);
        lemma_sorted_enum_prefix(m, ks, j + 1);
    } else {
        assert(ks.subrange(0, j) =~= ks);
    }
}

/// The durable key-sorted-map store.
pub struct DurableKeyMapStore {
    store: AssocMap<SortedEntries>,
    wal: WalStorage,
}

impl View for DurableKeyMapStore {
    type V = Map<Seq<u8>, Seq<(Seq<KeyModel>, Seq<u8>)>>;

    closed spec fn view(&self) -> Map<Seq<u8>, Seq<(Seq<KeyModel>, Seq<u8>)>> {
        self.store@
    }
}

impl DurableKeyMapStore {
    /// The bytes of the store's log.
    pub closed spec fn log(&self) -> Seq<u8> {
        self.wal@
    }

    /// The store is consistent with its log, no bound inner map is empty,
    /// and every inner map is sorted.
    pub open spec fn wf(&self) -> bool {
        &&& replay_sorted(self.log()) == Some(self@)
        &&& no_empty_inners(self@)
        &&& all_inners_sorted(self@)
        &&& wf_chain(self.log(), 0)
    }

    /// Room in the log for one more record with a payload of `data_len`
    /// bytes.
    pub open spec fn can_log(&self, data_len: nat) -> bool {
        self.log().len() + 13 + data_len <= u32::MAX
    }

    /// An empty store over an empty in-memory log.
    pub fn new_vec_based() -> (r: Self)
        ensures
            r.wf(),
            r@ == Map::<Seq<u8>, Seq<(Seq<KeyModel>, Seq<u8>)>>::empty(),
            r.log() == Seq::<u8>::empty(),
    {
        DurableKeyMapStore { store: AssocMap::new(), wal: WalStorage::new_vec_based() }
    }

    /// The log bytes written so far.
    pub fn log_bytes(&self) -> (r: &Vec<u8>)
        ensures
            r@ == self.log(),
    {
        self.wal.log_bytes()
    }

    /// A sorted copy of the inner map bound to `key`, if any.
    pub fn get_sorted_map(&self, key: &[u8]) -> (r: Option<SortedEntries>)
        ensures
            match r {
                Some(s) => self@.contains_key(key@) && s@ == self@[key@] && entries_sorted(s@),
                None => !self@.contains_key(key@),
            },
    {
        match self.store.get(key) {
            None => None,
            Some(inner) => Some(inner.clone()),
        }
    }

    /// The value under `search_key` within `key`'s inner map, if any.
    pub fn get_element(&self, key: &[u8], search_key: &SearchKey) -> (r: Option<Vec<u8>>)
        ensures
            match r {
                Some(v) => self@.contains_key(key@) && sorted_lookup(self@[key@], search_key@)
                    == Some(v@),
                None => !self@.contains_key(key@) || sorted_lookup(self@[key@], search_key@)
                    is None,
            },
    {
        match self.store.get(key) {
            None => None,
            Some(inner) => match inner.get(search_key) {
                Some(v) => Some(clone_bytes(v)),
                None => None,
            },
        }
    }

    /// Whether `key`'s inner map binds `search_key`.
    pub fn contains_in_map(&self, key: &[u8], search_key: &SearchKey) -> (r: bool)
        ensures
            r == (self@.contains_key(key@) && sorted_lookup(self@[key@], search_key@) is Some),
    {
        match self.store.get(key) {
            None => false,
            Some(inner) => inner.get(search_key).is_some(),
        }
    }

    /// Whether `key`'s inner map binds `search_key`.
    pub fn contains_search_key(&self, key: &[u8], search_key: &SearchKey) -> (r: bool)
        ensures
            r == (self@.contains_key(key@) && sorted_lookup(self@[key@], search_key@) is Some),
    {
        self.contains_in_map(key, search_key)
    }

    /// Whether `key` is bound.
    pub fn contains_key(&self, key: &[u8]) -> (r: bool)
        ensures
            r == self@.contains_key(key@),
    {
        self.store.contains_key(key)
    }

    /// How many outer keys the store holds.
    pub fn size(&self) -> (r: usize)
        ensures
            r == self@.dom().len(),
            self@.dom().finite(),
    {
        self.store.len()
    }

    /// How many entries `key`'s inner map holds, if it is bound.
    pub fn sorted_map_size(&self, key: &[u8]) -> (r: Option<usize>)
        ensures
            match r {
                Some(n) => self@.contains_key(key@) && n == self@[key@].len(),
                None => !self@.contains_key(key@),
            },
    {
        match self.store.get(key) {
            None => None,
            Some(inner) => Some(inner.len()),
        }
    }

    /// The entries of `key`'s inner map whose search keys lie within the
    /// bounds, in ascending order.
    pub fn range_entries(&self, key: &[u8], bound_start: KeyBound, bound_end: KeyBound) -> (r:
        Option<Vec<(SearchKey, Vec<u8>)>>)
        ensures
            match r {
                Some(v) => self@.contains_key(key@) && entry_views(v@) == self@[key@].filter(
                    |e: (Seq<KeyModel>, Seq<u8>)| in_range(bound_start@, bound_end@, e.0),
                ),
                None => !self@.contains_key(key@),
            },
    {
        match self.store.get(key) {
            None => None,
            Some(inner) => Some(inner.range(&bound_start, &bound_end)),
        }
    }

    /// A copy of the least entry of `key`'s inner map.
    pub fn first(&self, key: &[u8]) -> (r: Option<(SearchKey, Vec<u8>)>)
        ensures
            match r {
                Some(p) => self@.contains_key(key@) && self@[key@].len() > 0 && p.0@ == self@[
                    key@][0].0 && p.1@ == self@[key@][0].1,
                None => !self@.contains_key(key@) || self@[key@].len() == 0,
            },
    {
        match self.store.get(key) {
            None => None,
            Some(inner) => inner.first(),
        }
    }

    /// A copy of the greatest entry of `key`'s inner map.
    pub fn last(&self, key: &[u8]) -> (r: Option<(SearchKey, Vec<u8>)>)
        ensures
            match r {
                Some(p) => self@.contains_key(key@) && self@[key@].len() > 0 && p.0@ == self@[
                    key@][self@[key@].len() - 1].0 && p.1@ == self@[key@][self@[key@].len() - 1].1,
                None => !self@.contains_key(key@) || self@[key@].len() == 0,
            },
    {
        match self.store.get(key) {
            None => None,
            Some(inner) => inner.last(),
        }
    }

    /// Logs a SORTED_PUT and binds `val` under `search_key` within `key`'s
    /// inner map, creating the inner map if needed.
    pub fn put(&mut self, key: Vec<u8>, search_key: SearchKey, val: Vec<u8>)
        requires
            old(self).wf(),
            key@.len() <= u32::MAX,
            val@.len() <= u32::MAX,
            old(self).can_log(spec_encode_sorted_entry(key@, search_key@, val@).len()),
        ensures
            final(self).wf(),
            final(self)@ == old(self)@.insert(
                key@,
                sorted_insert(inner_arg(old(self)@, key@), search_key@, val@),
            ),
            final(self).log() == old(self).log() + spec_record_bytes(
                SORTED_PUT_ACT,
                spec_encode_sorted_entry(key@, search_key@, val@),
                old(self).log().len() as u32,
            ),
    {
        let ghost gk = key@;
        let ghost gsk = search_key@;
        let ghost gv = val@;
        let (key, search_key, val) = self.wal.store_put_to_map_event(key, search_key, val);
        proof {
            let data = spec_encode_sorted_entry(gk, gsk, gv);
            let rec = (RecordModel {
                act: SORTED_PUT_ACT,
                crc: crc32_of(data),
                data,
                start: old(self).log().len() as u32,
            });
            lemma_sorted_entry_round_trip(gk, gsk, gv);
            lemma_replay_sorted_append(old(self).log(), 0, Map::empty(), SORTED_PUT_ACT, data);
            lemma_wf_chain_append(old(self).log(), 0, SORTED_PUT_ACT, data);
            assert(sorted_apply(old(self)@, rec) == old(self)@.insert(
                gk,
                sorted_insert(inner_arg(old(self)@, gk), gsk, gv),
            ));
        }
        let mut cur = match self.store.get(key.as_slice()) {
            Some(inner) => inner.clone(),
            None => SortedEntries::new(),
        };
        cur.insert_entry(search_key, val);
        let ghost curv = cur@;
        self.store.insert(key, cur);
        proof {
            assert(curv.len() >= 1);
            assert forall|k2: Seq<u8>| #[trigger] self@.contains_key(k2) implies self@[k2].len()
                > 0 && entries_sorted(self@[k2]) by {
                if k2 != gk {
                    assert(old(self)@.contains_key(k2));
                }
            }
        }
    }

    /// Logs a SORTED_REMOVE and removes `search_key` from `key`'s inner
    /// map; when that empties the inner map, logs a DELETE and drops the
    /// key. Returns the removed value, if any.
    pub fn remove_from_sorted_map(&mut self, key: Vec<u8>, search_key: SearchKey) -> (r: Option<
        Vec<u8>,
    >)
        requires
            old(self).wf(),
            key@.len() <= u32::MAX,
            old(self).log().len() + 26 + key@.len() + spec_encode_sorted_key(
                key@,
                search_key@,
            ).len() <= u32::MAX,
        ensures
            final(self).wf(),
            match r {
                Some(v) => old(self)@.contains_key(key@) && sorted_lookup(
                    old(self)@[key@],
                    search_key@,
                ) == Some(v@),
                None => !old(self)@.contains_key(key@) || sorted_lookup(
                    old(self)@[key@],
                    search_key@,
                ) is None,
            },
            final(self)@ == if !old(self)@.contains_key(key@) {
                old(self)@
            } else if sorted_remove(old(self)@[key@], search_key@).len() == 0 {
                old(self)@.remove(key@)
            } else {
                old(self)@.insert(key@, sorted_remove(old(self)@[key@], search_key@))
            },
            final(self).log() == if old(self)@.contains_key(key@) && sorted_remove(
                old(self)@[key@],
                search_key@,
            ).len() == 0 {
                old(self).log() + spec_record_bytes(
                    SORTED_REMOVE_ACT,
                    spec_encode_sorted_key(key@, search_key@),
                    old(self).log().len() as u32,
                ) + spec_record_bytes(
                    DELETE_ACT,
                    key@,
                    (old(self).log().len() + 13 + spec_encode_sorted_key(
                        key@,
                        search_key@,
                    ).len()) as u32,
                )
            } else {
                old(self).log() + spec_record_bytes(
                    SORTED_REMOVE_ACT,
                    spec_encode_sorted_key(key@, search_key@),
                    old(self).log().len() as u32,
                )
            },
    {
        let ghost gk = key@;
        let ghost gsk = search_key@;
        let ghost log0 = old(self).log();
        let (key, search_key) = self.wal.store_remove_from_sorted_map_event(key, search_key);
        proof {
            let data = spec_encode_sorted_key(gk, gsk);
            lemma_sorted_key_round_trip(gk, gsk);
            lemma_replay_sorted_append(log0, 0, Map::empty(), SORTED_REMOVE_ACT, data);
            lemma_wf_chain_append(log0, 0, SORTED_REMOVE_ACT, data);
        }
        let ghost mid = sorted_apply(
            old(self)@,
            RecordModel {
                act: SORTED_REMOVE_ACT,
                crc: crc32_of(spec_encode_sorted_key(gk, gsk)),
                data: spec_encode_sorted_key(gk, gsk),
                start: log0.len() as u32,
            },
        );
        match self.store.get(key.as_slice()) {
            Some(inner) => {
                let mut cur = inner.clone();
                let removed = cur.remove_entry(&search_key);
                if cur.is_empty() {
                    let ghost log1 = self.wal@;
                    proof {
                        lemma_auto_spec_u32_to_from_le_bytes();
                        assert(log1.len() == log0.len() + 13 + spec_encode_sorted_key(
                            gk,
                            gsk,
                        ).len());
                    }
                    self.wal.store_delete_event(key.as_slice());
                    proof {
                        lemma_replay_sorted_append(log1, 0, Map::empty(), DELETE_ACT, gk);
                        lemma_wf_chain_append(log1, 0, DELETE_ACT, gk);
                    }
                    self.store.remove(key.as_slice());
                    proof {
                        assert(self@ =~= old(self)@.remove(gk));
                        assert(mid.remove(gk) =~= old(self)@.remove(gk));
                        assert forall|k2: Seq<u8>| #[trigger] self@.contains_key(k2) implies self@[
                            k2].len() > 0 && entries_sorted(self@[k2]) by {
                            assert(old(self)@.contains_key(k2));
                        }
                    }
                } else {
                    let ghost curv = cur@;
                    self.store.insert(key, cur);
                    proof {
                        assert(self@ =~= mid);
                        assert forall|k2: Seq<u8>| #[trigger] self@.contains_key(k2) implies self@[
                            k2].len() > 0 && entries_sorted(self@[k2]) by {
                            if k2 == gk {
                                assert(self@[gk] == curv);
                            } else {
                                assert(old(self)@.contains_key(k2));
                            }
                        }
                    }
                }
                removed
            },
            None => {
                proof {
                    assert(mid =~= old(self)@);
                }
                None
            },
        }
    }

    /// Logs a DELETE and drops the key with its whole inner map.
    pub fn remove_key(&mut self, key: &[u8])
        requires
            old(self).wf(),
            old(self).can_log(key@.len()),
        ensures
            final(self).wf(),
            final(self)@ == old(self)@.remove(key@),
            final(self).log() == old(self).log() + spec_record_bytes(
                DELETE_ACT,
                key@,
                old(self).log().len() as u32,
            ),
    {
        self.wal.store_delete_event(key);
        proof {
            lemma_replay_sorted_append(old(self).log(), 0, Map::empty(), DELETE_ACT, key@);
            lemma_wf_chain_append(old(self).log(), 0, DELETE_ACT, key@);
        }
        self.store.remove(key);
        proof {
            assert forall|k2: Seq<u8>| #[trigger] self@.contains_key(k2) implies self@[k2].len()
                > 0 && entries_sorted(self@[k2]) by {
                assert(old(self)@.contains_key(k2));
            }
        }
    }
}

/// A successful insertion is observed: the key is bound afterwards and a
/// lookup of the search key finds exactly the inserted value.
pub proof fn map_update_observed(
    pre: Map<Seq<u8>, Seq<(Seq<KeyModel>, Seq<u8>)>>,
    post: Map<Seq<u8>, Seq<(Seq<KeyModel>, Seq<u8>)>>,
    k: Seq<u8>,
    sk: Seq<KeyModel>,
    v: Seq<u8>,
)
    requires
        post == pre.insert(k, sorted_insert(inner_arg(pre, k), sk, v)),
    ensures
        post.contains_key(k),
        sorted_lookup(post[k], sk) == Some(v),
{
    crate::containers::lemma_sorted_insert_lookup(inner_arg(pre, k), sk, v);
}

/// Replaying the store's live log from the start reproduces exactly its
/// in-memory contents, and the log is a contiguous chain of records, each
/// carrying the offset at which it starts.
pub proof fn replay_matches_map_state(s: &DurableKeyMapStore)
    requires
        s.wf(),
    ensures
        replay_sorted(s.log()) == Some(s@),
        wf_chain(s.log(), 0),
{
}

impl DurableKeyMapStore {
    /// Pops the least entry of `key`'s inner map: logs a SORTED_REMOVE for
    /// its search key, removes it, and drops the key (logging a DELETE)
    /// when the inner map is emptied.
    pub fn pop_first(&mut self, key: Vec<u8>) -> (r: Option<(SearchKey, Vec<u8>)>)
        requires
            old(self).wf(),
            key@.len() <= u32::MAX,
            old(self)@.contains_key(key@) && old(self)@[key@].len() > 0 ==> old(self).log().len()
                + 26 + key@.len() + spec_encode_sorted_key(key@, old(self)@[key@][0].0).len()
                <= u32::MAX,
        ensures
            final(self).wf(),
            match r {
                None => (!old(self)@.contains_key(key@) || old(self)@[key@].len() == 0)
                    && final(self)@ == old(self)@ && final(self).log() == old(self).log(),
                Some(p) => {
                    let inner = old(self)@[key@];
                    &&& old(self)@.contains_key(key@)
                    &&& inner.len() > 0
                    &&& p.0@ == inner[0].0
                    &&& p.1@ == inner[0].1
                    &&& final(self)@ == if inner.len() == 1 {
                        old(self)@.remove(key@)
                    } else {
                        old(self)@.insert(key@, inner.drop_first())
                    }
                    &&& final(self).log() == if inner.len() == 1 {
                        old(self).log() + spec_record_bytes(
                            SORTED_REMOVE_ACT,
                            spec_encode_sorted_key(key@, inner[0].0),
                            old(self).log().len() as u32,
                        ) + spec_record_bytes(
                            DELETE_ACT,
                            key@,
                            (old(self).log().len() + 13 + spec_encode_sorted_key(
                                key@,
                                inner[0].0,
                            ).len()) as u32,
                        )
                    } else {
                        old(self).log() + spec_record_bytes(
                            SORTED_REMOVE_ACT,
                            spec_encode_sorted_key(key@, inner[0].0),
                            old(self).log().len() as u32,
                        )
                    }
                },
            },
    {
        let first_pair = match self.store.get(key.as_slice()) {
            None => {
                return None;
            },
            Some(inner) => inner.first(),
        };
        match first_pair {
            None => None,
            Some((sk, peek)) => {
                let ghost gk = key@;
                let ghost gsk = sk@;
                let ghost log0 = old(self).log();
                let ghost inner0 = old(self)@[key@];
                let (key, sk) = self.wal.store_remove_from_sorted_map_event(key, sk);
                proof {
                    let data = spec_encode_sorted_key(gk, gsk);
                    lemma_sorted_key_round_trip(gk, gsk);
                    lemma_replay_sorted_append(log0, 0, Map::empty(), SORTED_REMOVE_ACT, data);
                    lemma_wf_chain_append(log0, 0, SORTED_REMOVE_ACT, data);
                    assert(sorted_remove(inner0, gsk) =~= inner0.drop_first());
                }
                let ghost mid = old(self)@.insert(gk, inner0.drop_first());
                match self.store.get(key.as_slice()) {
                    Some(inner2) => {
                        let mut cur = inner2.clone();
                        let popped = cur.pop_first_entry();
                        if cur.is_empty() {
                            let ghost log1 = self.wal@;
                            proof {
                                lemma_auto_spec_u32_to_from_le_bytes();
                                assert(log1.len() == log0.len() + 13 + spec_encode_sorted_key(
                                    gk,
                                    gsk,
                                ).len());
                            }
                            self.wal.store_delete_event(key.as_slice());
                            proof {
                                lemma_replay_sorted_append(log1, 0, Map::empty(), DELETE_ACT, gk);
                                lemma_wf_chain_append(log1, 0, DELETE_ACT, gk);
                            }
                            self.store.remove(key.as_slice());
                            proof {
                                assert(self@ =~= old(self)@.remove(gk));
                                assert(mid.remove(gk) =~= old(self)@.remove(gk));
                                assert forall|k2: Seq<u8>| #[trigger] self@.contains_key(
                                    k2,
                                ) implies self@[k2].len() > 0 && entries_sorted(self@[k2]) by {
                                    assert(old(self)@.contains_key(k2));
                                }
                            }
                        } else {
                            let ghost curv = cur@;
                            self.store.insert(key, cur);
                            proof {
                                assert(self@ =~= mid);
                                assert forall|k2: Seq<u8>| #[trigger] self@.contains_key(
                                    k2,
                                ) implies self@[k2].len() > 0 && entries_sorted(self@[k2]) by {
                                    if k2 == gk {
                                        assert(self@[gk] == curv);
                                    } else {
                                        assert(old(self)@.contains_key(k2));
                                    }
                                }
                            }
                        }
                        popped
                    },
                    None => {
                        proof {
                            assert(false);
                        }
                        None
                    },
                }
            },
        }
    }

    /// Pops the greatest entry of `key`'s inner map, logging as
    /// `pop_first` does.
    pub fn pop_last(&mut self, key: Vec<u8>) -> (r: Option<(SearchKey, Vec<u8>)>)
        requires
            old(self).wf(),
            key@.len() <= u32::MAX,
            old(self)@.contains_key(key@) && old(self)@[key@].len() > 0 ==> old(self).log().len()
                + 26 + key@.len() + spec_encode_sorted_key(
                key@,
                old(self)@[key@][old(self)@[key@].len() - 1].0,
            ).len() <= u32::MAX,
        ensures
            final(self).wf(),
            match r {
                None => (!old(self)@.contains_key(key@) || old(self)@[key@].len() == 0)
                    && final(self)@ == old(self)@ && final(self).log() == old(self).log(),
                Some(p) => {
                    let inner = old(self)@[key@];
                    &&& old(self)@.contains_key(key@)
                    &&& inner.len() > 0
                    &&& p.0@ == inner[inner.len() - 1].0
                    &&& p.1@ == inner[inner.len() - 1].1
                    &&& final(self)@ == if inner.len() == 1 {
                        old(self)@.remove(key@)
                    } else {
                        old(self)@.insert(key@, inner.drop_last())
                    }
                    &&& final(self).log() == if inner.len() == 1 {
                        old(self).log() + spec_record_bytes(
                            SORTED_REMOVE_ACT,
                            spec_encode_sorted_key(key@, inner[inner.len() - 1].0),
                            old(self).log().len() as u32,
                        ) + spec_record_bytes(
                            DELETE_ACT,
                            key@,
                            (old(self).log().len() + 13 + spec_encode_sorted_key(
                                key@,
                                inner[inner.len() - 1].0,
                            ).len()) as u32,
                        )
                    } else {
                        old(self).log() + spec_record_bytes(
                            SORTED_REMOVE_ACT,
                            spec_encode_sorted_key(key@, inner[inner.len() - 1].0),
                            old(self).log().len() as u32,
                        )
                    }
                },
            },
    {
        let last_pair = match self.store.get(key.as_slice()) {
            None => {
                return None;
            },
            Some(inner) => inner.last(),
        };
        match last_pair {
            None => None,
            Some((sk, peek)) => {
                let ghost gk = key@;
                let ghost gsk = sk@;
                let ghost log0 = old(self).log();
                let ghost inner0 = old(self)@[key@];
                let (key, sk) = self.wal.store_remove_from_sorted_map_event(key, sk);
                proof {
                    let data = spec_encode_sorted_key(gk, gsk);
                    lemma_sorted_key_round_trip(gk, gsk);
                    lemma_replay_sorted_append(log0, 0, Map::empty(), SORTED_REMOVE_ACT, data);
                    lemma_wf_chain_append(log0, 0, SORTED_REMOVE_ACT, data);
                    lemma_sorted_remove_last(inner0);
                }
                let ghost mid = old(self)@.insert(gk, inner0.drop_last());
                match self.store.get(key.as_slice()) {
                    Some(inner2) => {
                        let mut cur = inner2.clone();
                        let popped = cur.pop_last_entry();
                        if cur.is_empty() {
                            let ghost log1 = self.wal@;
                            proof {
                                lemma_auto_spec_u32_to_from_le_bytes();
                                assert(log1.len() == log0.len() + 13 + spec_encode_sorted_key(
                                    gk,
                                    gsk,
                                ).len());
                            }
                            self.wal.store_delete_event(key.as_slice());
                            proof {
                                lemma_replay_sorted_append(log1, 0, Map::empty(), DELETE_ACT, gk);
                                lemma_wf_chain_append(log1, 0, DELETE_ACT, gk);
                            }
                            self.store.remove(key.as_slice());
                            proof {
                                assert(self@ =~= old(self)@.remove(gk));
                                assert(mid.remove(gk) =~= old(self)@.remove(gk));
                                assert forall|k2: Seq<u8>| #[trigger] self@.contains_key(
                                    k2,
                                ) implies self@[k2].len() > 0 && entries_sorted(self@[k2]) by {
                                    assert(old(self)@.contains_key(k2));
                                }
                            }
                        } else {
                            let ghost curv = cur@;
                            self.store.insert(key, cur);
                            proof {
                                assert(self@ =~= mid);
                                assert forall|k2: Seq<u8>| #[trigger] self@.contains_key(
                                    k2,
                                ) implies self@[k2].len() > 0 && entries_sorted(self@[k2]) by {
                                    if k2 == gk {
                                        assert(self@[gk] == curv);
                                    } else {
                                        assert(old(self)@.contains_key(k2));
                                    }
                                }
                            }
                        }
                        popped
                    },
                    None => {
                        proof {
                            assert(false);
                        }
                        None
                    },
                }
            },
        }
    }

    /// Appends `element` under the next counter key: one past the greatest
    /// search key when that key is a single platform-sized unsigned
    /// integer, and 0 when the inner map is empty or its greatest key has
    /// another shape.
    pub fn append_ordered_element(&mut self, key: Vec<u8>, element: Vec<u8>)
        requires
            old(self).wf(),
            old(self).log().len() + 38 + key@.len() + element@.len() <= u32::MAX,
            old(self)@.contains_key(key@) ==> next_ordered_index(old(self)@[key@]) <= usize::MAX,
        ensures
            final(self).wf(),
            ({
                let next = next_ordered_index(inner_arg(old(self)@, key@));
                &&& final(self)@ == old(self)@.insert(
                    key@,
                    sorted_insert(
                        inner_arg(old(self)@, key@),
                        seq![KeyModel::USIZE(next as usize)],
                        element@,
                    ),
                )
                &&& final(self).log() == old(self).log() + spec_record_bytes(
                    SORTED_PUT_ACT,
                    spec_encode_sorted_entry(
                        key@,
                        seq![KeyModel::USIZE(next as usize)],
                        element@,
                    ),
                    old(self).log().len() as u32,
                )
            }),
    {
        let cur_num: usize = match self.store.get(key.as_slice()) {
            None => 0,
            Some(inner) => match inner.last() {
                None => 0,
                Some((sk, _v)) => {
                    let ks = sk.slice();
                    if ks.len() == 1 {
                        proof {
                            assert(keys_view(ks@)[0] == ks@[0]@);
                        }
                        match vstd::slice::slice_index_get(ks, 0) {
                            Key::USIZE(n) => *n + 1,
                            _ => 0,
                        }
                    } else {
                        0
                    }
                },
            },
        };
        let sk_new = SearchKey::from_usize(cur_num);
        proof {
            assert(cur_num as int == next_ordered_index(inner_arg(old(self)@, key@)));
            lemma_auto_spec_u32_to_from_le_bytes();
            lemma_auto_spec_u64_to_from_le_bytes();
            let skv = seq![KeyModel::USIZE(cur_num)];
            assert(sk_new@ == skv);
            assert(spec_encode_keys(skv) =~= spec_encode_key(skv[0]) + spec_encode_keys(
                skv.drop_first(),
            ));
            assert(skv.drop_first() =~= Seq::<KeyModel>::empty());
            assert(spec_encode_key(skv[0]).len() == 9);
            assert(spec_encode_search_key(skv).len() == 17);
            assert(spec_encode_sorted_entry(key@, skv, element@).len() == 25 + key@.len()
                + element@.len());
        }
        self.put(key, sk_new, element);
    }
}

impl DurableKeyMapStore {
    /// As `remove_from_sorted_map`, and calls `key_removed_callback` with
    /// the search key exactly when the outer key was dropped; the callback's
    /// precondition is owed only in that case, which is also the only case
    /// in which it runs.
    pub fn remove_from_sorted_map_callback<F: FnOnce(&SearchKey)>(
        &mut self,
        key: Vec<u8>,
        search_key: SearchKey,
        key_removed_callback: F,
    )
        requires
            old(self).wf(),
            key@.len() <= u32::MAX,
            old(self).log().len() + 26 + key@.len() + spec_encode_sorted_key(
                key@,
                search_key@,
            ).len() <= u32::MAX,
            old(self)@.contains_key(key@) && sorted_remove(old(self)@[key@], search_key@).len()
                == 0 ==> forall|x: &SearchKey|
                x@ == search_key@ ==> call_requires(key_removed_callback, (x,)),
        ensures
            final(self).wf(),
            final(self)@ == if !old(self)@.contains_key(key@) {
                old(self)@
            } else if sorted_remove(old(self)@[key@], search_key@).len() == 0 {
                old(self)@.remove(key@)
            } else {
                old(self)@.insert(key@, sorted_remove(old(self)@[key@], search_key@))
            },
    {
        let ghost gk = key@;
        let ghost gsk = search_key@;
        let ghost log0 = old(self).log();
        let (key, search_key) = self.wal.store_remove_from_sorted_map_event(key, search_key);
        proof {
            let data = spec_encode_sorted_key(gk, gsk);
            lemma_sorted_key_round_trip(gk, gsk);
            lemma_replay_sorted_append(log0, 0, Map::empty(), SORTED_REMOVE_ACT, data);
            lemma_wf_chain_append(log0, 0, SORTED_REMOVE_ACT, data);
        }
        let ghost mid = sorted_apply(
            old(self)@,
            RecordModel {
                act: SORTED_REMOVE_ACT,
                crc: crc32_of(spec_encode_sorted_key(gk, gsk)),
                data: spec_encode_sorted_key(gk, gsk),
                start: log0.len() as u32,
            },
        );
        match self.store.get(key.as_slice()) {
            Some(inner) => {
                let mut cur = inner.clone();
                cur.remove_entry(&search_key);
                if cur.is_empty() {
                    let ghost log1 = self.wal@;
                    proof {
                        lemma_auto_spec_u32_to_from_le_bytes();
                        assert(log1.len() == log0.len() + 13 + spec_encode_sorted_key(
                            gk,
                            gsk,
                        ).len());
                    }
                    self.wal.store_delete_event(key.as_slice());
                    proof {
                        lemma_replay_sorted_append(log1, 0, Map::empty(), DELETE_ACT, gk);
                        lemma_wf_chain_append(log1, 0, DELETE_ACT, gk);
                    }
                    self.store.remove(key.as_slice());
                    proof {
                        assert(self@ =~= old(self)@.remove(gk));
                        assert(mid.remove(gk) =~= old(self)@.remove(gk));
                        assert forall|k2: Seq<u8>| #[trigger] self@.contains_key(k2) implies self@[
                            k2].len() > 0 && entries_sorted(self@[k2]) by {
                            assert(old(self)@.contains_key(k2));
                        }
                    }
                    key_removed_callback(&search_key);
                } else {
                    let ghost curv = cur@;
                    self.store.insert(key, cur);
                    proof {
                        assert(self@ =~= mid);
                        assert forall|k2: Seq<u8>| #[trigger] self@.contains_key(k2) implies self@[
                            k2].len() > 0 && entries_sorted(self@[k2]) by {
                            if k2 == gk {
                                assert(self@[gk] == curv);
                            } else {
                                assert(old(self)@.contains_key(k2));
                            }
                        }
                    }
                }
            },
            None => {
                proof {
                    assert(mid =~= old(self)@);
                }
            },
        }
    }

    /// Hands the current inner map (or an empty one) to `func` and installs
    /// what it returns. Writes no log record: durability of this mutation
    /// is the caller's concern.
    pub fn compute<F: FnOnce(SortedEntries) -> SortedEntries>(&mut self, key: Vec<u8>, func: F)
        requires
            forall|s: SortedEntries|
                s@ == inner_arg(old(self)@, key@) ==> call_requires(func, (s,)),
        ensures
            final(self).log() == old(self).log(),
            exists|s0: SortedEntries, s1: SortedEntries|
                {
                    &&& s0@ == inner_arg(old(self)@, key@)
                    &&& call_ensures(func, (s0,), s1)
                    &&& final(self)@ == old(self)@.insert(key@, s1@)
                },
    {
        let cur = match self.store.get(key.as_slice()) {
            Some(inner) => inner.clone(),
            None => SortedEntries::new(),
        };
        let out = func(cur);
        self.store.insert(key, out);
    }

    /// As `compute`, but only when `key` is already bound. Writes no log
    /// record.
    pub fn compute_if_present<F: FnOnce(SortedEntries) -> SortedEntries>(
        &mut self,
        key: Vec<u8>,
        func: F,
    )
        requires
            forall|s: SortedEntries|
                s@ == inner_arg(old(self)@, key@) ==> call_requires(func, (s,)),
        ensures
            final(self).log() == old(self).log(),
            !old(self)@.contains_key(key@) ==> final(self)@ == old(self)@,
            old(self)@.contains_key(key@) ==> exists|s0: SortedEntries, s1: SortedEntries|
                {
                    &&& s0@ == inner_arg(old(self)@, key@)
                    &&& call_ensures(func, (s0,), s1)
                    &&& final(self)@ == old(self)@.insert(key@, s1@)
                },
    {
        match self.store.get(key.as_slice()) {
            Some(inner) => {
                let cur = inner.clone();
                let out = func(cur);
                self.store.insert(key, out);
            },
            None => {},
        }
    }

    /// As `compute`, but only when `key` is not yet bound: hands `func` an
    /// empty inner map. Writes no log record.
    pub fn compute_if_absent<F: FnOnce(SortedEntries) -> SortedEntries>(
        &mut self,
        key: Vec<u8>,
        func: F,
    )
        requires
            forall|s: SortedEntries|
                s@ == Seq::<(Seq<KeyModel>, Seq<u8>)>::empty() ==> call_requires(func, (s,)),
        ensures
            final(self).log() == old(self).log(),
            old(self)@.contains_key(key@) ==> final(self)@ == old(self)@,
            !old(self)@.contains_key(key@) ==> exists|s0: SortedEntries, s1: SortedEntries|
                {
                    &&& s0@ == Seq::<(Seq<KeyModel>, Seq<u8>)>::empty()
                    &&& call_ensures(func, (s0,), s1)
                    &&& final(self)@ == old(self)@.insert(key@, s1@)
                },
    {
        if !self.store.contains_key(key.as_slice()) {
            let out = func(SortedEntries::new());
            self.store.insert(key, out);
        }
    }

    /// If replaying the snapshot has already filled the offset space at the
    /// entry `j` of outer key `i`, the snapshot does not fit.
    proof fn lemma_recover_overflow(
        m: Map<Seq<u8>, Seq<(Seq<KeyModel>, Seq<u8>)>>,
        pairs: Seq<(Seq<u8>, Seq<(Seq<KeyModel>, Seq<u8>)>)>,
        iv: Seq<(Seq<KeyModel>, Seq<u8>)>,
        i: int,
        j: int,
    )
        requires
            m == map_of(pairs),
            assoc_keys(pairs).no_duplicates(),
            0 <= i < pairs.len(),
            iv == pairs[i].1,
            0 <= j < iv.len(),
            sorted_enum_size(m, assoc_keys(pairs).subrange(0, i)) + sorted_row_size(
                pairs[i].0,
                iv.subrange(0, j),
            ) + 13 + spec_encode_sorted_entry(pairs[i].0, iv[j].0, iv[j].1).len() > u32::MAX,
        ensures
            !sorted_snapshot_fits(m),
    {
        let ks = assoc_keys(pairs);
        lemma_map_of(pairs);
        assert(ks[i] == pairs[i].0);
        assert(m.contains_key(pairs[i].0) && m[pairs[i].0] == pairs[i].1);
        lemma_sorted_row_prefix(pairs[i].0, iv, j);
        lemma_sorted_row_prefix(pairs[i].0, iv, j + 1);
        lemma_sorted_enum_prefix(m, ks, i);
        lemma_sorted_enum_prefix(m, ks, i + 1);
        assert(sorted_row_size(pairs[i].0, iv.subrange(0, j + 1)) == sorted_row_size(
            pairs[i].0,
            iv.subrange(0, j),
        ) + 13 + spec_encode_sorted_entry(pairs[i].0, iv[j].0, iv[j].1).len());
        assert(sorted_enum_size(m, ks.subrange(0, i + 1)) == sorted_enum_size(
            m,
            ks.subrange(0, i),
        ) + sorted_row_size(ks[i], m[ks[i]]));
        assert(sorted_enum_size(m, ks) > u32::MAX);
        assert(ks.to_set() =~= m.dom()) by {
            assert forall|q: Seq<u8>| ks.to_set().contains(q) == m.dom().contains(q) by {
                if ks.to_set().contains(q) {
                    let x = choose|x: int| 0 <= x < ks.len() && ks[x] == q;
                    assert(assoc_keys(pairs).contains(q));
                } else if m.dom().contains(q) {
                    assert(assoc_keys(pairs).contains(q));
                    let x = choose|x: int| 0 <= x < ks.len() && assoc_keys(pairs)[x] == q;
                    assert(ks[x] == q);
                    assert(ks.contains(q));
                }
            }
        }
        if sorted_snapshot_fits(m) {
            assert(sorted_enum_size(m, ks) <= u32::MAX);
        }
    }

    /// Rebuilds a store from an existing log: recovers the snapshot by a
    /// forward scan and replays every inner entry through a fresh log. Keys
    /// whose recovered inner maps are empty are not replayed.
    #[verifier::rlimit(100)]
    pub fn recover_from_log(bytes: &[u8]) -> (r: Result<Self, StoreError>)
        ensures
            match r {
                Ok(s) => {
                    &&& s.wf()
                    &&& replay_sorted(bytes@) is Some
                    &&& s@ == live_inners(replay_sorted(bytes@).unwrap())
                    &&& crate::wal::all_sorted_puts(s.log(), 0)
                },
                Err(e) => (e == StoreError::CorruptLog && replay_sorted(bytes@) is None) || (e
                    == StoreError::LogFull && replay_sorted(bytes@) is Some
                    && !sorted_snapshot_fits(replay_sorted(bytes@).unwrap())),
            },
            replay_sorted(bytes@) is Some && sorted_snapshot_fits(replay_sorted(bytes@).unwrap())
                ==> r is Ok,
    {
        let snap = match read_for_map(bytes) {
            Ok(m) => m,
            Err(_) => {
                return Err(StoreError::CorruptLog);
            },
        };
        let total = snap.len();
        let mut s = Self::new_vec_based();
        let mut i: usize = 0;
        proof {
            assert(snap.pairs().subrange(0, 0) =~= Seq::<
                (Seq<u8>, Seq<(Seq<KeyModel>, Seq<u8>)>),
            >::empty());
            assert(s@ =~= live_inners(map_of(snap.pairs().subrange(0, 0))));
        }
        proof {
            assert(assoc_keys(snap.pairs()).subrange(0, 0) =~= Seq::<Seq<u8>>::empty());
        }
        while i < total
            invariant
                i <= snap.pairs().len(),
                total == snap.pairs().len(),
                snap@ == map_of(snap.pairs()),
                assoc_keys(snap.pairs()).no_duplicates(),
                replay_sorted(bytes@) == Some(snap@),
                s.wf(),
                s@ == live_inners(map_of(snap.pairs().subrange(0, i as int))),
                s.log().len() == sorted_enum_size(
                    snap@,
                    assoc_keys(snap.pairs()).subrange(0, i as int),
                ),
                crate::wal::all_sorted_puts(s.log(), 0),
            decreases total - i,
        {
            let k = snap.key_at(i);
            let inner = snap.value_at(i);
            let entry_count = inner.len();
            let ghost iv = inner@;
            let ghost base = s@;
            let mut j: usize = 0;
            proof {
                assert forall|x: int|
                    0 <= x < i implies #[trigger] snap.pairs()[x].0 != snap.pairs()[i as int].0 by {
                    assert(assoc_keys(snap.pairs())[x] == snap.pairs()[x].0);
                    assert(assoc_keys(snap.pairs())[i as int] == snap.pairs()[i as int].0);
                }
                assert(!map_of(snap.pairs().subrange(0, i as int)).contains_key(
                    snap.pairs()[i as int].0,
                )) by {
                    let prefix = snap.pairs().subrange(0, i as int);
                    assert(assoc_keys(prefix).no_duplicates()) by {
                        assert forall|a: int, b: int|
                            0 <= a < b < prefix.len() implies #[trigger] assoc_keys(prefix)[a]
                            != #[trigger] assoc_keys(prefix)[b] by {
                            assert(assoc_keys(prefix)[a] == snap.pairs()[a].0);
                            assert(assoc_keys(prefix)[b] == snap.pairs()[b].0);
                            assert(assoc_keys(snap.pairs())[a] == snap.pairs()[a].0);
                            assert(assoc_keys(snap.pairs())[b] == snap.pairs()[b].0);
                        }
                    }
                    lemma_map_of(prefix);
                    if map_of(prefix).contains_key(snap.pairs()[i as int].0) {
                        let x = choose|x: int|
                            0 <= x < prefix.len() && assoc_keys(prefix)[x] == snap.pairs()[
                                i as int].0;
                        assert(prefix[x].0 == snap.pairs()[x].0);
                    }
                }
                assert(!base.contains_key(snap.pairs()[i as int].0));
            }
            proof {
                assert(iv.subrange(0, 0) =~= Seq::<(Seq<KeyModel>, Seq<u8>)>::empty());
            }
            while j < entry_count
                invariant
                    i < snap.pairs().len(),
                    total == snap.pairs().len(),
                    snap@ == map_of(snap.pairs()),
                    assoc_keys(snap.pairs()).no_duplicates(),
                    replay_sorted(bytes@) == Some(snap@),
                    j <= iv.len(),
                    entry_count == iv.len(),
                    inner@ == iv,
                    entries_sorted(iv),
                    s.wf(),
                    !base.contains_key(snap.pairs()[i as int].0),
                    k@ == snap.pairs()[i as int].0,
                    iv == snap.pairs()[i as int].1,
                    s@ == if j == 0 {
                        base
                    } else {
                        base.insert(k@, iv.subrange(0, j as int))
                    },
                    s.log().len() == sorted_enum_size(
                        snap@,
                        assoc_keys(snap.pairs()).subrange(0, i as int),
                    ) + sorted_row_size(k@, iv.subrange(0, j as int)),
                    crate::wal::all_sorted_puts(s.log(), 0),
                decreases entry_count - j,
            {
                let sk = inner.entry_key_at(j).clone();
                let v = clone_bytes(inner.entry_value_at(j));
                let kk = clone_bytes(k);
                let klen = kk.len() as u64;
                let vlen = v.len() as u64;
                proof {
                    lemma_auto_spec_u32_to_from_le_bytes();
                    lemma_auto_spec_u64_to_from_le_bytes();
                    assert(spec_encode_sorted_entry(k@, iv[j as int].0, iv[j as int].1).len() == 16
                        + k@.len() + spec_encode_keys(iv[j as int].0).len() + iv[j as int].1.len());
                }
                if klen > (u32::MAX as u64) || vlen > (u32::MAX as u64) {
                    proof {
                        Self::lemma_recover_overflow(snap@, snap.pairs(), iv, i as int, j as int);
                    }
                    return Err(StoreError::LogFull);
                }
                let data = crate::key_codec::encode_sorted_entry(&kk, &sk, &v);
                let dlen = data.len() as u64;
                let loglen = s.wal.log_bytes().len() as u64;
                if dlen > (u32::MAX as u64) - 13 || loglen > (u32::MAX as u64) - 13 - dlen {
                    proof {
                        Self::lemma_recover_overflow(snap@, snap.pairs(), iv, i as int, j as int);
                    }
                    return Err(StoreError::LogFull);
                }
                proof {
                    lemma_sorted_entry_round_trip(k@, iv[j as int].0, iv[j as int].1);
                    crate::wal::lemma_sorted_compacted_append(
                        s.log(),
                        0,
                        spec_encode_sorted_entry(k@, iv[j as int].0, iv[j as int].1),
                    );
                }
                s.put(kk, sk, v);
                proof {
                    crate::containers::lemma_sorted_insert_prefix(iv, j as int);
                    if j == 0 {
                        assert(inner_arg(base, k@) =~= Seq::<(Seq<KeyModel>, Seq<u8>)>::empty());
                        assert(iv.subrange(0, 0) =~= Seq::<(Seq<KeyModel>, Seq<u8>)>::empty());
                    }
                    assert(s@ =~= base.insert(k@, iv.subrange(0, j as int + 1)));
                    lemma_sorted_row_prefix(k@, iv, j as int);
                }
                j += 1;
            }
            proof {
                assert(iv.subrange(0, iv.len() as int) =~= iv);
                lemma_map_of(snap.pairs());
                assert(assoc_keys(snap.pairs())[i as int] == snap.pairs()[i as int].0);
                assert(snap@.contains_key(k@) && snap@[k@] == iv);
                lemma_sorted_enum_prefix(snap@, assoc_keys(snap.pairs()), i as int);
                assert(sorted_enum_size(snap@, assoc_keys(snap.pairs()).subrange(0, i as int + 1))
                    == sorted_enum_size(snap@, assoc_keys(snap.pairs()).subrange(0, i as int))
                    + sorted_row_size(k@, iv));
                let prefix = snap.pairs().subrange(0, i as int);
                let prefix1 = snap.pairs().subrange(0, i as int + 1);
                assert(prefix1.drop_last() =~= prefix);
                assert(prefix1.last() == snap.pairs()[i as int]);
                assert(map_of(prefix1) == map_of(prefix).insert(
                    snap.pairs()[i as int].0,
                    snap.pairs()[i as int].1,
                ));
                if entry_count == 0 {
                    assert(s@ =~= live_inners(map_of(prefix1)));
                } else {
                    assert(s@ =~= live_inners(map_of(prefix1)));
                }
            }
            i += 1;
        }
        proof {
            assert(snap.pairs().subrange(0, snap.pairs().len() as int) =~= snap.pairs());
        }
        Ok(s)
    }
}

/// Appending elements to one key through the counter rule yields the
/// counter keys 0, 1, 2, ... in order: after `k` appends on an initially
/// absent key, the inner map binds exactly the single-component
/// platform-unsigned keys 0 through `k - 1`, in insertion order, to the
/// appended elements.
pub open spec fn ordered_appends(elems: Seq<Seq<u8>>) -> Seq<(Seq<KeyModel>, Seq<u8>)>
    decreases elems.len(),
{
    if elems.len() == 0 {
        Seq::empty()
    } else {
        let prev = ordered_appends(elems.drop_last());
        sorted_insert(
            prev,
            seq![KeyModel::USIZE(next_ordered_index(prev) as usize)],
            elems.last(),
        )
    }
}

/// The counter law: `k` ordered appends on an empty inner map produce the
/// keys 0 through `k - 1` as single platform-unsigned components.
pub proof fn lemma_ordered_appends(elems: Seq<Seq<u8>>)
    requires
        elems.len() <= usize::MAX,
    ensures
        ordered_appends(elems).len() == elems.len(),
        forall|i: int|
            0 <= i < elems.len() ==> #[trigger] ordered_appends(elems)[i] == (
            seq![KeyModel::USIZE(i as usize)],
            elems[i],
            ),
    decreases elems.len(),
{
    if elems.len() > 0 {
        let prev = ordered_appends(elems.drop_last());
        lemma_ordered_appends(elems.drop_last());
        let n = elems.len() as int;
        let next = next_ordered_index(prev);
        if n == 1 {
            assert(next == 0);
        } else {
            assert(prev[n - 2] == (seq![KeyModel::USIZE((n - 2) as usize)], elems.drop_last()[n
                - 2]));
            assert(prev.last().0 == seq![KeyModel::USIZE((n - 2) as usize)]);
            assert(next == n - 1);
        }
        assert forall|a: int| 0 <= a < prev.len() implies crate::keys::search_key_lt(
            #[trigger] prev[a].0,
            seq![KeyModel::USIZE((n - 1) as usize)],
        ) by {
            assert(prev[a].0 == seq![KeyModel::USIZE(a as usize)]);
            assert(crate::keys::key_lt(
                KeyModel::USIZE(a as usize),
                KeyModel::USIZE((n - 1) as usize),
            ));
        }
        assert(entries_sorted(prev)) by {
            assert forall|a: int, b: int|
                0 <= a < b < prev.len() implies crate::keys::search_key_lt(
                #[trigger] prev[a].0,
                #[trigger] prev[b].0,
            ) by {
                assert(prev[a].0 == seq![KeyModel::USIZE(a as usize)]);
                assert(prev[b].0 == seq![KeyModel::USIZE(b as usize)]);
                assert(crate::keys::key_lt(
                    KeyModel::USIZE(a as usize),
                    KeyModel::USIZE(b as usize),
                ));
            }
        }
        lemma_sorted_at(
            prev,
            seq![KeyModel::USIZE((n - 1) as usize)],
            elems.last(),
            prev.len() as int,
        );
        assert(ordered_appends(elems) =~= prev + seq![
            (seq![KeyModel::USIZE((n - 1) as usize)], elems.last()),
        ]);
    }
}

/// Filtering a sorted entry sequence keeps it sorted; every kept entry
/// comes from the unfiltered sequence, at or after its own position.
pub proof fn lemma_filter_sorted(
    s: Seq<(Seq<KeyModel>, Seq<u8>)>,
    pred: spec_fn((Seq<KeyModel>, Seq<u8>)) -> bool,
)
    requires
        entries_sorted(s),
    ensures
        entries_sorted(s.filter(pred)),
        forall|a: int|
            0 <= a < s.filter(pred).len() ==> exists|j: int|
                0 <= j < s.len() && #[trigger] s.filter(pred)[a] == s[j] && j >= a,
    decreases s.len(),
{
    reveal(Seq::filter);
    if s.len() == 0 {
    } else {
        let d = s.drop_last();
        assert(entries_sorted(d)) by {
            assert forall|a: int, b: int|
                0 <= a < b < d.len() implies crate::keys::search_key_lt(
                #[trigger] d[a].0,
                #[trigger] d[b].0,
            ) by {
                assert(d[a] == s[a]);
                assert(d[b] == s[b]);
            }
        }
        lemma_filter_sorted(d, pred);
        let fd = d.filter(pred);
        if pred(s.last()) {
            let f = fd.push(s.last());
            assert(s.filter(pred) == f);
            assert forall|a: int, b: int|
                0 <= a < b < f.len() implies crate::keys::search_key_lt(
                #[trigger] f[a].0,
                #[trigger] f[b].0,
            ) by {
                if b < f.len() - 1 {
                    assert(f[a] == fd[a]);
                    assert(f[b] == fd[b]);
                } else {
                    assert(f[a] == fd[a]);
                    let j = choose|j: int| 0 <= j < d.len() && fd[a] == d[j] && j >= a;
                    assert(d[j] == s[j]);
                    assert(crate::keys::search_key_lt(s[j].0, s[s.len() - 1].0));
                }
            }
            assert forall|a: int| 0 <= a < f.len() implies exists|j: int|
                0 <= j < s.len() && #[trigger] f[a] == s[j] && j >= a by {
                if a < f.len() - 1 {
                    let j = choose|j: int| 0 <= j < d.len() && fd[a] == d[j] && j >= a;
                    assert(f[a] == s[j]);
                } else {
                    assert(f[a] == s[s.len() - 1]);
                }
            }
        } else {
            assert forall|a: int| 0 <= a < fd.len() implies exists|j: int|
                0 <= j < s.len() && #[trigger] fd[a] == s[j] && j >= a by {
                let j = choose|j: int| 0 <= j < d.len() && fd[a] == d[j] && j >= a;
                assert(fd[a] == s[j]);
            }
        }
    }
}

/// The range law: the entries a range query returns are exactly those
/// whose search keys lie within the bounds, in ascending key order.
pub proof fn lemma_range_entries_sorted(
    inner: Seq<(Seq<KeyModel>, Seq<u8>)>,
    lo: crate::containers::KeyBoundModel,
    hi: crate::containers::KeyBoundModel,
    f: Seq<(Seq<KeyModel>, Seq<u8>)>,
)
    requires
        entries_sorted(inner),
        f == inner.filter(|e: (Seq<KeyModel>, Seq<u8>)| in_range(lo, hi, e.0)),
    ensures
        entries_sorted(f),
        forall|a: int| 0 <= a < f.len() ==> in_range(lo, hi, #[trigger] f[a].0),
        forall|j: int|
            0 <= j < inner.len() && in_range(lo, hi, #[trigger] inner[j].0) ==> f.contains(
                inner[j],
            ),
{
    let pred = |e: (Seq<KeyModel>, Seq<u8>)| in_range(lo, hi, e.0);
    lemma_filter_sorted(inner, pred);
    inner.filter_lemma(pred);
    assert forall|a: int| 0 <= a < f.len() implies in_range(lo, hi, #[trigger] f[a].0) by {
        assert(pred(f[a]));
    }
}

} // verus!
