//! In-memory containers: an unordered set of byte strings, a sorted map
//! keyed by search keys, and an association map from byte-string keys to
//! values, used both for the collection engines and for recovery snapshots.

use vstd::prelude::*;

verus! {

use crate::keys::KeyModel;
use crate::keys::SearchKey;
use crate::keys::search_key_lt;
use crate::keys::search_key_cmp;
use crate::keys::lemma_search_key_lt_trichotomy;
use crate::keys::lemma_search_key_lt_trans;
use crate::keys::u8s_cmp;
use crate::keys::clone_bytes;

/// An unordered set of byte strings, stored without duplicates.
#[derive(Debug)]
pub struct ByteSet {
    items: Vec<Vec<u8>>,
}

impl View for ByteSet {
    type V = Set<Seq<u8>>;

    closed spec fn view(&self) -> Set<Seq<u8>> {
        self.elems().to_set()
    }
}

impl ByteSet {
    /// The stored elements, in storage order.
    pub closed spec fn elems(&self) -> Seq<Seq<u8>> {
        Seq::new(self.items@.len(), |i: int| self.items@[i]@)
    }

    #[verifier::type_invariant]
    spec fn inv(&self) -> bool {
        self.elems().no_duplicates()
    }

    /// The set is exactly the stored elements, which hold no duplicates.
    proof fn lemma_model(&self)
        requires
            self.elems().no_duplicates(),
        ensures
            self@ == self.elems().to_set(),
            self@.finite(),
            self@.len() == self.elems().len(),
    {
        broadcast use vstd::seq_lib::seq_to_set_is_finite;

        self.elems().unique_seq_to_set();
    }

    pub fn new() -> (r: Self)
        ensures
            r@ == Set::<Seq<u8>>::empty(),
            r.elems() == Seq::<Seq<u8>>::empty(),
    {
        let r = ByteSet { items: Vec::new() };
        proof {
            assert(r.elems() =~= Seq::<Seq<u8>>::empty());
            assert(r.elems().to_set() =~= Set::<Seq<u8>>::empty());
        }
        r
    }

    /// How many elements the set holds.
    pub fn len(&self) -> (r: usize)
        ensures
            r == self.elems().len(),
            r == self@.len(),
            self@ == self.elems().to_set(),
            self.elems().no_duplicates(),
    {
        proof {
            use_type_invariant(self);
            self.lemma_model();
        }
        self.items.len()
    }

    pub fn is_empty(&self) -> (r: bool)
        ensures
            r == (self@ =~= Set::<Seq<u8>>::empty()),
    {
        proof {
            use_type_invariant(self);
            self.lemma_model();
            if self.elems().len() > 0 {
                assert(self@.contains(self.elems()[0]));
            } else {
                assert(self@ =~= Set::<Seq<u8>>::empty());
            }
        }
        self.items.len() == 0
    }

    /// The element at a storage position.
    pub fn elem_at(&self, i: usize) -> (r: &Vec<u8>)
        requires
            i < self.elems().len(),
        ensures
            r@ == self.elems()[i as int],
            self@.contains(r@),
    {
        proof {
            use_type_invariant(self);
            self.lemma_model();
            assert(self.elems().contains(self.elems()[i as int]));
        }
        &self.items[i]
    }

    /// Position of an element, if present.
    fn find(&self, e: &[u8]) -> (r: Option<usize>)
        ensures
            match r {
                Some(i) => i < self.elems().len() && self.elems()[i as int] == e@,
                None => !self@.contains(e@),
            },
    {
        let mut i: usize = 0;
        while i < self.items.len()
            invariant
                i <= self.items@.len(),
                forall|j: int| 0 <= j < i ==> self.elems()[j] != e@,
            decreases self.items@.len() - i,
        {
            if u8s_cmp(self.items[i].as_slice(), e) == 0 {
                return Some(i);
            }
            i += 1;
        }
        proof {
            use_type_invariant(self);
            self.lemma_model();
            assert(!self.elems().contains(e@));
        }
        None
    }

    pub fn contains(&self, e: &[u8]) -> (r: bool)
        ensures
            r == self@.contains(e@),
    {
        proof {
            use_type_invariant(self);
            self.lemma_model();
        }
        match self.find(e) {
            Some(i) => {
                proof {
                    assert(self.elems().contains(e@));
                }
                true
            },
            None => false,
        }
    }

    /// Adds an element; the set absorbs a duplicate.
    pub fn insert_elem(&mut self, e: Vec<u8>)
        ensures
            final(self)@ == old(self)@.insert(e@),
            final(self).elems() == if old(self)@.contains(e@) {
                old(self).elems()
            } else {
                old(self).elems().push(e@)
            },
    {
        proof {
            use_type_invariant(&*self);
            self.lemma_model();
        }
        match self.find(e.as_slice()) {
            Some(_) => {
                proof {
                    assert(old(self)@.contains(e@));
                    assert(old(self)@.insert(e@) =~= old(self)@);
                }
            },
            None => {
                let mut items: Vec<Vec<u8>> = Vec::new();
                core::mem::swap(&mut items, &mut self.items);
                items.push(e);
                proof {
                    let new_elems = Seq::new(items@.len(), |i: int| items@[i]@);
                    assert(new_elems =~= old(self).elems().push(e@));
                    assert(new_elems.no_duplicates());
                }
                self.items = items;
                proof {
                    assert(self.elems() =~= old(self).elems().push(e@));
                    let old_elems = old(self).elems();
                    let new_elems = self.elems();
                    assert forall|x: Seq<u8>|
                        new_elems.to_set().contains(x) == old_elems.to_set().insert(e@).contains(
                            x,
                        ) by {
                        if new_elems.to_set().contains(x) {
                            let i = choose|i: int| 0 <= i < new_elems.len() && new_elems[i] == x;
                            if i < old_elems.len() {
                                assert(old_elems[i] == x);
                                assert(old_elems.contains(x));
                            } else {
                                assert(x == e@);
                            }
                        } else if old_elems.to_set().insert(e@).contains(x) {
                            if x == e@ {
                                assert(new_elems[new_elems.len() - 1] == x);
                            } else {
                                let i = choose|i: int|
                                    0 <= i < old_elems.len() && old_elems[i] == x;
                                assert(new_elems[i] == x);
                            }
                            assert(new_elems.contains(x));
                        }
                    }
                    assert(self.elems().to_set() =~= old(self).elems().to_set().insert(e@));
                }
            },
        }
    }

    /// Removes an element if present.
    pub fn remove_elem(&mut self, e: &[u8])
        ensures
            final(self)@ == old(self)@.remove(e@),
    {
        proof {
            use_type_invariant(&*self);
            self.lemma_model();
        }
        match self.find(e) {
            Some(idx) => {
                let mut items: Vec<Vec<u8>> = Vec::new();
                core::mem::swap(&mut items, &mut self.items);
                items.remove(idx);
                proof {
                    let old_elems = old(self).elems();
                    let new_elems = Seq::new(items@.len(), |i: int| items@[i]@);
                    assert(new_elems =~= old_elems.remove(idx as int));
                    assert forall|i: int, j: int|
                        0 <= i < j < new_elems.len() implies new_elems[i] != new_elems[j] by {
                        let oi = if i < idx { i } else { i + 1 };
                        let oj = if j < idx { j } else { j + 1 };
                        assert(new_elems[i] == old_elems[oi]);
                        assert(new_elems[j] == old_elems[oj]);
                    }
                    assert(new_elems.no_duplicates());
                }
                self.items = items;
                proof {
                    let old_elems = old(self).elems();
                    let new_elems = self.elems();
                    assert forall|x: Seq<u8>|
                        new_elems.to_set().contains(x) == old_elems.to_set().remove(e@).contains(
                            x,
                        ) by {
                        if new_elems.to_set().contains(x) {
                            let i = choose|i: int|
                                0 <= i < new_elems.len() && new_elems[i] == x;
                            let oi = if i < idx { i } else { i + 1 };
                            assert(old_elems[oi] == x);
                            assert(old_elems.contains(x));
                            assert(oi != idx);
                            assert(x != e@);
                        } else if old_elems.to_set().remove(e@).contains(x) {
                            let i = choose|i: int|
                                0 <= i < old_elems.len() && old_elems[i] == x;
                            assert(i != idx);
                            let ni = if i < idx { i } else { i - 1 };
                            assert(new_elems[ni] == x);
                            assert(new_elems.contains(x));
                        }
                    }
                    assert(self.elems().to_set() =~= old(self).elems().to_set().remove(e@));
                }
            },
            None => {
                proof {
                    assert(old(self)@.remove(e@) =~= old(self)@);
                }
            },
        }
    }
}

impl Clone for ByteSet {
    fn clone(&self) -> (r: Self)
        ensures
            r@ == self@,
            r.elems() == self.elems(),
    {
        proof {
            use_type_invariant(self);
        }
        let mut items: Vec<Vec<u8>> = Vec::new();
        let mut i: usize = 0;
        while i < self.items.len()
            invariant
                i <= self.items@.len(),
                items@.len() == i,
                forall|j: int| 0 <= j < i ==> items@[j]@ == self.elems()[j],
            decreases self.items@.len() - i,
        {
            items.push(clone_bytes(&self.items[i]));
            i += 1;
        }
        proof {
            let new_elems = Seq::new(items@.len(), |q: int| items@[q]@);
            assert(new_elems =~= self.elems());
        }
        let r = ByteSet { items };
        proof {
            assert(r.elems() =~= self.elems());
        }
        r
    }
}

/// Pairwise strict order: every earlier key sorts before every later one.
pub open spec fn entries_sorted(s: Seq<(Seq<KeyModel>, Seq<u8>)>) -> bool {
    forall|i: int, j: int|
        0 <= i < j < s.len() ==> search_key_lt(#[trigger] s[i].0, #[trigger] s[j].0)
}

/// The value stored under `k`, if any.
pub open spec fn sorted_lookup(s: Seq<(Seq<KeyModel>, Seq<u8>)>, k: Seq<KeyModel>) -> Option<
    Seq<u8>,
>
    decreases s.len(),
{
    if s.len() == 0 {
        None
    } else if s[0].0 == k {
        Some(s[0].1)
    } else {
        sorted_lookup(s.drop_first(), k)
    }
}

/// Insertion into a sorted entry sequence, overwriting an equal key.
pub open spec fn sorted_insert(
    s: Seq<(Seq<KeyModel>, Seq<u8>)>,
    k: Seq<KeyModel>,
    v: Seq<u8>,
) -> Seq<(Seq<KeyModel>, Seq<u8>)>
    decreases s.len(),
{
    if s.len() == 0 {
        seq![(k, v)]
    } else if search_key_lt(k, s[0].0) {
        seq![(k, v)] + s
    } else if k == s[0].0 {
        seq![(k, v)] + s.drop_first()
    } else {
        seq![s[0]] + sorted_insert(s.drop_first(), k, v)
    }
}

/// Removal of `k` from an entry sequence, if present.
pub open spec fn sorted_remove(s: Seq<(Seq<KeyModel>, Seq<u8>)>, k: Seq<KeyModel>) -> Seq<
    (Seq<KeyModel>, Seq<u8>),
>
    decreases s.len(),
{
    if s.len() == 0 {
        s
    } else if s[0].0 == k {
        s.drop_first()
    } else {
        seq![s[0]] + sorted_remove(s.drop_first(), k)
    }
}

proof fn lemma_sorted_drop_first(s: Seq<(Seq<KeyModel>, Seq<u8>)>)
    requires
        entries_sorted(s),
        s.len() > 0,
    ensures
        entries_sorted(s.drop_first()),
{
    let t = s.drop_first();
    assert forall|i: int, j: int| 0 <= i < j < t.len() implies search_key_lt(
        #[trigger] t[i].0,
        #[trigger] t[j].0,
    ) by {
        assert(t[i] == s[i + 1]);
        assert(t[j] == s[j + 1]);
    }
}

proof fn lemma_sorted_lookup_absent(s: Seq<(Seq<KeyModel>, Seq<u8>)>, k: Seq<KeyModel>)
    requires
        entries_sorted(s),
        s.len() > 0 ==> search_key_lt(k, s[0].0),
    ensures
        sorted_lookup(s, k) is None,
    decreases s.len(),
{
    if s.len() > 0 {
        lemma_search_key_lt_trichotomy(k, s[0].0);
        lemma_sorted_drop_first(s);
        if s.len() > 1 {
            lemma_search_key_lt_trans(k, s[0].0, s[1].0);
            assert(s.drop_first()[0] == s[1]);
        }
        lemma_sorted_lookup_absent(s.drop_first(), k);
    }
}

proof fn lemma_sorted_remove_absent(s: Seq<(Seq<KeyModel>, Seq<u8>)>, k: Seq<KeyModel>)
    requires
        entries_sorted(s),
        s.len() > 0 ==> search_key_lt(k, s[0].0),
    ensures
        sorted_remove(s, k) == s,
    decreases s.len(),
{
    if s.len() > 0 {
        lemma_search_key_lt_trichotomy(k, s[0].0);
        lemma_sorted_drop_first(s);
        if s.len() > 1 {
            lemma_search_key_lt_trans(k, s[0].0, s[1].0);
            assert(s.drop_first()[0] == s[1]);
        }
        lemma_sorted_remove_absent(s.drop_first(), k);
        assert(seq![s[0]] + s.drop_first() =~= s);
    }
}

/// The position of the first key not below `k` determines lookup, insertion
/// and removal.
pub proof fn lemma_sorted_at(
    s: Seq<(Seq<KeyModel>, Seq<u8>)>,
    k: Seq<KeyModel>,
    v: Seq<u8>,
    idx: int,
)
    requires
        entries_sorted(s),
        0 <= idx <= s.len(),
        forall|i: int| 0 <= i < idx ==> search_key_lt(#[trigger] s[i].0, k),
        idx < s.len() ==> !search_key_lt(s[idx].0, k),
    ensures
        sorted_lookup(s, k) == if idx < s.len() && s[idx].0 == k {
            Some(s[idx].1)
        } else {
            Option::<Seq<u8>>::None
        },
        sorted_insert(s, k, v) == if idx < s.len() && s[idx].0 == k {
            s.subrange(0, idx) + seq![(k, v)] + s.subrange(idx + 1, s.len() as int)
        } else {
            s.subrange(0, idx) + seq![(k, v)] + s.subrange(idx, s.len() as int)
        },
        sorted_remove(s, k) == if idx < s.len() && s[idx].0 == k {
            s.subrange(0, idx) + s.subrange(idx + 1, s.len() as int)
        } else {
            s
        },
    decreases idx,
{
    if idx == 0 {
        if s.len() == 0 {
            assert(sorted_insert(s, k, v) =~= s.subrange(0, 0) + seq![(k, v)] + s.subrange(
                0,
                s.len() as int,
            ));
        } else {
            lemma_search_key_lt_trichotomy(k, s[0].0);
            if s[0].0 == k {
                assert(sorted_insert(s, k, v) =~= s.subrange(0, 0) + seq![(k, v)] + s.subrange(
                    1,
                    s.len() as int,
                ));
                assert(sorted_remove(s, k) =~= s.subrange(0, 0) + s.subrange(1, s.len() as int));
            } else {
                assert(search_key_lt(k, s[0].0));
                lemma_sorted_lookup_absent(s, k);
                lemma_sorted_remove_absent(s, k);
                assert(sorted_insert(s, k, v) =~= s.subrange(0, 0) + seq![(k, v)] + s.subrange(
                    0,
                    s.len() as int,
                ));
                assert(sorted_remove(s, k) =~= s);
            }
        }
    } else {
        let t = s.drop_first();
        lemma_sorted_drop_first(s);
        lemma_search_key_lt_trichotomy(k, s[0].0);
        assert(search_key_lt(s[0].0, k));
        assert forall|i: int| 0 <= i < idx - 1 implies search_key_lt(#[trigger] t[i].0, k) by {
            assert(t[i] == s[i + 1]);
        }
        if idx - 1 < t.len() {
            assert(t[idx - 1] == s[idx]);
        }
        lemma_sorted_at(t, k, v, idx - 1);
        if idx < s.len() && s[idx].0 == k {
            assert(seq![s[0]] + (t.subrange(0, idx - 1) + seq![(k, v)] + t.subrange(
                idx,
                t.len() as int,
            )) =~= s.subrange(0, idx) + seq![(k, v)] + s.subrange(idx + 1, s.len() as int));
            assert(seq![s[0]] + (t.subrange(0, idx - 1) + t.subrange(idx, t.len() as int))
                =~= s.subrange(0, idx) + s.subrange(idx + 1, s.len() as int));
        } else {
            assert(seq![s[0]] + (t.subrange(0, idx - 1) + seq![(k, v)] + t.subrange(
                idx - 1,
                t.len() as int,
            )) =~= s.subrange(0, idx) + seq![(k, v)] + s.subrange(idx, s.len() as int));
            assert(seq![s[0]] + sorted_remove(t, k) =~= s);
        }
    }
}

/// Inserting a sorted sequence's entry at `j` into its own length-`j`
/// prefix extends the prefix by exactly that entry.
pub proof fn lemma_sorted_insert_prefix(iv: Seq<(Seq<KeyModel>, Seq<u8>)>, j: int)
    requires
        entries_sorted(iv),
        0 <= j < iv.len(),
    ensures
        sorted_insert(iv.subrange(0, j), iv[j].0, iv[j].1) == iv.subrange(0, j + 1),
{
    let prefix = iv.subrange(0, j);
    assert(entries_sorted(prefix)) by {
        assert forall|a: int, b: int| 0 <= a < b < prefix.len() implies search_key_lt(
            #[trigger] prefix[a].0,
            #[trigger] prefix[b].0,
        ) by {
            assert(prefix[a] == iv[a]);
            assert(prefix[b] == iv[b]);
        }
    }
    assert forall|a: int| 0 <= a < j implies search_key_lt(
        #[trigger] prefix[a].0,
        iv[j].0,
    ) by {
        assert(prefix[a] == iv[a]);
    }
    lemma_sorted_at(prefix, iv[j].0, iv[j].1, j);
    assert(sorted_insert(prefix, iv[j].0, iv[j].1) =~= iv.subrange(0, j + 1));
}

/// Removing the greatest key of a sorted entry sequence drops its last
/// entry.
pub proof fn lemma_sorted_remove_last(s: Seq<(Seq<KeyModel>, Seq<u8>)>)
    requires
        entries_sorted(s),
        s.len() > 0,
    ensures
        sorted_remove(s, s[s.len() - 1].0) == s.drop_last(),
    decreases s.len(),
{
    let k = s[s.len() - 1].0;
    if s.len() == 1 {
        assert(sorted_remove(s, k) =~= s.drop_last());
    } else {
        lemma_search_key_lt_trichotomy(s[0].0, k);
        assert(search_key_lt(s[0].0, k));
        lemma_sorted_drop_first(s);
        let t = s.drop_first();
        assert(t[t.len() - 1] == s[s.len() - 1]);
        lemma_sorted_remove_last(t);
        assert(seq![s[0]] + t.drop_last() =~= s.drop_last());
    }
}

/// A lower or upper bound on search keys.
#[derive(Debug)]
pub enum KeyBound {
    Included(SearchKey),
    Excluded(SearchKey),
    Unbounded,
}

/// The model of a bound.
pub enum KeyBoundModel {
    Included(Seq<KeyModel>),
    Excluded(Seq<KeyModel>),
    Unbounded,
}

impl View for KeyBound {
    type V = KeyBoundModel;

    open spec fn view(&self) -> KeyBoundModel {
        match self {
            KeyBound::Included(x) => KeyBoundModel::Included(x@),
            KeyBound::Excluded(x) => KeyBoundModel::Excluded(x@),
            KeyBound::Unbounded => KeyBoundModel::Unbounded,
        }
    }
}

/// Whether `k` lies at or above the lower bound.
pub open spec fn lo_admits(b: KeyBoundModel, k: Seq<KeyModel>) -> bool {
    match b {
        KeyBoundModel::Included(x) => !search_key_lt(k, x),
        KeyBoundModel::Excluded(x) => search_key_lt(x, k),
        KeyBoundModel::Unbounded => true,
    }
}

/// Whether `k` lies at or below the upper bound.
pub open spec fn hi_admits(b: KeyBoundModel, k: Seq<KeyModel>) -> bool {
    match b {
        KeyBoundModel::Included(x) => !search_key_lt(x, k),
        KeyBoundModel::Excluded(x) => search_key_lt(k, x),
        KeyBoundModel::Unbounded => true,
    }
}

/// Whether `k` lies within both bounds.
pub open spec fn in_range(lo: KeyBoundModel, hi: KeyBoundModel, k: Seq<KeyModel>) -> bool {
    lo_admits(lo, k) && hi_admits(hi, k)
}

/// Decides `in_range` for one key.
pub fn in_range_exec(lo: &KeyBound, hi: &KeyBound, k: &SearchKey) -> (r: bool)
    ensures
        r == in_range(lo@, hi@, k@),
{
    let lo_ok = match lo {
        KeyBound::Included(x) => {
            proof {
                lemma_search_key_lt_trichotomy(k@, x@);
            }
            search_key_cmp(k, x) != -1
        },
        KeyBound::Excluded(x) => search_key_cmp(x, k) == -1,
        KeyBound::Unbounded => true,
    };
    let hi_ok = match hi {
        KeyBound::Included(x) => {
            proof {
                lemma_search_key_lt_trichotomy(x@, k@);
            }
            search_key_cmp(x, k) != -1
        },
        KeyBound::Excluded(x) => search_key_cmp(k, x) == -1,
        KeyBound::Unbounded => true,
    };
    lo_ok && hi_ok
}

/// The models of a stored entry sequence.
pub open spec fn entry_views(s: Seq<(SearchKey, Vec<u8>)>) -> Seq<(Seq<KeyModel>, Seq<u8>)> {
    Seq::new(s.len(), |i: int| (s[i].0@, s[i].1@))
}

/// An inner map from search keys to byte-string values, kept sorted by
/// `search_key_lt`.
#[derive(Debug)]
pub struct SortedEntries {
    entries: Vec<(SearchKey, Vec<u8>)>,
}

impl View for SortedEntries {
    type V = Seq<(Seq<KeyModel>, Seq<u8>)>;

    closed spec fn view(&self) -> Seq<(Seq<KeyModel>, Seq<u8>)> {
        entry_views(self.entries@)
    }
}

impl SortedEntries {
    #[verifier::type_invariant]
    spec fn inv(&self) -> bool {
        entries_sorted(self@)
    }

    pub fn new() -> (r: Self)
        ensures
            r@ == Seq::<(Seq<KeyModel>, Seq<u8>)>::empty(),
    {
        let r = SortedEntries { entries: Vec::new() };
        proof {
            assert(r@ =~= Seq::<(Seq<KeyModel>, Seq<u8>)>::empty());
        }
        r
    }

    pub fn len(&self) -> (r: usize)
        ensures
            r == self@.len(),
            entries_sorted(self@),
    {
        proof {
            use_type_invariant(self);
        }
        self.entries.len()
    }

    pub fn is_empty(&self) -> (r: bool)
        ensures
            r == (self@.len() == 0),
            entries_sorted(self@),
    {
        proof {
            use_type_invariant(self);
        }
        self.entries.len() == 0
    }

    /// Position of the first key not below `k`, and whether it equals `k`.
    fn find_pos(&self, k: &SearchKey) -> (r: (usize, bool))
        ensures
            r.0 <= self@.len(),
            forall|i: int| 0 <= i < r.0 ==> search_key_lt(#[trigger] self@[i].0, k@),
            r.0 < self@.len() ==> !search_key_lt(self@[r.0 as int].0, k@),
            r.1 == (r.0 < self@.len() && self@[r.0 as int].0 == k@),
            entries_sorted(self@),
    {
        proof {
            use_type_invariant(self);
        }
        let mut i: usize = 0;
        while i < self.entries.len()
            invariant
                i <= self.entries@.len(),
                self@.len() == self.entries@.len(),
                entries_sorted(self@),
                forall|j: int| 0 <= j < i ==> search_key_lt(#[trigger] self@[j].0, k@),
            decreases self.entries@.len() - i,
        {
            let c = search_key_cmp(&self.entries[i].0, k);
            proof {
                assert(self@[i as int].0 == self.entries@[i as int].0@);
                lemma_search_key_lt_trichotomy(self@[i as int].0, k@);
            }
            if c != -1 {
                return (i, c == 0);
            }
            i += 1;
        }
        (i, false)
    }

    /// The search key at a storage position.
    pub fn entry_key_at(&self, i: usize) -> (r: &SearchKey)
        requires
            i < self@.len(),
        ensures
            r@ == self@[i as int].0,
            entries_sorted(self@),
    {
        proof {
            use_type_invariant(self);
            assert(self@[i as int].0 == self.entries@[i as int].0@);
        }
        &self.entries[i].0
    }

    /// The value at a storage position.
    pub fn entry_value_at(&self, i: usize) -> (r: &Vec<u8>)
        requires
            i < self@.len(),
        ensures
            r@ == self@[i as int].1,
            entries_sorted(self@),
    {
        proof {
            use_type_invariant(self);
            assert(self@[i as int].1 == self.entries@[i as int].1@);
        }
        &self.entries[i].1
    }

    /// The value stored under `k`, if any.
    pub fn get(&self, k: &SearchKey) -> (r: Option<&Vec<u8>>)
        ensures
            match r {
                Some(v) => sorted_lookup(self@, k@) == Some(v@),
                None => sorted_lookup(self@, k@) is None,
            },
            entries_sorted(self@),
    {
        proof {
            use_type_invariant(self);
        }
        let (idx, found) = self.find_pos(k);
        proof {
            lemma_sorted_at(self@, k@, Seq::empty(), idx as int);
        }
        if found {
            Some(&self.entries[idx].1)
        } else {
            None
        }
    }

    /// Inserts `v` under `k`, overwriting any previous value.
    pub fn insert_entry(&mut self, k: SearchKey, v: Vec<u8>)
        ensures
            final(self)@ == sorted_insert(old(self)@, k@, v@),
            entries_sorted(final(self)@),
    {
        proof {
            use_type_invariant(&*self);
        }
        let (idx, found) = self.find_pos(&k);
        proof {
            lemma_sorted_at(old(self)@, k@, v@, idx as int);
        }
        let ghost old_view = self@;
        let mut entries: Vec<(SearchKey, Vec<u8>)> = Vec::new();
        core::mem::swap(&mut entries, &mut self.entries);
        if found {
            entries.remove(idx);
        }
        entries.insert(idx, (k, v));
        proof {
            let new_view = entry_views(entries@);
            if idx < old_view.len() && old_view[idx as int].0 == k@ {
                assert(new_view =~= old_view.subrange(0, idx as int) + seq![(k@, v@)]
                    + old_view.subrange(idx as int + 1, old_view.len() as int));
            } else {
                assert(new_view =~= old_view.subrange(0, idx as int) + seq![(k@, v@)]
                    + old_view.subrange(idx as int, old_view.len() as int));
            }
            assert(new_view == sorted_insert(old_view, k@, v@));
            let shift: int = if found {
                1
            } else {
                0
            };
            if idx < old_view.len() && !found {
                lemma_search_key_lt_trichotomy(k@, old_view[idx as int].0);
                assert(search_key_lt(k@, old_view[idx as int].0));
            }
            assert forall|j: int| idx < j < new_view.len() implies search_key_lt(
                k@,
                #[trigger] new_view[j].0,
            ) by {
                let o = j - 1 + shift;
                assert(new_view[j] == old_view[o]);
                if found {
                    assert(old_view[idx as int].0 == k@);
                    assert(search_key_lt(old_view[idx as int].0, old_view[o].0));
                } else {
                    if o > idx {
                        assert(search_key_lt(old_view[idx as int].0, old_view[o].0));
                        lemma_search_key_lt_trans(k@, old_view[idx as int].0, old_view[o].0);
                    }
                }
            }
            assert forall|a: int, b: int| 0 <= a < b < new_view.len() implies search_key_lt(
                #[trigger] new_view[a].0,
                #[trigger] new_view[b].0,
            ) by {
                if b < idx {
                    assert(new_view[a] == old_view[a]);
                    assert(new_view[b] == old_view[b]);
                } else if b == idx {
                    assert(new_view[a] == old_view[a]);
                    assert(new_view[b].0 == k@);
                } else {
                    assert(search_key_lt(k@, new_view[b].0));
                    if a < idx {
                        assert(new_view[a] == old_view[a]);
                        assert(search_key_lt(new_view[a].0, k@));
                        lemma_search_key_lt_trans(new_view[a].0, k@, new_view[b].0);
                    } else if a == idx {
                        assert(new_view[a].0 == k@);
                    } else {
                        assert(new_view[a] == old_view[a - 1 + shift]);
                        assert(new_view[b] == old_view[b - 1 + shift]);
                    }
                }
            }
        }
        self.entries = entries;
    }

    /// Removes `k`; returns its value if it was present.
    pub fn remove_entry(&mut self, k: &SearchKey) -> (r: Option<Vec<u8>>)
        ensures
            final(self)@ == sorted_remove(old(self)@, k@),
            match r {
                Some(v) => sorted_lookup(old(self)@, k@) == Some(v@),
                None => sorted_lookup(old(self)@, k@) is None,
            },
            entries_sorted(final(self)@),
    {
        proof {
            use_type_invariant(&*self);
        }
        let (idx, found) = self.find_pos(k);
        proof {
            lemma_sorted_at(old(self)@, k@, Seq::empty(), idx as int);
        }
        let ghost old_view = self@;
        if found {
            let mut entries: Vec<(SearchKey, Vec<u8>)> = Vec::new();
            core::mem::swap(&mut entries, &mut self.entries);
            let (_oldk, v) = entries.remove(idx);
            proof {
                let new_view = entry_views(entries@);
                assert(new_view =~= old_view.subrange(0, idx as int) + old_view.subrange(
                    idx as int + 1,
                    old_view.len() as int,
                ));
                assert forall|a: int, b: int| 0 <= a < b < new_view.len() implies search_key_lt(
                    #[trigger] new_view[a].0,
                    #[trigger] new_view[b].0,
                ) by {
                    let oa = if a < idx { a } else { a + 1 };
                    let ob = if b < idx { b } else { b + 1 };
                    assert(new_view[a] == old_view[oa]);
                    assert(new_view[b] == old_view[ob]);
                }
            }
            self.entries = entries;
            Some(v)
        } else {
            None
        }
    }

    /// The least entry, if any, as a copy.
    pub fn first(&self) -> (r: Option<(SearchKey, Vec<u8>)>)
        ensures
            match r {
                Some(p) => self@.len() > 0 && p.0@ == self@[0].0 && p.1@ == self@[0].1,
                None => self@.len() == 0,
            },
            entries_sorted(self@),
    {
        proof {
            use_type_invariant(self);
        }
        if self.entries.len() == 0 {
            None
        } else {
            let k = self.entries[0].0.clone();
            let v = clone_bytes(&self.entries[0].1);
            Some((k, v))
        }
    }

    /// The greatest entry, if any, as a copy.
    pub fn last(&self) -> (r: Option<(SearchKey, Vec<u8>)>)
        ensures
            match r {
                Some(p) => self@.len() > 0 && p.0@ == self@[self@.len() - 1].0 && p.1@ == self@[
                    self@.len() - 1].1,
                None => self@.len() == 0,
            },
            entries_sorted(self@),
    {
        proof {
            use_type_invariant(self);
        }
        if self.entries.len() == 0 {
            None
        } else {
            let i = self.entries.len() - 1;
            let k = self.entries[i].0.clone();
            let v = clone_bytes(&self.entries[i].1);
            Some((k, v))
        }
    }

    /// Removes and returns the least entry.
    pub fn pop_first_entry(&mut self) -> (r: Option<(SearchKey, Vec<u8>)>)
        ensures
            match r {
                Some(p) => old(self)@.len() > 0 && p.0@ == old(self)@[0].0 && p.1@ == old(
                    self,
                )@[0].1 && final(self)@ == old(self)@.drop_first(),
                None => old(self)@.len() == 0 && final(self)@ == old(self)@,
            },
            entries_sorted(final(self)@),
    {
        proof {
            use_type_invariant(&*self);
        }
        if self.entries.len() == 0 {
            return None;
        }
        let mut entries: Vec<(SearchKey, Vec<u8>)> = Vec::new();
        core::mem::swap(&mut entries, &mut self.entries);
        let (k, v) = entries.remove(0);
        proof {
            let old_view = old(self)@;
            let new_view = entry_views(entries@);
            assert(new_view =~= old_view.drop_first());
            assert forall|a: int, b: int| 0 <= a < b < new_view.len() implies search_key_lt(
                #[trigger] new_view[a].0,
                #[trigger] new_view[b].0,
            ) by {
                assert(new_view[a] == old_view[a + 1]);
                assert(new_view[b] == old_view[b + 1]);
            }
        }
        self.entries = entries;
        Some((k, v))
    }

    /// Removes and returns the greatest entry.
    pub fn pop_last_entry(&mut self) -> (r: Option<(SearchKey, Vec<u8>)>)
        ensures
            match r {
                Some(p) => old(self)@.len() > 0 && p.0@ == old(self)@[old(self)@.len() - 1].0
                    && p.1@ == old(self)@[old(self)@.len() - 1].1 && final(self)@ == old(
                    self,
                )@.drop_last(),
                None => old(self)@.len() == 0 && final(self)@ == old(self)@,
            },
            entries_sorted(final(self)@),
    {
        proof {
            use_type_invariant(&*self);
        }
        if self.entries.len() == 0 {
            return None;
        }
        let mut entries: Vec<(SearchKey, Vec<u8>)> = Vec::new();
        core::mem::swap(&mut entries, &mut self.entries);
        let p = entries.pop().unwrap();
        proof {
            let old_view = old(self)@;
            let new_view = entry_views(entries@);
            assert(new_view =~= old_view.drop_last());
            assert forall|a: int, b: int| 0 <= a < b < new_view.len() implies search_key_lt(
                #[trigger] new_view[a].0,
                #[trigger] new_view[b].0,
            ) by {
                assert(new_view[a] == old_view[a]);
                assert(new_view[b] == old_view[b]);
            }
        }
        self.entries = entries;
        Some(p)
    }

    /// The entries whose keys lie within the bounds, in ascending order.
    pub fn range(&self, lo: &KeyBound, hi: &KeyBound) -> (r: Vec<(SearchKey, Vec<u8>)>)
        ensures
            entry_views(r@) == self@.filter(|e: (Seq<KeyModel>, Seq<u8>)| in_range(lo@, hi@, e.0)),
            entries_sorted(self@),
    {
        proof {
            use_type_invariant(self);
        }
        let mut out: Vec<(SearchKey, Vec<u8>)> = Vec::new();
        let mut i: usize = 0;
        proof {
            assert(self@.subrange(0, 0) =~= Seq::<(Seq<KeyModel>, Seq<u8>)>::empty());
            assert(entry_views(out@) =~= Seq::<(Seq<KeyModel>, Seq<u8>)>::empty());
            assert(Seq::<(Seq<KeyModel>, Seq<u8>)>::empty().filter(
                |e: (Seq<KeyModel>, Seq<u8>)| in_range(lo@, hi@, e.0),
            ) =~= Seq::<(Seq<KeyModel>, Seq<u8>)>::empty());
        }
        while i < self.entries.len()
            invariant
                i <= self.entries@.len(),
                self@.len() == self.entries@.len(),
                entry_views(out@) == self@.subrange(0, i as int).filter(
                    |e: (Seq<KeyModel>, Seq<u8>)| in_range(lo@, hi@, e.0),
                ),
            decreases self.entries@.len() - i,
        {
            let ghost pred = |e: (Seq<KeyModel>, Seq<u8>)| in_range(lo@, hi@, e.0);
            proof {
                assert(self@.subrange(0, i as int + 1).drop_last() =~= self@.subrange(0, i as int));
                assert(self@.subrange(0, i as int + 1).last() == self@[i as int]);
                reveal_with_fuel(Seq::filter, 2);
            }
            if in_range_exec(lo, hi, &self.entries[i].0) {
                let k = self.entries[i].0.clone();
                let v = clone_bytes(&self.entries[i].1);
                out.push((k, v));
                proof {
                    assert(self@[i as int].0 == self.entries@[i as int].0@);
                    assert(entry_views(out@) =~= self@.subrange(0, i as int + 1).filter(pred));
                }
            } else {
                proof {
                    assert(self@[i as int].0 == self.entries@[i as int].0@);
                    assert(entry_views(out@) =~= self@.subrange(0, i as int + 1).filter(pred));
                }
            }
            i += 1;
        }
        proof {
            assert(self@.subrange(0, self@.len() as int) =~= self@);
        }
        out
    }
}

impl Clone for SortedEntries {
    fn clone(&self) -> (r: Self)
        ensures
            r@ == self@,
            entries_sorted(r@),
    {
        proof {
            use_type_invariant(self);
        }
        let mut entries: Vec<(SearchKey, Vec<u8>)> = Vec::new();
        let mut i: usize = 0;
        while i < self.entries.len()
            invariant
                i <= self.entries@.len(),
                entry_views(entries@) == self@.subrange(0, i as int),
            decreases self.entries@.len() - i,
        {
            let k = self.entries[i].0.clone();
            let v = clone_bytes(&self.entries[i].1);
            let ghost prev = entries@;
            let ghost gk = k@;
            let ghost gv = v@;
            entries.push((k, v));
            proof {
                assert(self@[i as int] == (self.entries@[i as int].0@, self.entries@[i as int].1@));
                assert(entry_views(prev).len() == i);
                assert(prev.len() == i);
                assert forall|j: int| 0 <= j < entries@.len() implies #[trigger] entry_views(
                    entries@,
                )[j] == self@.subrange(0, i as int + 1)[j] by {
                    if j < i {
                        assert(entries@[j] == prev[j]);
                        assert(entry_views(prev)[j] == self@.subrange(0, i as int)[j]);
                    } else {
                        assert(entries@[j].0@ == gk);
                        assert(entries@[j].1@ == gv);
                    }
                }
                assert(entry_views(entries@) =~= self@.subrange(0, i as int + 1));
            }
            i += 1;
        }
        proof {
            assert(self@.subrange(0, self@.len() as int) =~= self@);
            assert(entry_views(entries@) =~= self@);
        }
        let r = SortedEntries { entries };
        r
    }
}

/// The map read off an association list, later pairs overriding earlier
/// ones.
pub open spec fn map_of<T>(s: Seq<(Seq<u8>, T)>) -> Map<Seq<u8>, T>
    decreases s.len(),
{
    if s.len() == 0 {
        Map::empty()
    } else {
        map_of(s.drop_last()).insert(s.last().0, s.last().1)
    }
}

/// The key sequence of an association list.
pub open spec fn assoc_keys<T>(s: Seq<(Seq<u8>, T)>) -> Seq<Seq<u8>> {
    Seq::new(s.len(), |i: int| s[i].0)
}

/// With distinct keys, the map is characterized entry by entry.
pub proof fn lemma_map_of<T>(s: Seq<(Seq<u8>, T)>)
    requires
        assoc_keys(s).no_duplicates(),
    ensures
        forall|k: Seq<u8>|
            #[trigger] map_of(s).contains_key(k) <==> assoc_keys(s).contains(k),
        forall|i: int|
            0 <= i < s.len() ==> map_of(s).contains_key(#[trigger] s[i].0) && map_of(s)[s[i].0]
                == s[i].1,
        map_of(s).dom().finite(),
        map_of(s).dom().len() == s.len(),
    decreases s.len(),
{
    if s.len() == 0 {
        assert(map_of(s).dom() =~= Set::<Seq<u8>>::empty());
    } else {
        let t = s.drop_last();
        assert(assoc_keys(t).no_duplicates()) by {
            assert forall|i: int, j: int|
                0 <= i < j < t.len() implies #[trigger] assoc_keys(t)[i] != #[trigger] assoc_keys(
                t,
            )[j] by {
                assert(assoc_keys(t)[i] == assoc_keys(s)[i]);
                assert(assoc_keys(t)[j] == assoc_keys(s)[j]);
            }
        }
        lemma_map_of(t);
        assert(!assoc_keys(t).contains(s.last().0)) by {
            if assoc_keys(t).contains(s.last().0) {
                let i = choose|i: int|
                    0 <= i < t.len() && assoc_keys(t)[i] == s.last().0;
                assert(assoc_keys(s)[i] == assoc_keys(s)[s.len() - 1]);
            }
        }
        assert(!map_of(t).contains_key(s.last().0));
        assert forall|k: Seq<u8>|
            #[trigger] map_of(s).contains_key(k) <==> assoc_keys(s).contains(k) by {
            if map_of(s).contains_key(k) {
                if k == s.last().0 {
                    assert(assoc_keys(s)[s.len() - 1] == k);
                } else {
                    assert(map_of(t).contains_key(k));
                    let i = choose|i: int| 0 <= i < t.len() && assoc_keys(t)[i] == k;
                    assert(assoc_keys(s)[i] == k);
                }
            } else if assoc_keys(s).contains(k) {
                let i = choose|i: int| 0 <= i < s.len() && assoc_keys(s)[i] == k;
                if i < s.len() - 1 {
                    assert(assoc_keys(t)[i] == k);
                    assert(map_of(t).contains_key(k));
                }
            }
        }
        assert forall|i: int|
            0 <= i < s.len() implies map_of(s).contains_key(#[trigger] s[i].0) && map_of(
            s,
        )[s[i].0] == s[i].1 by {
            if i < s.len() - 1 {
                assert(t[i] == s[i]);
                assert(s[i].0 != s.last().0) by {
                    assert(assoc_keys(s)[i] == s[i].0);
                    assert(assoc_keys(s)[s.len() - 1] == s.last().0);
                }
            }
        }
        assert(map_of(s).dom() =~= map_of(t).dom().insert(s.last().0));
    }
}

/// The models of an association list's entries.
pub open spec fn assoc_views<V: View>(s: Seq<(Vec<u8>, V)>) -> Seq<(Seq<u8>, V::V)> {
    Seq::new(s.len(), |i: int| (s[i].0@, s[i].1@))
}

/// An association map from byte-string keys to values; keys are unique.
#[derive(Debug)]
pub struct AssocMap<V: View> {
    entries: Vec<(Vec<u8>, V)>,
}

impl<V: View> View for AssocMap<V> {
    type V = Map<Seq<u8>, V::V>;

    closed spec fn view(&self) -> Map<Seq<u8>, V::V> {
        map_of(self.pairs())
    }
}

impl<V: View> AssocMap<V> {
    /// The stored entries, in storage order.
    pub closed spec fn pairs(&self) -> Seq<(Seq<u8>, V::V)> {
        assoc_views(self.entries@)
    }

    #[verifier::type_invariant]
    spec fn inv(&self) -> bool {
        assoc_keys(self.pairs()).no_duplicates()
    }

    /// The stored entries determine the map.
    proof fn lemma_model(&self)
        requires
            assoc_keys(self.pairs()).no_duplicates(),
        ensures
            self@ == map_of(self.pairs()),
            forall|k: Seq<u8>|
                #[trigger] self@.contains_key(k) <==> assoc_keys(self.pairs()).contains(k),
            forall|i: int|
                0 <= i < self.pairs().len() ==> self@.contains_key(#[trigger] self.pairs()[i].0)
                    && self@[self.pairs()[i].0] == self.pairs()[i].1,
            self@.dom().finite(),
            self@.dom().len() == self.pairs().len(),
    {
        lemma_map_of(self.pairs());
    }

    pub fn new() -> (r: Self)
        ensures
            r@ == Map::<Seq<u8>, V::V>::empty(),
            r.pairs() == Seq::<(Seq<u8>, V::V)>::empty(),
    {
        let r = AssocMap { entries: Vec::new() };
        proof {
            assert(r.pairs() =~= Seq::<(Seq<u8>, V::V)>::empty());
        }
        r
    }

    /// How many keys the map holds.
    pub fn len(&self) -> (r: usize)
        ensures
            r == self.pairs().len(),
            r == self@.dom().len(),
            self@.dom().finite(),
            self@ == map_of(self.pairs()),
            assoc_keys(self.pairs()).no_duplicates(),
    {
        proof {
            use_type_invariant(self);
            self.lemma_model();
        }
        self.entries.len()
    }

    /// The key at a storage position.
    pub fn key_at(&self, i: usize) -> (r: &Vec<u8>)
        requires
            i < self.pairs().len(),
        ensures
            r@ == self.pairs()[i as int].0,
            self@.contains_key(r@),
    {
        proof {
            use_type_invariant(self);
            self.lemma_model();
        }
        &self.entries[i].0
    }

    /// The value at a storage position.
    pub fn value_at(&self, i: usize) -> (r: &V)
        requires
            i < self.pairs().len(),
        ensures
            r@ == self.pairs()[i as int].1,
            self@.contains_key(self.pairs()[i as int].0),
            self@[self.pairs()[i as int].0] == r@,
    {
        proof {
            use_type_invariant(self);
            self.lemma_model();
        }
        &self.entries[i].1
    }

    /// Position of a key, if present.
    fn find(&self, k: &[u8]) -> (r: Option<usize>)
        ensures
            match r {
                Some(i) => i < self.pairs().len() && self.pairs()[i as int].0 == k@,
                None => !self@.contains_key(k@),
            },
    {
        let mut i: usize = 0;
        while i < self.entries.len()
            invariant
                i <= self.entries@.len(),
                self.pairs().len() == self.entries@.len(),
                forall|j: int| 0 <= j < i ==> #[trigger] self.pairs()[j].0 != k@,
            decreases self.entries@.len() - i,
        {
            if u8s_cmp(self.entries[i].0.as_slice(), k) == 0 {
                return Some(i);
            }
            i += 1;
        }
        proof {
            use_type_invariant(self);
            self.lemma_model();
            if self@.contains_key(k@) {
                let j = choose|j: int|
                    0 <= j < self.pairs().len() && assoc_keys(self.pairs())[j] == k@;
                assert(self.pairs()[j].0 == k@);
            }
        }
        None
    }

    pub fn contains_key(&self, k: &[u8]) -> (r: bool)
        ensures
            r == self@.contains_key(k@),
    {
        proof {
            use_type_invariant(self);
            self.lemma_model();
        }
        match self.find(k) {
            Some(i) => true,
            None => false,
        }
    }

    /// The value under `k`, if any.
    pub fn get(&self, k: &[u8]) -> (r: Option<&V>)
        ensures
            match r {
                Some(v) => self@.contains_key(k@) && v@ == self@[k@],
                None => !self@.contains_key(k@),
            },
    {
        proof {
            use_type_invariant(self);
            self.lemma_model();
        }
        match self.find(k) {
            Some(i) => Some(&self.entries[i].1),
            None => None,
        }
    }

    /// Binds `k` to `v`, overwriting any previous binding.
    pub fn insert(&mut self, k: Vec<u8>, v: V)
        ensures
            final(self)@ == old(self)@.insert(k@, v@),
    {
        proof {
            use_type_invariant(&*self);
            self.lemma_model();
        }
        let ghost old_pairs = self.pairs();
        let r = self.find(k.as_slice());
        let ghost gk = k@;
        let ghost gv = v@;
        let mut entries: Vec<(Vec<u8>, V)> = Vec::new();
        core::mem::swap(&mut entries, &mut self.entries);
        let ghost replaced_at: int = match r {
            Some(i) => i as int,
            None => entries@.len() as int,
        };
        match r {
            Some(i) => {
                entries.remove(i);
                entries.insert(i, (k, v));
            },
            None => {
                entries.push((k, v));
            },
        }
        proof {
            let new_pairs = assoc_views(entries@);
            match r {
                Some(i) => {
                    assert(new_pairs =~= old_pairs.update(i as int, (gk, gv)));
                },
                None => {
                    assert(new_pairs =~= old_pairs.push((gk, gv)));
                },
            }
            // each stored key, after the change
            assert forall|x: int| 0 <= x < new_pairs.len() implies #[trigger] new_pairs[x].0 == (
                if x == replaced_at {
                    gk
                } else {
                    old_pairs[x].0
                }
            ) by {}
            // the new key differs from every other stored key
            assert forall|x: int|
                0 <= x < old_pairs.len() && x != replaced_at implies #[trigger] old_pairs[x].0
                != gk by {
                match r {
                    Some(i) => {
                        assert(assoc_keys(old_pairs)[x] == old_pairs[x].0);
                        assert(assoc_keys(old_pairs)[i as int] == gk);
                    },
                    None => {
                        if old_pairs[x].0 == gk {
                            assert(assoc_keys(old_pairs)[x] == gk);
                            assert(assoc_keys(old_pairs).contains(gk));
                        }
                    },
                }
            }
            assert forall|a: int, b: int|
                0 <= a < b < new_pairs.len() implies #[trigger] assoc_keys(new_pairs)[a]
                != #[trigger] assoc_keys(new_pairs)[b] by {
                assert(assoc_keys(new_pairs)[a] == new_pairs[a].0);
                assert(assoc_keys(new_pairs)[b] == new_pairs[b].0);
                if a != replaced_at && b != replaced_at {
                    assert(assoc_keys(old_pairs)[a] == old_pairs[a].0);
                    assert(assoc_keys(old_pairs)[b] == old_pairs[b].0);
                }
            }
            lemma_map_of(new_pairs);
            assert forall|q: Seq<u8>| #[trigger] map_of(new_pairs).contains_key(q) == old(
                self,
            )@.insert(gk, gv).contains_key(q) by {
                if q == gk {
                    assert(new_pairs[replaced_at].0 == gk);
                    assert(assoc_keys(new_pairs)[replaced_at] == gk);
                    assert(assoc_keys(new_pairs).contains(q));
                } else {
                    if map_of(new_pairs).contains_key(q) {
                        let x = choose|x: int|
                            0 <= x < new_pairs.len() && assoc_keys(new_pairs)[x] == q;
                        assert(new_pairs[x].0 == q);
                        assert(x != replaced_at);
                        assert(old_pairs[x].0 == q);
                        assert(assoc_keys(old_pairs)[x] == q);
                        assert(assoc_keys(old_pairs).contains(q));
                    }
                    if old(self)@.contains_key(q) {
                        let x = choose|x: int|
                            0 <= x < old_pairs.len() && assoc_keys(old_pairs)[x] == q;
                        assert(old_pairs[x].0 == q);
                        assert(x != replaced_at);
                        assert(new_pairs[x].0 == q);
                        assert(assoc_keys(new_pairs)[x] == q);
                        assert(assoc_keys(new_pairs).contains(q));
                    }
                }
            }
            assert forall|q: Seq<u8>| #[trigger] map_of(new_pairs).contains_key(q) implies map_of(
                new_pairs,
            )[q] == old(self)@.insert(gk, gv)[q] by {
                if q == gk {
                    assert(new_pairs[replaced_at] == (gk, gv));
                    assert(map_of(new_pairs)[gk] == gv);
                } else {
                    let x = choose|x: int|
                        0 <= x < new_pairs.len() && assoc_keys(new_pairs)[x] == q;
                    assert(new_pairs[x].0 == q);
                    assert(x != replaced_at);
                    assert(new_pairs[x].1 == old_pairs[x].1);
                    assert(old_pairs[x].0 == q);
                    assert(map_of(new_pairs)[q] == new_pairs[x].1);
                    assert(old(self)@[q] == old_pairs[x].1);
                }
            }
            assert(map_of(new_pairs) =~= old(self)@.insert(gk, gv));
        }
        self.entries = entries;
    }
}

impl<V: View> AssocMap<V> {
    /// Unbinds `k`; returns the removed value if it was present.
    pub fn remove(&mut self, k: &[u8]) -> (r: Option<V>)
        ensures
            final(self)@ == old(self)@.remove(k@),
            match r {
                Some(v) => old(self)@.contains_key(k@) && v@ == old(self)@[k@],
                None => !old(self)@.contains_key(k@),
            },
    {
        proof {
            use_type_invariant(&*self);
            self.lemma_model();
        }
        let ghost old_pairs = self.pairs();
        let ghost gk = k@;
        match self.find(k) {
            None => {
                proof {
                    assert(old(self)@.remove(gk) =~= old(self)@);
                }
                None
            },
            Some(i) => {
                let mut entries: Vec<(Vec<u8>, V)> = Vec::new();
                core::mem::swap(&mut entries, &mut self.entries);
                let (_key, v) = entries.remove(i);
                proof {
                    let new_pairs = assoc_views(entries@);
                    assert(new_pairs =~= old_pairs.remove(i as int));
                    assert forall|x: int| 0 <= x < new_pairs.len() implies #[trigger] new_pairs[x]
                        == old_pairs[if x < i { x } else { x + 1 }] by {}
                    assert forall|a: int, b: int|
                        0 <= a < b < new_pairs.len() implies #[trigger] assoc_keys(new_pairs)[a]
                        != #[trigger] assoc_keys(new_pairs)[b] by {
                        let oa = if a < i { a } else { a + 1 };
                        let ob = if b < i { b } else { b + 1 };
                        assert(assoc_keys(new_pairs)[a] == new_pairs[a].0);
                        assert(assoc_keys(new_pairs)[b] == new_pairs[b].0);
                        assert(assoc_keys(old_pairs)[oa] == old_pairs[oa].0);
                        assert(assoc_keys(old_pairs)[ob] == old_pairs[ob].0);
                    }
                    lemma_map_of(new_pairs);
                    assert forall|x: int|
                        0 <= x < old_pairs.len() && x != i implies #[trigger] old_pairs[x].0
                        != gk by {
                        assert(assoc_keys(old_pairs)[x] == old_pairs[x].0);
                        assert(assoc_keys(old_pairs)[i as int] == gk);
                    }
                    assert forall|q: Seq<u8>| #[trigger] map_of(new_pairs).contains_key(q) == old(
                        self,
                    )@.remove(gk).contains_key(q) by {
                        if map_of(new_pairs).contains_key(q) {
                            let x = choose|x: int|
                                0 <= x < new_pairs.len() && assoc_keys(new_pairs)[x] == q;
                            let ox = if x < i { x } else { x + 1 };
                            assert(new_pairs[x].0 == q);
                            assert(old_pairs[ox].0 == q);
                            assert(assoc_keys(old_pairs)[ox] == q);
                            assert(assoc_keys(old_pairs).contains(q));
                            assert(q != gk);
                        }
                        if old(self)@.remove(gk).contains_key(q) {
                            let x = choose|x: int|
                                0 <= x < old_pairs.len() && assoc_keys(old_pairs)[x] == q;
                            assert(old_pairs[x].0 == q);
                            assert(x != i);
                            let nx = if x < i { x } else { x - 1 };
                            assert(new_pairs[nx].0 == q);
                            assert(assoc_keys(new_pairs)[nx] == q);
                            assert(assoc_keys(new_pairs).contains(q));
                        }
                    }
                    assert forall|q: Seq<u8>| #[trigger] map_of(new_pairs).contains_key(
                        q,
                    ) implies map_of(new_pairs)[q] == old(self)@.remove(gk)[q] by {
                        let x = choose|x: int|
                            0 <= x < new_pairs.len() && assoc_keys(new_pairs)[x] == q;
                        let ox = if x < i { x } else { x + 1 };
                        assert(new_pairs[x].0 == q);
                        assert(old_pairs[ox] == new_pairs[x]);
                        assert(map_of(new_pairs)[q] == new_pairs[x].1);
                        assert(old(self)@[q] == old_pairs[ox].1);
                        assert(q != gk);
                    }
                    assert(map_of(new_pairs) =~= old(self)@.remove(gk));
                }
                self.entries = entries;
                Some(v)
            },
        }
    }
}

/// Insertion is observed: looking up the inserted key finds exactly the
/// inserted value.
pub proof fn lemma_sorted_insert_lookup(s: Seq<(Seq<KeyModel>, Seq<u8>)>, k: Seq<KeyModel>, v: Seq<u8>)
    ensures
        sorted_lookup(sorted_insert(s, k, v), k) == Some(v),
    decreases s.len(),
{
    if s.len() == 0 {
    } else if search_key_lt(k, s[0].0) {
        assert((seq![(k, v)] + s)[0] == (k, v));
    } else if k == s[0].0 {
        assert((seq![(k, v)] + s.drop_first())[0] == (k, v));
    } else {
        lemma_search_key_lt_trichotomy(k, s[0].0);
        lemma_sorted_insert_lookup(s.drop_first(), k, v);
        let t = seq![s[0]] + sorted_insert(s.drop_first(), k, v);
        assert(t[0] == s[0]);
        assert(t.drop_first() =~= sorted_insert(s.drop_first(), k, v));
    }
}
} // verus!
