//! Trusted view of the sharded concurrent maps that hold the key-value and
//! key-set collections. The maps come from the dashmap crate; each is
//! declared opaque and given a name for its contents, and the few methods
//! the engines call are wrapped with contracts over that name.

use vstd::prelude::*;

verus! {

use crate::containers::ByteSet;

#[verifier::external_type_specification]
#[verifier::external_body]
#[verifier::reject_recursive_types(K)]
#[verifier::reject_recursive_types(V)]
#[verifier::reject_recursive_types(S)]
pub struct ExDashMap<K, V, S>(dashmap::DashMap<K, V, S>);

/// What a key-value shard map holds.
pub uninterp spec fn kv_shards_view(m: dashmap::DashMap<Vec<u8>, Vec<u8>>) -> Map<Seq<u8>, Seq<u8>>;

/// What a key-set shard map holds: each key's set of byte strings.
pub uninterp spec fn set_shards_view(m: dashmap::DashMap<Vec<u8>, ByteSet>) -> Map<
    Seq<u8>,
    Set<Seq<u8>>,
>;

/// Relies on dashmap::DashMap::new; nothing is assumed of the contents.
#[verifier::external_body]
fn kv_shards_alloc() -> dashmap::DashMap<Vec<u8>, Vec<u8>> {
    dashmap::DashMap::new()
}

/// Relies on dashmap::DashMap::clear: removes every entry.
#[verifier::external_body]
fn kv_shards_clear(m: &mut dashmap::DashMap<Vec<u8>, Vec<u8>>)
    ensures
        kv_shards_view(*final(m)) == kv_shards_view(*old(m)).restrict(Set::<Seq<u8>>::empty()),
{
    m.clear();
}

/// A shard map with nothing in it.
pub(crate) fn kv_shards_new() -> (r: dashmap::DashMap<Vec<u8>, Vec<u8>>)
    ensures
        kv_shards_view(r) == Map::<Seq<u8>, Seq<u8>>::empty(),
{
    let mut m = kv_shards_alloc();
    kv_shards_clear(&mut m);
    proof {
        assert(kv_shards_view(m) =~= Map::<Seq<u8>, Seq<u8>>::empty());
    }
    m
}

/// Relies on dashmap::DashMap::get: the value stored under the key, copied
/// out of the shard.
#[verifier::external_body]
pub(crate) fn kv_shards_get(m: &dashmap::DashMap<Vec<u8>, Vec<u8>>, k: &[u8]) -> (r: Option<
    Vec<u8>,
>)
    ensures
        match r {
            Some(v) => kv_shards_view(*m).contains_key(k@) && v@ == kv_shards_view(*m)[k@],
            None => !kv_shards_view(*m).contains_key(k@),
        },
{
    m.get(k).map(|guard| guard.value().clone())
}

/// Relies on dashmap::DashMap::insert: maps the key to the value.
#[verifier::external_body]
pub(crate) fn kv_shards_insert(m: &mut dashmap::DashMap<Vec<u8>, Vec<u8>>, k: Vec<u8>, v: Vec<u8>)
    ensures
        kv_shards_view(*final(m)) == kv_shards_view(*old(m)).insert(k@, v@),
{
    m.insert(k, v);
}

/// Relies on dashmap::DashMap::remove: unbinds the key.
#[verifier::external_body]
pub(crate) fn kv_shards_remove(m: &mut dashmap::DashMap<Vec<u8>, Vec<u8>>, k: &[u8])
    ensures
        kv_shards_view(*final(m)) == kv_shards_view(*old(m)).remove(k@),
{
    m.remove(k);
}

/// Relies on dashmap::DashMap::contains_key.
#[verifier::external_body]
pub(crate) fn kv_shards_contains(m: &dashmap::DashMap<Vec<u8>, Vec<u8>>, k: &[u8]) -> (r: bool)
    ensures
        r == kv_shards_view(*m).contains_key(k@),
{
    m.contains_key(k)
}

/// Relies on dashmap::DashMap::len: one entry per stored key.
#[verifier::external_body]
pub(crate) fn kv_shards_len(m: &dashmap::DashMap<Vec<u8>, Vec<u8>>) -> (r: usize)
    requires
        kv_shards_view(*m).dom().finite(),
    ensures
        r == kv_shards_view(*m).dom().len(),
{
    m.len()
}

/// Relies on dashmap::DashMap::new; nothing is assumed of the contents.
#[verifier::external_body]
fn set_shards_alloc() -> dashmap::DashMap<Vec<u8>, ByteSet> {
    dashmap::DashMap::new()
}

/// Relies on dashmap::DashMap::clear: removes every entry.
#[verifier::external_body]
fn set_shards_clear(m: &mut dashmap::DashMap<Vec<u8>, ByteSet>)
    ensures
        set_shards_view(*final(m)) == set_shards_view(*old(m)).restrict(Set::<Seq<u8>>::empty()),
{
    m.clear();
}

/// A shard map with nothing in it.
pub(crate) fn set_shards_new() -> (r: dashmap::DashMap<Vec<u8>, ByteSet>)
    ensures
        set_shards_view(r) == Map::<Seq<u8>, Set<Seq<u8>>>::empty(),
{
    let mut m = set_shards_alloc();
    set_shards_clear(&mut m);
    proof {
        assert(set_shards_view(m) =~= Map::<Seq<u8>, Set<Seq<u8>>>::empty());
    }
    m
}

/// Relies on dashmap::DashMap::get: the set stored under the key, copied
/// out of the shard.
#[verifier::external_body]
pub(crate) fn set_shards_get(m: &dashmap::DashMap<Vec<u8>, ByteSet>, k: &[u8]) -> (r: Option<
    ByteSet,
>)
    ensures
        match r {
            Some(s) => set_shards_view(*m).contains_key(k@) && s@ == set_shards_view(*m)[k@],
            None => !set_shards_view(*m).contains_key(k@),
        },
{
    m.get(k).map(|guard| guard.value().clone())
}

/// Relies on dashmap::DashMap::insert: maps the key to the set.
#[verifier::external_body]
pub(crate) fn set_shards_insert(m: &mut dashmap::DashMap<Vec<u8>, ByteSet>, k: Vec<u8>, v: ByteSet)
    ensures
        set_shards_view(*final(m)) == set_shards_view(*old(m)).insert(k@, v@),
{
    m.insert(k, v);
}

/// Relies on dashmap::DashMap::remove: unbinds the key.
#[verifier::external_body]
pub(crate) fn set_shards_remove(m: &mut dashmap::DashMap<Vec<u8>, ByteSet>, k: &[u8])
    ensures
        set_shards_view(*final(m)) == set_shards_view(*old(m)).remove(k@),
{
    m.remove(k);
}

/// Relies on dashmap::DashMap::contains_key.
#[verifier::external_body]
pub(crate) fn set_shards_contains(m: &dashmap::DashMap<Vec<u8>, ByteSet>, k: &[u8]) -> (r: bool)
    ensures
        r == set_shards_view(*m).contains_key(k@),
{
    m.contains_key(k)
}

/// Relies on dashmap::DashMap::len: one entry per stored key.
#[verifier::external_body]
pub(crate) fn set_shards_len(m: &dashmap::DashMap<Vec<u8>, ByteSet>) -> (r: usize)
    requires
        set_shards_view(*m).dom().finite(),
    ensures
        r == set_shards_view(*m).dom().len(),
{
    m.len()
}

} // verus!
