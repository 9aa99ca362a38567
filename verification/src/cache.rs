//! The cache of recently read blocks.

use vstd::prelude::*;
use lru::LruCache;

verus! {

/// `lru::LruCache`: known only by what the functions below say of it.
#[verifier::external_type_specification]
#[verifier::external_body]
#[verifier::reject_recursive_types(K)]
#[verifier::reject_recursive_types(V)]
#[verifier::reject_recursive_types(S)]
pub struct ExLruCache<K, V, S>(LruCache<K, V, S>);

/// `lru::DefaultHasher`, the hasher that an `LruCache` is made with.
#[verifier::external_type_specification]
#[verifier::external_body]
pub struct ExLruHasher(lru::DefaultHasher);

/// The blocks that a cache holds, by block number.
pub uninterp spec fn cache_contents(c: LruCache<u64, Vec<u8>>) -> Map<u64, Seq<u8>>;

/// The number of blocks that a cache was made to hold at most.
pub uninterp spec fn cache_cap(c: LruCache<u64, Vec<u8>>) -> nat;

/// Calls `LruCache::new`: an empty cache that holds at most `cap` entries.
#[verifier::external_body]
pub(crate) fn cache_new(cap: usize) -> (c: LruCache<u64, Vec<u8>>)
    ensures
        cache_contents(c) =~= Map::empty(),
        cache_cap(c) == cap,
{
    LruCache::new(cap)
}

/// Calls `LruCache::peek`: the entry under the key, if there is one. The
/// cache is left as it is.
#[verifier::external_body]
pub(crate) fn cache_peek<'a>(c: &'a LruCache<u64, Vec<u8>>, k: u64) -> (r: Option<&'a Vec<u8>>)
    ensures
        r is Some <==> cache_contents(*c).contains_key(k),
        r is Some ==> r.unwrap()@ == cache_contents(*c)[k],
{
    c.peek(&k)
}

/// Calls `LruCache::get` and tells whether it found an entry. What the
/// cache holds stays; the entry found counts as the one used last.
#[verifier::external_body]
pub(crate) fn cache_touch(c: &mut LruCache<u64, Vec<u8>>, k: u64) -> (r: bool)
    ensures
        r == cache_contents(*old(c)).contains_key(k),
        cache_contents(*final(c)) == cache_contents(*old(c)),
        cache_cap(*final(c)) == cache_cap(*old(c)),
{
    c.get(&k).is_some()
}

/// Calls `LruCache::put`. A cache made for no entry stays empty. Any other
/// then holds the value under the key. Other entries may be driven out;
/// those that stay are unchanged.
#[verifier::external_body]
pub(crate) fn cache_put(c: &mut LruCache<u64, Vec<u8>>, k: u64, v: Vec<u8>)
    ensures
        cache_cap(*final(c)) == cache_cap(*old(c)),
        cache_cap(*old(c)) == 0 ==> cache_contents(*final(c)) == cache_contents(*old(c)),
        cache_cap(*old(c)) > 0 ==> cache_contents(*final(c)).contains_key(k) && cache_contents(
            *final(c),
        )[k] == v@,
        forall|j: u64|
            j != k && #[trigger] cache_contents(*final(c)).contains_key(j) ==> cache_contents(
                *old(c),
            ).contains_key(j) && cache_contents(*final(c))[j] == cache_contents(*old(c))[j],
{
    c.put(k, v);
}

} // verus!
