//! The least-recently-used map of the `lru` crate, as the block cache uses it:
//! keyed by the offset at which a block begins, holding shared blocks.
//!
//! Nothing in this file is proved. Each function makes one call, and its
//! contract says over `lru_entries` and `lru_cap` what that call does.

use vstd::prelude::*;
use std::sync::Arc;
use lru::LruCache;

verus! {

/// A decompressed block, shared between the cache and its readers.
pub type Block = Arc<Vec<u8>>;

/// What a cache holds: offset and block, the entry used last in front.
pub type Entries = Seq<(u64, Seq<u8>)>;

/// `lru::LruCache`, of which the library sees nothing but what the functions
/// below say.
#[verifier::external_type_specification]
#[verifier::external_body]
#[verifier::reject_recursive_types(K)]
#[verifier::reject_recursive_types(V)]
#[verifier::reject_recursive_types(S)]
pub struct ExLruCache<K, V, S>(LruCache<K, V, S>);

/// `lru::DefaultHasher`, the hasher of a cache made by `LruCache::new`.
#[verifier::external_type_specification]
#[verifier::external_body]
pub struct ExDefaultHasher(lru::DefaultHasher);

/// The entries of a cache in the order of their last use, the most recent
/// first.
pub uninterp spec fn lru_entries(cache: LruCache<u64, Block>) -> Entries;

/// The number of entries that a cache was made to hold.
pub uninterp spec fn lru_cap(cache: LruCache<u64, Block>) -> nat;

/// Whether some entry has the key.
pub open spec fn has_key(entries: Entries, key: u64) -> bool {
    exists|i: int| 0 <= i < entries.len() && (#[trigger] entries[i]).0 == key
}

/// The place of an entry that has the key.
pub open spec fn key_index(entries: Entries, key: u64) -> int {
    choose|i: int| 0 <= i < entries.len() && (#[trigger] entries[i]).0 == key
}

/// The entries after the one at place `i` was used: it moves to the front.
pub open spec fn moved_to_front(entries: Entries, i: int) -> Entries {
    seq![entries[i]] + entries.remove(i)
}

/// The entries after a block was put under a key into a cache made for `cap`
/// entries. An entry with that key is replaced and moves to the front. A new
/// entry goes to the front; where the cache is full, the entry used longest
/// ago leaves for it. A cache made for no entry stays empty.
pub open spec fn after_put(entries: Entries, cap: nat, key: u64, block: Seq<u8>) -> Entries {
    if has_key(entries, key) {
        seq![(key, block)] + entries.remove(key_index(entries, key))
    } else if cap == 0 {
        entries
    } else if entries.len() == cap {
        seq![(key, block)] + entries.drop_last()
    } else {
        seq![(key, block)] + entries
    }
}

/// The largest capacity that `lru_new` is asked for.
pub const MAX_LRU_CAP: usize = 0x1_0000;

/// `LruCache::new`: an empty cache for at most `cap` entries. The call
/// reserves room for `cap` entries at once, so `cap` is kept small.
#[verifier::external_body]
pub(crate) fn lru_new(cap: usize) -> (cache: LruCache<u64, Block>)
    requires
        cap <= MAX_LRU_CAP,
    ensures
        lru_entries(cache) == Entries::empty(),
        lru_cap(cache) == cap,
{
    LruCache::new(cap)
}

/// `LruCache::get`: the block under `key`, whose entry then counts as the one
/// used last; without such an entry, `None` and no change.
#[verifier::external_body]
pub(crate) fn lru_get(cache: &mut LruCache<u64, Block>, key: u64) -> (found: Option<Block>)
    ensures
        lru_cap(*final(cache)) == lru_cap(*old(cache)),
        match found {
            Some(block) => exists|i: int|
                {
                    &&& 0 <= i < lru_entries(*old(cache)).len()
                    &&& #[trigger] lru_entries(*old(cache))[i] == (key, block@)
                    &&& lru_entries(*final(cache)) == moved_to_front(lru_entries(*old(cache)), i)
                },
            None => {
                &&& !has_key(lru_entries(*old(cache)), key)
                &&& lru_entries(*final(cache)) == lru_entries(*old(cache))
            },
        },
{
    cache.get(&key).cloned()
}

/// `LruCache::put`: stores `block` under `key` as the entry used last, as
/// `after_put` says.
#[verifier::external_body]
pub(crate) fn lru_put(cache: &mut LruCache<u64, Block>, key: u64, block: Block)
    ensures
        lru_cap(*final(cache)) == lru_cap(*old(cache)),
        lru_entries(*final(cache)) == after_put(
            lru_entries(*old(cache)),
            lru_cap(*old(cache)),
            key,
            block@,
        ),
{
    cache.put(key, block);
}

/// `LruCache::len`: the number of entries.
#[verifier::external_body]
pub(crate) fn lru_len(cache: &LruCache<u64, Block>) -> (n: usize)
    ensures
        n == lru_entries(*cache).len(),
{
    cache.len()
}

/// `LruCache::peek_lru`: the key of the entry used longest ago, which stays
/// where it is; `None` for an empty cache.
#[verifier::external_body]
pub(crate) fn lru_peek_lru(cache: &LruCache<u64, Block>) -> (key: Option<u64>)
    ensures
        match key {
            Some(k) => lru_entries(*cache).len() > 0 && k == lru_entries(*cache).last().0,
            None => lru_entries(*cache).len() == 0,
        },
{
    cache.peek_lru().map(|entry| *entry.0)
}

/// `Arc::clone`: another handle to the same block.
#[verifier::external_body]
pub(crate) fn share(block: &Block) -> (shared: Block)
    ensures
        shared == *block,
{
    Arc::clone(block)
}

} // verus!
