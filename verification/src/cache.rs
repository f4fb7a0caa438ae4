//! The block cache: the decompressed blocks used last, by the offset at which
//! each begins, and a count of the lookups that found a block and of those
//! that did not.

use vstd::prelude::*;
use lru::LruCache;
use crate::lru_cache::after_put;
use crate::lru_cache::has_key;
use crate::lru_cache::key_index;
use crate::lru_cache::lru_cap;
use crate::lru_cache::lru_entries;
use crate::lru_cache::lru_get;
use crate::lru_cache::lru_len;
use crate::lru_cache::lru_new;
use crate::lru_cache::lru_peek_lru;
use crate::lru_cache::lru_put;
use crate::lru_cache::moved_to_front;
use crate::lru_cache::Block;
use crate::lru_cache::Entries;

verus! {

/// The number of blocks that a cache holds at most.
pub const LRU_CACHE_CAPACITY: usize = 100;

/// The count that follows `n`; behind the largest count comes 0.
pub open spec fn next_count(n: usize) -> usize {
    if n == usize::MAX {
        0
    } else {
        (n + 1) as usize
    }
}

/// No two entries have the same key.
pub open spec fn distinct_keys(entries: Entries) -> bool {
    forall|a: int, b: int|
        0 <= a < b < entries.len() ==> (#[trigger] entries[a]).0 != (#[trigger] entries[b]).0
}

/// What a block cache stands for: its entries, the one used last in front,
/// and its two counts.
pub struct BlockCacheView {
    pub entries: Entries,
    pub hits: usize,
    pub misses: usize,
}

impl BlockCacheView {
    /// Each block is held once, and no more blocks than the capacity.
    pub open spec fn wf(self) -> bool {
        &&& distinct_keys(self.entries)
        &&& self.entries.len() <= LRU_CACHE_CAPACITY
    }

    /// Whether the block that begins at `key` is held.
    pub open spec fn has(self, key: u64) -> bool {
        has_key(self.entries, key)
    }

    /// The block held under `key`.
    pub open spec fn block(self, key: u64) -> Seq<u8> {
        self.entries[key_index(self.entries, key)].1
    }

    /// The key of the entry used last.
    pub open spec fn most_recent(self) -> Option<u64> {
        if self.entries.len() == 0 {
            None
        } else {
            Some(self.entries.first().0)
        }
    }

    /// The key of the entry used longest ago.
    pub open spec fn least_recent(self) -> Option<u64> {
        if self.entries.len() == 0 {
            None
        } else {
            Some(self.entries.last().0)
        }
    }

    /// The cache after a lookup of `key`. A block that is held counts as a
    /// hit and becomes the entry used last; one that is not counts as a miss.
    pub open spec fn after_lookup(self, key: u64) -> BlockCacheView {
        if self.has(key) {
            BlockCacheView {
                entries: moved_to_front(self.entries, key_index(self.entries, key)),
                hits: next_count(self.hits),
                misses: self.misses,
            }
        } else {
            BlockCacheView { entries: self.entries, hits: self.hits, misses: next_count(self.misses) }
        }
    }

    /// The cache after `block` was stored under `key`.
    pub open spec fn after_insert(self, key: u64, block: Seq<u8>) -> BlockCacheView {
        BlockCacheView {
            entries: after_put(self.entries, LRU_CACHE_CAPACITY as nat, key, block),
            hits: self.hits,
            misses: self.misses,
        }
    }

    /// The cache after a block that was not held was looked up, read and
    /// stored. The lookup counts as a miss. A block that could not be read
    /// (`None`) is not stored.
    pub open spec fn after_miss(self, key: u64, block: Option<Seq<u8>>) -> BlockCacheView {
        match block {
            Some(bytes) => self.after_lookup(key).after_insert(key, bytes),
            None => self.after_lookup(key),
        }
    }

    /// With distinct keys, the entry at a place is the one that its key finds.
    pub proof fn lemma_key_index(self, i: int)
        requires
            distinct_keys(self.entries),
            0 <= i < self.entries.len(),
        ensures
            self.has(self.entries[i].0),
            key_index(self.entries, self.entries[i].0) == i,
            self.block(self.entries[i].0) == self.entries[i].1,
    {
        let key = self.entries[i].0;
        let found = key_index(self.entries, key);
        if found < i {
            assert(self.entries[found].0 != self.entries[i].0);
        } else if i < found {
            assert(self.entries[i].0 != self.entries[found].0);
        }
    }

    /// A lookup keeps the cache well formed, and keeps each block that is
    /// held under the key it had.
    pub proof fn lemma_lookup_keeps(self, key: u64)
        requires
            self.wf(),
        ensures
            self.after_lookup(key).wf(),
            self.after_lookup(key).entries.len() == self.entries.len(),
            forall|k: u64| self.after_lookup(key).has(k) <==> self.has(k),
            forall|k: u64| self.has(k) ==> self.after_lookup(key).block(k) == self.block(k),
    {
        let after = self.after_lookup(key);
        if self.has(key) {
            let i = key_index(self.entries, key);
            lemma_moved_to_front(self.entries, i);
            assert forall|k: u64| after.has(k) <==> self.has(k) by {
                if self.has(k) {
                    let j = key_index(self.entries, k);
                    let to = if j == i {
                        0
                    } else if j < i {
                        j + 1
                    } else {
                        j
                    };
                    assert(after.entries[to] == self.entries[j]);
                }
                if after.has(k) {
                    let j = key_index(after.entries, k);
                    let from = if j == 0 {
                        i
                    } else if j <= i {
                        j - 1
                    } else {
                        j
                    };
                    assert(after.entries[j] == self.entries[from]);
                }
            }
            assert forall|k: u64| self.has(k) implies after.block(k) == self.block(k) by {
                let j = key_index(after.entries, k);
                let from = if j == 0 {
                    i
                } else if j <= i {
                    j - 1
                } else {
                    j
                };
                assert(after.entries[j] == self.entries[from]);
                self.lemma_key_index(from);
            }
        }
    }

    /// Storing a block keeps the cache well formed. The block is then held
    /// under its key as the entry used last, and every other block that is
    /// still held is the one that was held before.
    pub proof fn lemma_insert_keeps(self, key: u64, block: Seq<u8>)
        requires
            self.wf(),
        ensures
            self.after_insert(key, block).wf(),
            self.after_insert(key, block).has(key),
            self.after_insert(key, block).block(key) == block,
            self.after_insert(key, block).most_recent() == Some(key),
            forall|k: u64|
                k != key && self.after_insert(key, block).has(k) ==> self.has(k)
                    && self.after_insert(key, block).block(k) == self.block(k),
    {
        let old = self.entries;
        if has_key(old, key) {
            let i = key_index(old, key);
            assert forall|j: int| 0 <= j < old.len() && j != i implies (#[trigger] old[j]).0
                != key by {
                if j < i {
                    assert(old[j].0 != old[i].0);
                } else {
                    assert(old[i].0 != old[j].0);
                }
            }
            self.lemma_put_in_front(key, block, Some(i));
        } else if old.len() == LRU_CACHE_CAPACITY {
            assert(old.drop_last() =~= old.remove(old.len() - 1));
            self.lemma_put_in_front(key, block, Some(old.len() - 1));
        } else {
            self.lemma_put_in_front(key, block, None);
        }
    }

    /// A lookup of a block that is held is a hit: it adds one to the hits,
    /// leaves the misses and the number of blocks as they are, and makes the
    /// block the one used last.
    pub proof fn lemma_hit(self, key: u64)
        requires
            self.wf(),
            self.has(key),
            self.hits < usize::MAX,
        ensures
            self.after_lookup(key).hits == self.hits + 1,
            self.after_lookup(key).misses == self.misses,
            self.after_lookup(key).entries.len() == self.entries.len(),
            self.after_lookup(key).most_recent() == Some(key),
    {
        lemma_moved_to_front(self.entries, key_index(self.entries, key));
    }

    /// A block that is not held is a miss: looking it up, reading and
    /// storing it adds one to the misses and leaves the hits as they are.
    /// The number of blocks grows by one, or stays where the cache was full
    /// or the block could not be read, and never passes the capacity. A
    /// block that was read is then the one used last.
    pub proof fn lemma_miss(self, key: u64, block: Option<Seq<u8>>)
        requires
            self.wf(),
            !self.has(key),
            self.misses < usize::MAX,
        ensures
            self.after_miss(key, block).misses == self.misses + 1,
            self.after_miss(key, block).hits == self.hits,
            self.entries.len() <= self.after_miss(key, block).entries.len() <= self.entries.len()
                + 1,
            self.after_miss(key, block).entries.len() <= LRU_CACHE_CAPACITY,
            block is Some ==> self.after_miss(key, block).most_recent() == Some(key),
            block is Some ==> self.after_miss(key, block).entries.len() == if self.entries.len()
                == LRU_CACHE_CAPACITY {
                self.entries.len()
            } else {
                self.entries.len() + 1
            },
            block is None ==> self.after_miss(key, block).entries == self.entries,
    {
        self.lemma_lookup_keeps(key);
        if let Some(bytes) = block {
            self.after_lookup(key).lemma_insert_keeps(key, bytes);
        }
    }

    /// In a full cache, a block that is not held takes the place of the one
    /// used longest ago: that one leaves, and every other block stays as it
    /// was.
    pub proof fn lemma_full_cache_evicts(self, key: u64, block: Seq<u8>)
        requires
            self.wf(),
            !self.has(key),
            self.entries.len() == LRU_CACHE_CAPACITY,
        ensures
            self.least_recent() matches Some(oldest) && !self.after_insert(key, block).has(oldest),
            forall|k: u64|
                self.has(k) && Some(k) != self.least_recent() ==> self.after_insert(key, block).has(
                    k,
                ) && self.after_insert(key, block).block(k) == self.block(k),
            self.after_insert(key, block).has(key),
            self.after_insert(key, block).entries.len() == LRU_CACHE_CAPACITY,
    {
        let after = self.after_insert(key, block);
        let last = self.entries.len() - 1;
        let oldest = self.entries[last].0;
        self.lemma_insert_keeps(key, block);
        assert(after.entries =~= seq![(key, block)] + self.entries.drop_last());
        assert forall|j: int| 1 <= j < after.entries.len() implies #[trigger] after.entries[j]
            == self.entries[j - 1] by {}
        if after.has(oldest) {
            let j = key_index(after.entries, oldest);
            if j == 0 {
                assert(self.entries[last].0 == key);
            } else {
                assert(after.entries[j] == self.entries[j - 1]);
                assert(self.entries[j - 1].0 != self.entries[last].0);
            }
        }
        assert forall|k: u64| self.has(k) && Some(k) != self.least_recent() implies after.has(k)
            && after.block(k) == self.block(k) by {
            let i = key_index(self.entries, k);
            assert(after.entries[i + 1] == self.entries[i]);
        }
    }

    /// After any lookup that hit and after any block was stored, that block
    /// is the one used last; and the block used last is held, so that the
    /// next lookup of it is a hit and no miss.
    pub proof fn lemma_most_recent_is_held(self)
        requires
            self.wf(),
        ensures
            self.most_recent() matches Some(key) ==> {
                &&& self.has(key)
                &&& self.after_lookup(key).hits == next_count(self.hits)
                &&& self.after_lookup(key).misses == self.misses
                &&& self.after_lookup(key).most_recent() == Some(key)
            },
    {
        if self.entries.len() > 0 {
            self.lemma_key_index(0);
            lemma_moved_to_front(self.entries, 0);
        }
    }

    /// The entries without the one at the place `gone`, or all of them.
    pub open spec fn without(self, gone: Option<int>) -> Entries {
        match gone {
            Some(i) => self.entries.remove(i),
            None => self.entries,
        }
    }

    /// Where no entry that stays has `key`, the entries `(key, block)` and
    /// then those that stay have distinct keys, and each key found there but
    /// `key` has the block it had.
    proof fn lemma_put_in_front(self, key: u64, block: Seq<u8>, gone: Option<int>)
        requires
            self.wf(),
            match gone {
                Some(i) => 0 <= i < self.entries.len(),
                None => self.entries.len() < LRU_CACHE_CAPACITY,
            },
            forall|j: int|
                0 <= j < self.entries.len() && gone != Some(j) ==> (#[trigger] self.entries[j]).0
                    != key,
        ensures
            ({
                let after = BlockCacheView {
                    entries: seq![(key, block)] + self.without(gone),
                    hits: self.hits,
                    misses: self.misses,
                };
                &&& after.wf()
                &&& after.has(key)
                &&& after.block(key) == block
                &&& after.most_recent() == Some(key)
                &&& forall|k: u64|
                    k != key && after.has(k) ==> self.has(k) && after.block(k) == self.block(k)
            }),
    {
        let kept = self.without(gone);
        let entries = seq![(key, block)] + kept;
        let after = BlockCacheView { entries, hits: self.hits, misses: self.misses };
        let from = |j: int|
            match gone {
                Some(i) => if j < i {
                    j
                } else {
                    j + 1
                },
                None => j,
            };
        assert(entries[0] == (key, block));
        assert forall|j: int| 1 <= j < entries.len() implies #[trigger] entries[j]
            == self.entries[from(j - 1)] && 0 <= from(j - 1) < self.entries.len() && gone != Some(
            from(j - 1),
        ) by {
            assert(entries[j] == kept[j - 1]);
        }
        assert forall|a: int, b: int| 0 <= a < b < entries.len() implies (#[trigger] entries[a]).0
            != (#[trigger] entries[b]).0 by {
            assert(entries[b] == self.entries[from(b - 1)]);
            if a > 0 {
                assert(entries[a] == self.entries[from(a - 1)]);
                assert(from(a - 1) < from(b - 1));
            }
        }
        after.lemma_key_index(0);
        assert forall|k: u64| k != key && after.has(k) implies self.has(k) && after.block(k)
            == self.block(k) by {
            let j = key_index(entries, k);
            assert(entries[j] == self.entries[from(j - 1)]);
            self.lemma_key_index(from(j - 1));
        }
    }
}

/// Moving an entry to the front keeps the keys distinct and the number of
/// entries, and puts the entry at place `i` first.
pub proof fn lemma_moved_to_front(entries: Entries, i: int)
    requires
        distinct_keys(entries),
        0 <= i < entries.len(),
    ensures
        distinct_keys(moved_to_front(entries, i)),
        moved_to_front(entries, i).len() == entries.len(),
        moved_to_front(entries, i)[0] == entries[i],
        forall|j: int|
            1 <= j < entries.len() ==> #[trigger] moved_to_front(entries, i)[j] == entries[if j <= i {
                j - 1
            } else {
                j
            }],
{
    let moved = moved_to_front(entries, i);
    let from = |j: int|
        if j == 0 {
            i
        } else if j <= i {
            j - 1
        } else {
            j
        };
    assert forall|j: int| 0 <= j < moved.len() implies #[trigger] moved[j] == entries[from(j)] by {}
    assert forall|a: int, b: int| 0 <= a < b < moved.len() implies (#[trigger] moved[a]).0 != (
    #[trigger] moved[b]).0 by {
        assert(moved[a] == entries[from(a)]);
        assert(moved[b] == entries[from(b)]);
        if from(a) < from(b) {
            assert(entries[from(a)].0 != entries[from(b)].0);
        } else {
            assert(entries[from(b)].0 != entries[from(a)].0);
        }
    }
}

/// A bounded cache of decompressed blocks with least-recently-used eviction.
pub struct BlockCache {
    blocks: LruCache<u64, Block>,
    hits: usize,
    misses: usize,
}

impl View for BlockCache {
    type V = BlockCacheView;

    closed spec fn view(&self) -> BlockCacheView {
        BlockCacheView { entries: lru_entries(self.blocks), hits: self.hits, misses: self.misses }
    }
}

impl BlockCache {
    /// Whether the cache is in order: made for its capacity, and holding each
    /// block once.
    pub closed spec fn wf(&self) -> bool {
        &&& self@.wf()
        &&& lru_cap(self.blocks) == LRU_CACHE_CAPACITY
    }

    /// A well-formed cache has a well-formed view.
    pub proof fn lemma_wf_view(&self)
        requires
            self.wf(),
        ensures
            self@.wf(),
    {
    }

    /// An empty cache that has counted nothing.
    pub fn new() -> (cache: BlockCache)
        ensures
            cache.wf(),
            cache@ == (BlockCacheView { entries: Entries::empty(), hits: 0, misses: 0 }),
    {
        BlockCache { blocks: lru_new(LRU_CACHE_CAPACITY), hits: 0, misses: 0 }
    }

    /// Looks for the block that begins at `key`, and counts the lookup as a
    /// hit or a miss.
    pub fn lookup(&mut self, key: u64) -> (found: Option<Block>)
        requires
            old(self).wf(),
        ensures
            final(self).wf(),
            final(self)@ == old(self)@.after_lookup(key),
            match found {
                Some(block) => old(self)@.has(key) && block@ == old(self)@.block(key),
                None => !old(self)@.has(key),
            },
    {
        proof {
            self@.lemma_lookup_keeps(key);
        }
        let ghost before = self@;
        let found = lru_get(&mut self.blocks, key);
        match found {
            Some(block) => {
                proof {
                    let i = choose|i: int|
                        {
                            &&& 0 <= i < before.entries.len()
                            &&& #[trigger] before.entries[i] == (key, block@)
                            &&& lru_entries(self.blocks) == moved_to_front(before.entries, i)
                        };
                    before.lemma_key_index(i);
                }
                self.hits = if self.hits == usize::MAX {
                    0
                } else {
                    self.hits + 1
                };
                Some(block)
            },
            None => {
                self.misses = if self.misses == usize::MAX {
                    0
                } else {
                    self.misses + 1
                };
                None
            },
        }
    }

    /// Stores `block` as the one that begins at `key`. It becomes the entry
    /// used last; where the cache is full, the entry used longest ago leaves.
    pub fn insert(&mut self, key: u64, block: Block)
        requires
            old(self).wf(),
        ensures
            final(self).wf(),
            final(self)@ == old(self)@.after_insert(key, block@),
    {
        proof {
            self@.lemma_insert_keeps(key, block@);
        }
        lru_put(&mut self.blocks, key, block);
    }

    /// The number of blocks held.
    pub fn len(&self) -> (n: usize)
        ensures
            n == self@.entries.len(),
    {
        lru_len(&self.blocks)
    }

    /// The number of lookups that found their block.
    pub fn hits(&self) -> (n: usize)
        ensures
            n == self@.hits,
    {
        self.hits
    }

    /// The number of lookups that did not find their block.
    pub fn misses(&self) -> (n: usize)
        ensures
            n == self@.misses,
    {
        self.misses
    }

    /// The offset of the block used longest ago, which is the next to leave.
    pub fn peek_lru(&self) -> (key: Option<u64>)
        ensures
            key == self@.least_recent(),
    {
        lru_peek_lru(&self.blocks)
    }
}

} // verus!
