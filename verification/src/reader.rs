//! The store reader: from a document id to the document, through the skip
//! index, the block cache and the codec.

use vstd::prelude::*;
use vstd::slice::slice_subrange;
use crate::block::encode_block;
use crate::block::extract_document;
use crate::block::fits_record;
use crate::block::lemma_record_roundtrip;
use crate::block::record_at;
use crate::cache::BlockCache;
use crate::cache::BlockCacheView;
use crate::cache::lemma_moved_to_front;
use crate::cache::next_count;
use crate::cache::LRU_CACHE_CAPACITY;
use crate::lru_cache::key_index;
use crate::codec::Codec;
use crate::error::DocId;
use crate::error::StoreError;
use crate::footer::index_start;
use crate::footer::split_file;
use crate::footer::FOOTER_LEN;
use crate::index::Checkpoint;
use crate::index::SkipIndex;
use crate::index::SkipIndexView;
use crate::lru_cache::share;
use crate::lru_cache::Block;
use crate::lru_cache::Entries;
use crate::space_usage::StoreSpaceUsage;
use crate::vint::vint_decode;
use std::sync::Arc;

verus! {

/// What the result of reading one document stands for.
pub open spec fn doc_view(r: Result<Vec<u8>, StoreError>) -> Result<Seq<u8>, StoreError> {
    match r {
        Ok(doc) => Ok(doc@),
        Err(e) => Err(e),
    }
}

/// What the result of reading a block stands for.
pub open spec fn block_view(r: Result<Block, StoreError>) -> Result<Seq<u8>, StoreError> {
    match r {
        Ok(block) => Ok(block@),
        Err(e) => Err(e),
    }
}

/// The documents that `docs` stand for.
pub open spec fn doc_views(docs: Seq<Vec<u8>>) -> Seq<Seq<u8>> {
    Seq::new(docs.len(), |i: int| docs[i]@)
}

/// What the result of reading several documents stands for.
pub open spec fn docs_view(r: Result<Vec<Vec<u8>>, StoreError>) -> Result<Seq<Seq<u8>>, StoreError> {
    match r {
        Ok(docs) => Ok(doc_views(docs@)),
        Err(e) => Err(e),
    }
}

/// The block of a result, if it is one.
pub open spec fn block_read(r: Result<Seq<u8>, StoreError>) -> Option<Seq<u8>> {
    match r {
        Ok(block) => Some(block),
        Err(_) => None,
    }
}

/// The block made of the documents from `start` up to `end` gives back the
/// document `at` from its place among them.
proof fn lemma_part_roundtrip(docs: Seq<Seq<u8>>, start: int, end: int, at: int)
    requires
        0 <= start <= at < end <= docs.len(),
        forall|i: int| 0 <= i < docs.len() ==> fits_record(#[trigger] docs[i]),
    ensures
        record_at(encode_block(docs.subrange(start, end)), (at - start) as nat) == Ok::<
            Seq<u8>,
            StoreError,
        >(docs[at]),
{
    let part = docs.subrange(start, end);
    assert(encode_block(part) + Seq::<u8>::empty() =~= encode_block(part));
    assert forall|k: int| 0 <= k < part.len() implies fits_record(#[trigger] part[k]) by {
        assert(part[k] == docs[start + k]);
    }
    lemma_record_roundtrip(part, (at - start) as nat, Seq::empty());
}

/// Cutting a document out of a block never fails as a lookup does.
proof fn lemma_record_never_lookup()
    ensures
        forall|block: Seq<u8>, skip: nat| !(#[trigger] record_at(block, skip) matches Err(
            StoreError::Lookup(_),
        )),
{
    assert forall|block: Seq<u8>, skip: nat| !(#[trigger] record_at(block, skip) matches Err(
        StoreError::Lookup(_),
    )) by {
        lemma_record_errors(block, skip);
    }
}

proof fn lemma_record_errors(block: Seq<u8>, skip: nat)
    ensures
        record_at(block, skip) matches Err(e) ==> e == StoreError::Corruption,
    decreases skip,
{
    if let Some((length, n)) = vint_decode(block) {
        if n + length <= block.len() && skip > 0 {
            lemma_record_errors(block.skip((n + length) as int), (skip - 1) as nat);
        }
    }
}

/// Reads documents off a store: the data segment of a store file, its skip
/// index, a codec, and a cache of the blocks used last.
pub struct StoreReader<F: Fn(&[u8]) -> Option<Vec<u8>>> {
    data: Vec<u8>,
    cache: BlockCache,
    skip_index: SkipIndex,
    space_usage: StoreSpaceUsage,
    codec: Codec<F>,
}

impl<F: Fn(&[u8]) -> Option<Vec<u8>>> StoreReader<F> {
    /// The bytes of the data segment.
    pub closed spec fn data(&self) -> Seq<u8> {
        self.data@
    }

    /// The skip index.
    pub closed spec fn index(&self) -> SkipIndexView {
        self.skip_index@
    }

    /// The codec.
    pub closed spec fn codec(&self) -> Codec<F> {
        self.codec
    }

    /// The space usage taken when the store was opened.
    pub closed spec fn usage(&self) -> StoreSpaceUsage {
        self.space_usage
    }

    /// The block cache.
    pub closed spec fn cache_view(&self) -> BlockCacheView {
        self.cache@
    }

    /// The compressed bytes of the block of `checkpoint`; `None` where its
    /// byte range is not one of the data segment.
    pub open spec fn compressed(&self, checkpoint: Checkpoint) -> Option<Seq<u8>> {
        if checkpoint.start_offset <= checkpoint.end_offset <= self.data().len() {
            Some(self.data().subrange(checkpoint.start_offset as int, checkpoint.end_offset as int))
        } else {
            None
        }
    }

    /// The block of `checkpoint` as the store holds it: what the codec makes
    /// of its byte range.
    pub open spec fn block(&self, checkpoint: Checkpoint) -> Result<Seq<u8>, StoreError> {
        match self.compressed(checkpoint) {
            None => Err(StoreError::Io),
            Some(bytes) => match self.codec().decoded(bytes) {
                Some(block) => Ok(block),
                None => Err(StoreError::Corruption),
            },
        }
    }

    /// The document with the id `doc_id` as the store holds it. It depends on
    /// the data segment, the skip index and the codec, not on the cache.
    pub open spec fn document(&self, doc_id: DocId) -> Result<Seq<u8>, StoreError> {
        match self.index().seek(doc_id) {
            None => Err(StoreError::Lookup(doc_id)),
            Some(checkpoint) => match self.block(checkpoint) {
                Ok(block) => record_at(block, (doc_id - checkpoint.start_doc) as nat),
                Err(e) => Err(e),
            },
        }
    }

    /// The documents with the ids `doc_ids`, in their order; where one of them
    /// cannot be read, the error of the first such.
    pub open spec fn documents(&self, doc_ids: Seq<DocId>) -> Result<Seq<Seq<u8>>, StoreError>
        decreases doc_ids.len(),
    {
        if doc_ids.len() == 0 {
            Ok(Seq::empty())
        } else {
            match self.documents(doc_ids.drop_last()) {
                Err(e) => Err(e),
                Ok(docs) => match self.document(doc_ids.last()) {
                    Ok(doc) => Ok(docs.push(doc)),
                    Err(e) => Err(e),
                },
            }
        }
    }

    /// The cache after the block of `checkpoint` was read through it. A block
    /// that is held is a hit. One that is not is a miss, and is stored once
    /// its bytes were read and decompressed.
    pub open spec fn cache_after_read(
        &self,
        cache: BlockCacheView,
        checkpoint: Checkpoint,
    ) -> BlockCacheView {
        if cache.has(checkpoint.start_offset) {
            cache.after_lookup(checkpoint.start_offset)
        } else {
            cache.after_miss(checkpoint.start_offset, block_read(self.block(checkpoint)))
        }
    }

    /// The cache after the document with the id `doc_id` was read. An id
    /// that no block covers leaves it as it is.
    pub open spec fn cache_after_get(&self, cache: BlockCacheView, doc_id: DocId) -> BlockCacheView {
        match self.index().seek(doc_id) {
            None => cache,
            Some(checkpoint) => self.cache_after_read(cache, checkpoint),
        }
    }

    /// The cache after the documents with the ids `doc_ids` were read one
    /// after the other, up to the first that could not be read.
    pub open spec fn cache_after_all(&self, cache: BlockCacheView, doc_ids: Seq<DocId>) -> BlockCacheView
        decreases doc_ids.len(),
    {
        if doc_ids.len() == 0 {
            cache
        } else if self.documents(doc_ids.drop_last()) is Err {
            self.cache_after_all(cache, doc_ids.drop_last())
        } else {
            self.cache_after_get(self.cache_after_all(cache, doc_ids.drop_last()), doc_ids.last())
        }
    }

    /// Whether the byte range of every block that covers one of `doc_ids`
    /// lies in the data segment.
    pub open spec fn prefetchable(&self, doc_ids: Seq<DocId>) -> bool {
        forall|i: int|
            0 <= i < doc_ids.len() ==> match self.index().seek(#[trigger] doc_ids[i]) {
                Some(checkpoint) => self.compressed(checkpoint) is Some,
                None => true,
            }
    }

    /// Whether `cache` holds under the offset of each block of the store, if
    /// anything, that block.
    pub open spec fn coherent(&self, cache: BlockCacheView) -> bool {
        forall|i: int|
            0 <= i < self.index().checkpoints.len() && cache.has(
                (#[trigger] self.index().checkpoints[i]).start_offset,
            ) ==> self.block(self.index().checkpoints[i]) == Ok::<Seq<u8>, StoreError>(
                cache.block(self.index().checkpoints[i].start_offset),
            )
    }

    /// Whether `checkpoint` is one of the skip index.
    pub open spec fn lists(&self, checkpoint: Checkpoint) -> bool {
        exists|i: int|
            0 <= i < self.index().checkpoints.len() && #[trigger] self.index().checkpoints[i]
                == checkpoint
    }

    /// Whether the block cache is in order.
    pub closed spec fn cache_wf(&self) -> bool {
        self.cache.wf()
    }

    /// Whether the reader is in order: the skip index describes a sequence of
    /// blocks, the cache holds no block but as the store holds it, and the
    /// space usage is that of the data segment.
    pub open spec fn wf(&self) -> bool {
        &&& self.index().wf()
        &&& self.cache_wf()
        &&& self.cache_view().wf()
        &&& self.coherent(self.cache_view())
        &&& self.usage().data_bytes() == self.data().len()
    }

    /// Whether two readers read the same store: the same data segment, skip
    /// index, codec and space usage.
    pub open spec fn same_store(&self, other: &Self) -> bool {
        &&& self.data() == other.data()
        &&& self.index() == other.index()
        &&& self.codec() == other.codec()
        &&& self.usage() == other.usage()
    }

    /// A reader of the store with the given data segment and skip index,
    /// whose index segment takes `index_bytes` bytes. Its cache is empty.
    pub fn from_parts(data: Vec<u8>, index_bytes: u64, skip_index: SkipIndex, codec: Codec<F>) -> (reader:
        StoreReader<F>)
        requires
            skip_index.wf(),
            data@.len() + index_bytes <= u64::MAX,
        ensures
            reader.wf(),
            reader.data() == data@,
            reader.index() == skip_index@,
            reader.codec() == codec,
            reader.usage().data_bytes() == data@.len(),
            reader.usage().index_bytes() == index_bytes,
            reader.cache_view() == (BlockCacheView { entries: Entries::empty(), hits: 0, misses: 0 }),
    {
        let space_usage = StoreSpaceUsage::new(data.len() as u64, index_bytes);
        let cache = BlockCache::new();
        proof {
            cache.lemma_wf_view();
        }
        StoreReader { data, cache, skip_index, space_usage, codec }
    }

    /// Whether the reader is one that was just opened on `store_file` with
    /// the skip index `index`: its data segment is the part of the file in
    /// front of the index segment, its space usage gives the lengths of the
    /// two segments, and its cache is empty and has counted nothing.
    pub open spec fn is_opened(&self, store_file: Seq<u8>, index: SkipIndexView, codec: Codec<F>) -> bool {
        &&& self.wf()
        &&& index_start(store_file) == Some(self.data().len())
        &&& self.data() == store_file.subrange(0, self.data().len() as int)
        &&& self.index() == index
        &&& self.codec() == codec
        &&& self.usage().data_bytes() == self.data().len()
        &&& self.usage().index_bytes() == store_file.len() - FOOTER_LEN - self.data().len()
        &&& self.cache_view() == (BlockCacheView { entries: Entries::empty(), hits: 0, misses: 0 })
    }

    /// What opening `store_file` gives once the index segment was decoded to
    /// `decoded`: the checkpoints and the number of documents, or `None`
    /// where the segment could not be decoded.
    pub open spec fn open_result(
        store_file: Seq<u8>,
        decoded: Option<(Vec<Checkpoint>, DocId)>,
        codec: Codec<F>,
        r: Result<StoreReader<F>, StoreError>,
    ) -> bool {
        match decoded {
            Some((checkpoints, num_docs)) => {
                let index = SkipIndexView { checkpoints: checkpoints@, num_docs };
                if index.wf() {
                    r matches Ok(reader) && reader.is_opened(store_file, index, codec)
                } else {
                    r matches Err(e) && e == StoreError::Corruption
                }
            },
            None => r matches Err(e) && e == StoreError::Corruption,
        }
    }

    /// Opens a store reader on the bytes of a store file.
    ///
    /// The footer says where the index segment begins; `read_index` decodes
    /// that segment into the checkpoints of the blocks and the number of
    /// documents. Fails with `Layout` where the file has no footer or the
    /// footer points past the end, and with `Corruption` where the index
    /// segment cannot be decoded or does not describe a sequence of blocks.
    pub fn open<D>(store_file: Vec<u8>, read_index: D, codec: Codec<F>) -> (r: Result<
        StoreReader<F>,
        StoreError,
    >) where D: FnOnce(&[u8]) -> Option<(Vec<Checkpoint>, DocId)>
        requires
            forall|bytes: &[u8]| read_index.requires((bytes,)),
        ensures
            match index_start(store_file@) {
                None => r matches Err(e) && e == StoreError::Layout,
                Some(offset) => exists|bytes: &[u8], decoded: Option<(Vec<Checkpoint>, DocId)>|
                    {
                        &&& bytes@ == store_file@.subrange(
                            offset as int,
                            store_file@.len() - FOOTER_LEN,
                        )
                        &&& #[trigger] read_index.ensures((bytes,), decoded)
                        &&& Self::open_result(store_file@, decoded, codec, r)
                    },
            },
    {
        let mut store_file = store_file;
        let (data_len, index_len, decoded) = match split_file(store_file.as_slice()) {
            Ok((data, index)) => {
                let decoded = read_index(index);
                assert(read_index.ensures((index,), decoded));
                (data.len(), index.len(), decoded)
            },
            Err(e) => {
                return Err(e);
            },
        };
        let (checkpoints, num_docs) = match decoded {
            Some(parts) => parts,
            None => {
                return Err(StoreError::Corruption);
            },
        };
        let skip_index = match SkipIndex::new(checkpoints, num_docs) {
            Ok(skip_index) => skip_index,
            Err(e) => {
                return Err(e);
            },
        };
        store_file.truncate(data_len);
        Ok(Self::from_parts(store_file, index_len as u64, skip_index, codec))
    }

    /// All checkpoints of the store, in the order of their blocks.
    pub fn block_checkpoints(&self) -> (all: Vec<Checkpoint>)
        ensures
            all@ == self.index().checkpoints,
    {
        self.skip_index.checkpoints()
    }

    /// The checkpoint of the block that holds `doc_id`.
    pub fn block_checkpoint(&self, doc_id: DocId) -> (r: Option<Checkpoint>)
        requires
            self.wf(),
        ensures
            r == self.index().seek(doc_id),
            r is Some <==> doc_id < self.index().num_docs,
    {
        self.skip_index.seek(doc_id)
    }

    /// The data segment.
    pub fn block_data(&self) -> (data: &[u8])
        ensures
            data@ == self.data(),
    {
        self.data.as_slice()
    }

    /// The compressed bytes of one block. Fails where the byte range is not
    /// one of the data segment.
    pub fn compressed_block(&self, checkpoint: &Checkpoint) -> (r: Result<&[u8], StoreError>)
        ensures
            match r {
                Ok(bytes) => self.compressed(*checkpoint) == Some(bytes@),
                Err(e) => e == StoreError::Io && self.compressed(*checkpoint) is None,
            },
    {
        let len: usize = self.data.len();
        if checkpoint.start_offset > checkpoint.end_offset || checkpoint.end_offset > len as u64 {
            return Err(StoreError::Io);
        }
        Ok(
            slice_subrange(
                self.data.as_slice(),
                checkpoint.start_offset as usize,
                checkpoint.end_offset as usize,
            ),
        )
    }

    /// Reads the byte range of one block from the data segment and
    /// decompresses it. Fails with `Io` where the range is not one of the data
    /// segment, and with `Corruption` where the codec rejects the bytes.
    pub fn fetch_and_decompress(&self, checkpoint: &Checkpoint) -> (r: Result<Block, StoreError>)
        ensures
            block_view(r) == self.block(*checkpoint),
    {
        let compressed = match self.compressed_block(checkpoint) {
            Ok(bytes) => bytes,
            Err(e) => {
                return Err(e);
            },
        };
        match self.codec.decompress(compressed) {
            Some(bytes) => Ok(Arc::new(bytes)),
            None => Err(StoreError::Corruption),
        }
    }

    /// Reads the block of `checkpoint` through the cache. A block that the
    /// cache holds is handed out as it is. One that it does not hold is cut
    /// out of the data segment, decompressed, and stored in the cache.
    pub fn read_block(&mut self, checkpoint: &Checkpoint) -> (r: Result<Block, StoreError>)
        requires
            old(self).wf(),
            old(self).lists(*checkpoint),
        ensures
            final(self).wf(),
            final(self).same_store(old(self)),
            block_view(r) == old(self).block(*checkpoint),
            final(self).cache_view() == old(self).cache_after_read(
                old(self).cache_view(),
                *checkpoint,
            ),
    {
        let key: u64 = checkpoint.start_offset;
        let ghost before = self.cache_view();
        proof {
            before.lemma_lookup_keeps(key);
        }
        if let Some(block) = self.cache.lookup(key) {
            return Ok(block);
        }
        let block = match self.fetch_and_decompress(checkpoint) {
            Ok(block) => block,
            Err(e) => {
                return Err(e);
            },
        };
        proof {
            let missed = before.after_lookup(key);
            missed.lemma_insert_keeps(key, block@);
            let after = missed.after_insert(key, block@);
            assert forall|i: int|
                0 <= i < self.index().checkpoints.len() && after.has(
                    (#[trigger] self.index().checkpoints[i]).start_offset,
                ) implies self.block(self.index().checkpoints[i]) == Ok::<Seq<u8>, StoreError>(
                after.block(self.index().checkpoints[i].start_offset),
            ) by {
                let other = self.index().checkpoints[i];
                if other.start_offset == key {
                    let here = choose|j: int|
                        0 <= j < self.index().checkpoints.len()
                            && #[trigger] self.index().checkpoints[j] == *checkpoint;
                    self.index().lemma_start_offset_unique(i, here);
                }
            }
        }
        self.cache.insert(key, share(&block));
        Ok(block)
    }

    /// Checks that the blocks of `checkpoints` can all be read from the data
    /// segment, before any of them is decompressed.
    pub fn cache_blocks_multiple(&self, checkpoints: &[Checkpoint]) -> (r: Result<(), StoreError>)
        ensures
            r is Ok <==> forall|i: int|
                0 <= i < checkpoints@.len() ==> self.compressed(#[trigger] checkpoints@[i]) is Some,
            r matches Err(e) ==> e == StoreError::Io,
    {
        let mut i: usize = 0;
        while i < checkpoints.len()
            invariant
                i <= checkpoints@.len(),
                forall|k: int| 0 <= k < i ==> self.compressed(#[trigger] checkpoints@[k]) is Some,
            decreases checkpoints@.len() - i,
        {
            if self.compressed_block(&checkpoints[i]).is_err() {
                return Err(StoreError::Io);
            }
            i = i + 1;
        }
        Ok(())
    }

    /// Reads the document with the id `doc_id`.
    ///
    /// Fails with `Lookup` where no block covers the id, with `Io` where the
    /// byte range of its block is not one of the data segment, and with
    /// `Corruption` where the codec rejects the block or the records in it do
    /// not reach the document. What is read does not depend on the cache.
    pub fn get(&mut self, doc_id: DocId) -> (r: Result<Vec<u8>, StoreError>)
        requires
            old(self).wf(),
        ensures
            final(self).wf(),
            final(self).same_store(old(self)),
            doc_view(r) == old(self).document(doc_id),
            r matches Err(StoreError::Lookup(_)) <==> doc_id >= old(self).index().num_docs,
            final(self).cache_view() == old(self).cache_after_get(old(self).cache_view(), doc_id),
    {
        proof {
            lemma_record_never_lookup();
        }
        let checkpoint = match self.block_checkpoint(doc_id) {
            Some(checkpoint) => checkpoint,
            None => {
                return Err(StoreError::Lookup(doc_id));
            },
        };
        proof {
            let i = choose|i: int| self.index().covers(i, doc_id);
            assert(self.index().covers(i, doc_id));
            assert(self.index().checkpoints[i] == checkpoint);
        }
        let block = match self.read_block(&checkpoint) {
            Ok(block) => block,
            Err(e) => {
                return Err(e);
            },
        };
        extract_document(block.as_slice(), doc_id - checkpoint.start_doc)
    }

    /// Whether the store holds `docs`: there are as many documents as the
    /// skip index counts, and each block is made of the documents that its
    /// checkpoint covers, in their order.
    pub open spec fn holds(&self, docs: Seq<Seq<u8>>) -> bool {
        &&& self.index().num_docs == docs.len()
        &&& forall|i: int|
            0 <= i < self.index().checkpoints.len() ==> self.block(
                #[trigger] self.index().checkpoints[i],
            ) == Ok::<Seq<u8>, StoreError>(
                encode_block(
                    docs.subrange(
                        self.index().checkpoints[i].start_doc as int,
                        self.index().end_doc(i) as int,
                    ),
                ),
            )
    }

    /// A store gives back what was written: where it holds `docs`, the
    /// document with an id below their number is the one written under that
    /// id.
    pub proof fn lemma_reads_what_was_written(&self, docs: Seq<Seq<u8>>, doc_id: DocId)
        requires
            self.index().wf(),
            self.holds(docs),
            forall|i: int| 0 <= i < docs.len() ==> fits_record(#[trigger] docs[i]),
            doc_id < self.index().num_docs,
        ensures
            self.document(doc_id) == Ok::<Seq<u8>, StoreError>(docs[doc_id as int]),
    {
        let index = self.index();
        index.lemma_seek_covers(doc_id);
        let i = choose|i: int|
            {
                &&& #[trigger] index.covers(i, doc_id)
                &&& index.seek(doc_id) == Some(index.checkpoints[i])
                &&& index.end_doc(i) <= index.num_docs
            };
        let start = index.checkpoints[i].start_doc as int;
        let end = index.end_doc(i) as int;
        assert(self.block(index.checkpoints[i]) == Ok::<Seq<u8>, StoreError>(
            encode_block(docs.subrange(start, end)),
        ));
        lemma_part_roundtrip(docs, start, end, doc_id as int);
    }

    /// An id that is not below the number of documents is never read: the
    /// lookup fails with that id, and the cache stays as it is.
    pub proof fn lemma_lookup_fails(&self, cache: BlockCacheView, doc_id: DocId)
        requires
            self.index().wf(),
            doc_id >= self.index().num_docs,
        ensures
            self.document(doc_id) == Err::<Seq<u8>, StoreError>(StoreError::Lookup(doc_id)),
            self.cache_after_get(cache, doc_id) == cache,
    {
        self.index().lemma_seek_some(doc_id);
    }

    /// What reading a document does to the counts and the size of the
    /// cache. Where the cache holds the block of the document, the read is a
    /// hit: one more hit, as many misses and as many blocks as before. Where
    /// it does not, the read is a miss: one more miss, as many hits, and at
    /// most one block more, within the capacity.
    pub proof fn lemma_get_counts(&self, cache: BlockCacheView, doc_id: DocId)
        requires
            self.index().wf(),
            cache.wf(),
            cache.hits < usize::MAX,
            cache.misses < usize::MAX,
            doc_id < self.index().num_docs,
        ensures
            self.index().seek(doc_id) matches Some(checkpoint) && ({
                let after = self.cache_after_get(cache, doc_id);
                if cache.has(checkpoint.start_offset) {
                    &&& after.hits == cache.hits + 1
                    &&& after.misses == cache.misses
                    &&& after.entries.len() == cache.entries.len()
                } else {
                    &&& after.misses == cache.misses + 1
                    &&& after.hits == cache.hits
                    &&& cache.entries.len() <= after.entries.len() <= cache.entries.len() + 1
                    &&& after.entries.len() <= LRU_CACHE_CAPACITY
                }
            }),
    {
        self.index().lemma_seek_some(doc_id);
        let checkpoint = self.index().seek(doc_id).unwrap();
        if cache.has(checkpoint.start_offset) {
            cache.lemma_hit(checkpoint.start_offset);
        } else {
            cache.lemma_miss(checkpoint.start_offset, block_read(self.block(checkpoint)));
        }
    }

    /// A block that was just read is the one used last, and reading a
    /// document of it again is a hit: whatever the cache held before, a read
    /// that found its block, in the cache or in the data segment, is followed
    /// by a hit on the same block.
    pub proof fn lemma_get_again_hits(&self, cache: BlockCacheView, doc_id: DocId, again: DocId)
        requires
            self.index().wf(),
            cache.wf(),
            self.index().seek(doc_id) matches Some(checkpoint) && self.block(checkpoint) is Ok,
            self.index().seek(again) == self.index().seek(doc_id),
        ensures
            ({
                let key = self.index().seek(doc_id).unwrap().start_offset;
                let after = self.cache_after_get(cache, doc_id);
                let twice = self.cache_after_get(after, again);
                &&& after.wf()
                &&& after.most_recent() == Some(key)
                &&& twice.hits == next_count(after.hits)
                &&& twice.misses == after.misses
                &&& twice.entries.len() == after.entries.len()
            }),
    {
        let checkpoint = self.index().seek(doc_id).unwrap();
        let key = checkpoint.start_offset;
        let after = self.cache_after_get(cache, doc_id);
        cache.lemma_lookup_keeps(key);
        if cache.has(key) {
            lemma_moved_to_front(cache.entries, key_index(cache.entries, key));
        } else {
            cache.after_lookup(key).lemma_insert_keeps(key, self.block(checkpoint).unwrap());
        }
        after.lemma_most_recent_is_held();
        after.lemma_lookup_keeps(key);
    }

    /// Once a document cannot be read, the documents after it are not read:
    /// the result and the cache stay what they were at the failure.
    pub proof fn lemma_documents_stop(&self, cache: BlockCacheView, doc_ids: Seq<DocId>, k: int)
        requires
            0 <= k <= doc_ids.len(),
            self.documents(doc_ids.take(k)) is Err,
        ensures
            self.documents(doc_ids) == self.documents(doc_ids.take(k)),
            self.cache_after_all(cache, doc_ids) == self.cache_after_all(cache, doc_ids.take(k)),
        decreases doc_ids.len() - k,
    {
        if k == doc_ids.len() {
            assert(doc_ids.take(k) =~= doc_ids);
        } else {
            let longer = doc_ids.take(k + 1);
            assert(longer.drop_last() =~= doc_ids.take(k));
            self.lemma_documents_stop(cache, doc_ids, k + 1);
        }
    }

    /// Reading several documents is reading each of them: where all can be
    /// read, the result holds, place by place, what reading each id alone
    /// gives; otherwise it is the error of the first id that cannot be read.
    pub proof fn lemma_documents_each(&self, doc_ids: Seq<DocId>)
        ensures
            match self.documents(doc_ids) {
                Ok(docs) => {
                    &&& docs.len() == doc_ids.len()
                    &&& forall|i: int|
                        0 <= i < doc_ids.len() ==> self.document(#[trigger] doc_ids[i]) == Ok::<
                            Seq<u8>,
                            StoreError,
                        >(docs[i])
                },
                Err(e) => exists|k: int|
                    {
                        &&& 0 <= k < doc_ids.len()
                        &&& self.document(#[trigger] doc_ids[k]) == Err::<Seq<u8>, StoreError>(e)
                        &&& forall|i: int| 0 <= i < k ==> self.document(#[trigger] doc_ids[i]) is Ok
                    },
            },
        decreases doc_ids.len(),
    {
        if doc_ids.len() > 0 {
            let front = doc_ids.drop_last();
            self.lemma_documents_each(front);
            assert forall|i: int| 0 <= i < front.len() implies front[i] == doc_ids[i] by {}
            match self.documents(front) {
                Ok(docs) => {
                    match self.document(doc_ids.last()) {
                        Ok(doc) => {
                            let all = docs.push(doc);
                            assert forall|i: int| 0 <= i < doc_ids.len() implies self.document(
                                #[trigger] doc_ids[i],
                            ) == Ok::<Seq<u8>, StoreError>(all[i]) by {
                                if i < front.len() {
                                    assert(front[i] == doc_ids[i]);
                                }
                            }
                        },
                        Err(e) => {
                            let k = doc_ids.len() - 1;
                            assert forall|i: int| 0 <= i < k implies self.document(
                                #[trigger] doc_ids[i],
                            ) is Ok by {
                                assert(front[i] == doc_ids[i]);
                            }
                            assert(self.document(doc_ids[k]) == Err::<Seq<u8>, StoreError>(e));
                        },
                    }
                },
                Err(e) => {
                    let k = choose|k: int|
                        {
                            &&& 0 <= k < front.len()
                            &&& self.document(#[trigger] front[k]) == Err::<Seq<u8>, StoreError>(e)
                            &&& forall|i: int| 0 <= i < k ==> self.document(#[trigger] front[i]) is Ok
                        };
                    assert(front[k] == doc_ids[k]);
                    assert forall|i: int| 0 <= i < k implies self.document(
                        #[trigger] doc_ids[i],
                    ) is Ok by {
                        assert(front[i] == doc_ids[i]);
                    }
                    assert(self.document(doc_ids[k]) == Err::<Seq<u8>, StoreError>(e));
                },
            }
        }
    }

    /// Whether `checkpoint` is that of a block that covers one of the first
    /// `upto` of `doc_ids`.
    pub open spec fn resolves(&self, doc_ids: Seq<DocId>, upto: int, checkpoint: Checkpoint) -> bool {
        exists|j: int|
            0 <= j < upto && j < doc_ids.len() && self.index().seek(#[trigger] doc_ids[j]) == Some(
                checkpoint,
            )
    }

    /// The checkpoints of the blocks that cover `doc_ids`, one for each id
    /// that a block covers.
    fn resolve(&self, doc_ids: &[DocId]) -> (checkpoints: Vec<Checkpoint>)
        requires
            self.wf(),
        ensures
            forall|k: int|
                0 <= k < checkpoints@.len() ==> self.resolves(
                    doc_ids@,
                    doc_ids@.len() as int,
                    #[trigger] checkpoints@[k],
                ),
            forall|j: int|
                0 <= j < doc_ids@.len() ==> match self.index().seek(#[trigger] doc_ids@[j]) {
                    Some(checkpoint) => checkpoints@.contains(checkpoint),
                    None => true,
                },
    {
        let n: usize = doc_ids.len();
        let mut checkpoints: Vec<Checkpoint> = Vec::new();
        let mut i: usize = 0;
        while i < n
            invariant
                i <= n,
                n == doc_ids@.len(),
                self.wf(),
                forall|k: int|
                    0 <= k < checkpoints@.len() ==> self.resolves(
                        doc_ids@,
                        i as int,
                        #[trigger] checkpoints@[k],
                    ),
                forall|j: int|
                    0 <= j < i ==> match self.index().seek(#[trigger] doc_ids@[j]) {
                        Some(checkpoint) => checkpoints@.contains(checkpoint),
                        None => true,
                    },
            decreases n - i,
        {
            let ghost before = checkpoints@;
            let found = self.block_checkpoint(doc_ids[i]);
            if let Some(checkpoint) = found {
                checkpoints.push(checkpoint);
            }
            proof {
                assert forall|k: int| 0 <= k < checkpoints@.len() implies self.resolves(
                    doc_ids@,
                    i + 1,
                    #[trigger] checkpoints@[k],
                ) by {
                    if k < before.len() {
                        assert(checkpoints@[k] == before[k]);
                        let j = choose|j: int|
                            0 <= j < i && j < doc_ids@.len() && self.index().seek(
                                #[trigger] doc_ids@[j],
                            ) == Some(before[k]);
                        assert(self.index().seek(doc_ids@[j]) == Some(checkpoints@[k]));
                    } else {
                        assert(self.index().seek(doc_ids@[i as int]) == Some(checkpoints@[k]));
                    }
                }
                assert forall|j: int| 0 <= j < i + 1 implies match self.index().seek(
                    #[trigger] doc_ids@[j],
                ) {
                    Some(checkpoint) => checkpoints@.contains(checkpoint),
                    None => true,
                } by {
                    if let Some(checkpoint) = self.index().seek(doc_ids@[j]) {
                        if j < i {
                            let k = choose|k: int|
                                0 <= k < before.len() && before[k] == checkpoint;
                            assert(checkpoints@[k] == checkpoint);
                        } else {
                            assert(checkpoints@[before.len() as int] == checkpoint);
                        }
                    }
                }
            }
            i = i + 1;
        }
        checkpoints
    }

    /// Checks, before any document is read, that the blocks that cover
    /// `doc_ids` can all be read from the data segment.
    fn prefetch(&self, doc_ids: &[DocId]) -> (r: Result<(), StoreError>)
        requires
            self.wf(),
        ensures
            r is Ok <==> self.prefetchable(doc_ids@),
            r matches Err(e) ==> e == StoreError::Io,
    {
        let checkpoints = self.resolve(doc_ids);
        let r = self.cache_blocks_multiple(checkpoints.as_slice());
        proof {
            if r is Ok {
                assert forall|j: int| 0 <= j < doc_ids@.len() implies match self.index().seek(
                    #[trigger] doc_ids@[j],
                ) {
                    Some(checkpoint) => self.compressed(checkpoint) is Some,
                    None => true,
                } by {
                    if let Some(checkpoint) = self.index().seek(doc_ids@[j]) {
                        let k = choose|k: int|
                            0 <= k < checkpoints@.len() && checkpoints@[k] == checkpoint;
                        assert(self.compressed(checkpoints@[k]) is Some);
                    }
                }
            } else {
                let k = choose|k: int|
                    0 <= k < checkpoints@.len() && !(self.compressed(
                        #[trigger] checkpoints@[k],
                    ) is Some);
                assert(self.resolves(doc_ids@, doc_ids@.len() as int, checkpoints@[k]));
                let j = choose|j: int|
                    0 <= j < doc_ids@.len() && self.index().seek(#[trigger] doc_ids@[j]) == Some(
                        checkpoints@[k],
                    );
                assert(self.index().seek(doc_ids@[j]) == Some(checkpoints@[k]));
            }
        }
        r
    }

    /// Two readers of the same store hold the same documents, and reading one
    /// does to a cache what reading it from the other does.
    pub proof fn lemma_same_store(&self, other: &Self, cache: BlockCacheView, doc_id: DocId)
        requires
            self.same_store(other),
        ensures
            self.document(doc_id) == other.document(doc_id),
            self.cache_after_get(cache, doc_id) == other.cache_after_get(cache, doc_id),
    {
        match self.index().seek(doc_id) {
            Some(checkpoint) => {
                assert(self.compressed(checkpoint) == other.compressed(checkpoint));
                assert(self.block(checkpoint) == other.block(checkpoint));
            },
            None => {},
        }
    }

    /// Reads each of `doc_ids` in turn, up to the first that fails.
    fn get_each(&mut self, doc_ids: &[DocId]) -> (r: Result<Vec<Vec<u8>>, StoreError>)
        requires
            old(self).wf(),
        ensures
            final(self).wf(),
            final(self).same_store(old(self)),
            docs_view(r) == old(self).documents(doc_ids@),
            final(self).cache_view() == old(self).cache_after_all(old(self).cache_view(), doc_ids@),
    {
        let n: usize = doc_ids.len();
        let mut docs: Vec<Vec<u8>> = Vec::new();
        let mut i: usize = 0;
        proof {
            assert(doc_ids@.take(0) =~= Seq::<DocId>::empty());
            assert(doc_views(docs@) =~= Seq::<Seq<u8>>::empty());
        }
        while i < n
            invariant
                i <= n,
                n == doc_ids@.len(),
                self.wf(),
                self.same_store(old(self)),
                old(self).documents(doc_ids@.take(i as int)) == Ok::<Seq<Seq<u8>>, StoreError>(
                    doc_views(docs@),
                ),
                self.cache_view() == old(self).cache_after_all(
                    old(self).cache_view(),
                    doc_ids@.take(i as int),
                ),
            decreases n - i,
        {
            let ghost upto = doc_ids@.take(i + 1);
            let ghost before = docs@;
            let ghost cache = self.cache_view();
            proof {
                assert(upto.drop_last() =~= doc_ids@.take(i as int));
                assert(upto.last() == doc_ids@[i as int]);
                self.lemma_same_store(old(self), cache, doc_ids@[i as int]);
            }
            match self.get(doc_ids[i]) {
                Ok(doc) => {
                    docs.push(doc);
                    proof {
                        assert(doc_views(docs@) =~= doc_views(before).push(doc@));
                    }
                },
                Err(e) => {
                    proof {
                        old(self).lemma_documents_stop(old(self).cache_view(), doc_ids@, i + 1);
                    }
                    return Err(e);
                },
            }
            i = i + 1;
        }
        proof {
            assert(doc_ids@.take(n as int) =~= doc_ids@);
        }
        Ok(docs)
    }

    /// Reads the documents with the ids `doc_ids`, in their order.
    ///
    /// First the blocks that cover the ids are resolved, and their byte
    /// ranges are checked against the data segment: where one cannot be
    /// read, the whole call fails with `Io` and the cache stays untouched.
    /// Ids that no block covers take no part in this. Then each id is read as
    /// `get` reads it, and the first that fails ends the call with its error.
    pub fn get_multiple(&mut self, doc_ids: &[DocId]) -> (r: Result<Vec<Vec<u8>>, StoreError>)
        requires
            old(self).wf(),
        ensures
            final(self).wf(),
            final(self).same_store(old(self)),
            old(self).prefetchable(doc_ids@) ==> {
                &&& docs_view(r) == old(self).documents(doc_ids@)
                &&& final(self).cache_view() == old(self).cache_after_all(
                    old(self).cache_view(),
                    doc_ids@,
                )
            },
            !old(self).prefetchable(doc_ids@) ==> {
                &&& r matches Err(e) && e == StoreError::Io
                &&& final(self).cache_view() == old(self).cache_view()
            },
    {
        match self.prefetch(doc_ids) {
            Ok(_) => self.get_each(doc_ids),
            Err(e) => Err(e),
        }
    }

    /// The block cache, for a look at what it holds and has counted.
    pub fn cache(&self) -> (cache: &BlockCache)
        ensures
            cache@ == self.cache_view(),
    {
        &self.cache
    }

    /// The space usage of the store: the snapshot taken when it was opened.
    pub fn space_usage(&self) -> (usage: StoreSpaceUsage)
        ensures
            usage == self.usage(),
            self.wf() ==> usage.data_bytes() == self.data().len(),
    {
        self.space_usage
    }
}

} // verus!
