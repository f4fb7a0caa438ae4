//! The skip index: one checkpoint for each block of the data segment, by which
//! a document id is resolved to the block that holds it.

use vstd::prelude::*;
use vstd::slice::slice_to_vec;
use crate::error::DocId;
use crate::error::StoreError;

verus! {

/// One compressed block: its byte range in the data segment and the id of the
/// first document in it.
#[derive(Clone, Copy, Debug, PartialEq, Eq, Structural)]
pub struct Checkpoint {
    pub start_offset: u64,
    pub end_offset: u64,
    pub start_doc: DocId,
}

/// The checkpoints of a store in the order of their blocks, and the number of
/// documents that the blocks hold together.
pub struct SkipIndex {
    checkpoints: Vec<Checkpoint>,
    num_docs: DocId,
}

/// What a skip index stands for.
pub struct SkipIndexView {
    pub checkpoints: Seq<Checkpoint>,
    pub num_docs: DocId,
}

impl SkipIndexView {
    /// The blocks are not empty and lie back to back, each begins with a later
    /// document than the one before, the first begins with document 0, and
    /// the last begins before the documents end. Without documents there is
    /// no block.
    pub open spec fn wf(self) -> bool {
        let cps = self.checkpoints;
        &&& cps.len() == 0 <==> self.num_docs == 0
        &&& cps.len() > 0 ==> cps[0].start_doc == 0 && cps.last().start_doc < self.num_docs
        &&& forall|i: int| 0 <= i < cps.len() ==> (#[trigger] cps[i]).start_offset < cps[i].end_offset
        &&& forall|i: int|
            0 <= i && i + 1 < cps.len() ==> (#[trigger] cps[i]).end_offset == cps[i + 1].start_offset
        &&& forall|i: int, j: int|
            0 <= i < j < cps.len() ==> (#[trigger] cps[i]).start_doc < (#[trigger] cps[j]).start_doc
    }

    /// The id behind the last document of block `i`.
    pub open spec fn end_doc(self, i: int) -> DocId {
        if i + 1 < self.checkpoints.len() {
            self.checkpoints[i + 1].start_doc
        } else {
            self.num_docs
        }
    }

    /// Whether block `i` holds document `doc_id`.
    pub open spec fn covers(self, i: int, doc_id: DocId) -> bool {
        &&& 0 <= i < self.checkpoints.len()
        &&& self.checkpoints[i].start_doc <= doc_id < self.end_doc(i)
    }

    /// The checkpoint of the block that holds `doc_id`, if there is one.
    pub open spec fn seek(self, doc_id: DocId) -> Option<Checkpoint> {
        if exists|i: int| self.covers(i, doc_id) {
            Some(self.checkpoints[choose|i: int| self.covers(i, doc_id)])
        } else {
            None
        }
    }

    /// At most one block holds a given document.
    pub proof fn lemma_covers_unique(self, i: int, j: int, doc_id: DocId)
        requires
            self.wf(),
            self.covers(i, doc_id),
            self.covers(j, doc_id),
        ensures
            i == j,
    {
        if i < j {
            if i + 1 < j {
                assert(self.checkpoints[i + 1].start_doc < self.checkpoints[j].start_doc);
            }
        } else if j < i {
            if j + 1 < i {
                assert(self.checkpoints[j + 1].start_doc < self.checkpoints[i].start_doc);
            }
        }
    }

    /// A document is held by a block exactly if its id is below the number of
    /// documents.
    pub proof fn lemma_seek_some(self, doc_id: DocId)
        requires
            self.wf(),
        ensures
            self.seek(doc_id) is Some <==> doc_id < self.num_docs,
    {
        let cps = self.checkpoints;
        if doc_id < self.num_docs {
            self.lemma_covered_from(0, doc_id);
        } else {
            assert forall|i: int| !self.covers(i, doc_id) by {
                if 0 <= i < cps.len() && i + 1 < cps.len() {
                    if i + 1 < cps.len() - 1 {
                        assert(cps[i + 1].start_doc < cps[cps.len() - 1].start_doc);
                    }
                }
            }
        }
    }

    /// The block that holds a document begins at or before it and ends
    /// behind it, within the documents of the store.
    pub proof fn lemma_seek_covers(self, doc_id: DocId)
        requires
            self.wf(),
            doc_id < self.num_docs,
        ensures
            exists|i: int|
                {
                    &&& #[trigger] self.covers(i, doc_id)
                    &&& self.seek(doc_id) == Some(self.checkpoints[i])
                    &&& self.end_doc(i) <= self.num_docs
                },
    {
        self.lemma_seek_some(doc_id);
        let i = choose|i: int| self.covers(i, doc_id);
        let last = self.checkpoints.len() - 1;
        if i + 1 < last {
            assert(self.checkpoints[i + 1].start_doc < self.checkpoints[last].start_doc);
        }
        assert(self.covers(i, doc_id));
    }

    proof fn lemma_covered_from(self, i: int, doc_id: DocId)
        requires
            self.wf(),
            0 <= i < self.checkpoints.len(),
            self.checkpoints[i].start_doc <= doc_id < self.num_docs,
        ensures
            exists|k: int| self.covers(k, doc_id),
        decreases self.checkpoints.len() - i,
    {
        if doc_id < self.end_doc(i) {
            assert(self.covers(i, doc_id));
        } else {
            self.lemma_covered_from(i + 1, doc_id);
        }
    }

    /// Blocks lie in the data segment in their order: an earlier block ends
    /// where a later one begins, or before.
    pub proof fn lemma_blocks_ordered(self, i: int, j: int)
        requires
            self.wf(),
            0 <= i < j < self.checkpoints.len(),
        ensures
            self.checkpoints[i].end_offset <= self.checkpoints[j].start_offset,
            self.checkpoints[i].start_offset < self.checkpoints[j].start_offset,
        decreases j - i,
    {
        if i + 1 < j {
            self.lemma_blocks_ordered(i + 1, j);
            assert(self.checkpoints[i].end_offset == self.checkpoints[i + 1].start_offset);
        }
    }

    /// A block is known by the offset at which it begins.
    pub proof fn lemma_start_offset_unique(self, i: int, j: int)
        requires
            self.wf(),
            0 <= i < self.checkpoints.len(),
            0 <= j < self.checkpoints.len(),
            self.checkpoints[i].start_offset == self.checkpoints[j].start_offset,
        ensures
            i == j,
    {
        if i < j {
            self.lemma_blocks_ordered(i, j);
        } else if j < i {
            self.lemma_blocks_ordered(j, i);
        }
    }
}

impl View for SkipIndex {
    type V = SkipIndexView;

    closed spec fn view(&self) -> SkipIndexView {
        SkipIndexView { checkpoints: self.checkpoints@, num_docs: self.num_docs }
    }
}

impl SkipIndex {
    /// Whether the index describes a sequence of blocks.
    pub open spec fn wf(&self) -> bool {
        self@.wf()
    }

    /// Makes an index of `checkpoints`, given in the order of their blocks, for
    /// a store of `num_docs` documents. Fails exactly where they do not
    /// describe a sequence of blocks.
    pub fn new(checkpoints: Vec<Checkpoint>, num_docs: DocId) -> (r: Result<SkipIndex, StoreError>)
        ensures
            match r {
                Ok(index) => {
                    &&& index.wf()
                    &&& index@.checkpoints == checkpoints@
                    &&& index@.num_docs == num_docs
                },
                Err(e) => {
                    &&& e == StoreError::Corruption
                    &&& !(SkipIndexView { checkpoints: checkpoints@, num_docs }).wf()
                },
            },
    {
        let ghost view = SkipIndexView { checkpoints: checkpoints@, num_docs };
        let n: usize = checkpoints.len();
        if n == 0 {
            if num_docs == 0 {
                return Ok(SkipIndex { checkpoints, num_docs });
            }
            return Err(StoreError::Corruption);
        }
        if checkpoints[0].start_doc != 0 || checkpoints[n - 1].start_doc >= num_docs {
            return Err(StoreError::Corruption);
        }
        let mut i: usize = 0;
        while i < n
            invariant
                i <= n,
                n == checkpoints@.len(),
                view.checkpoints == checkpoints@,
                forall|k: int| 0 <= k < i ==> (#[trigger] checkpoints@[k]).start_offset < checkpoints@[k].end_offset,
                forall|k: int|
                    0 <= k && k + 1 < n && k < i ==> (#[trigger] checkpoints@[k]).end_offset
                        == checkpoints@[k + 1].start_offset,
                forall|a: int, b: int|
                    0 <= a < b < n && b <= i ==> (#[trigger] checkpoints@[a]).start_doc < (
                    #[trigger] checkpoints@[b]).start_doc,
            decreases n - i,
        {
            let here: Checkpoint = checkpoints[i];
            if here.start_offset >= here.end_offset {
                return Err(StoreError::Corruption);
            }
            if i + 1 < n {
                let next: Checkpoint = checkpoints[i + 1];
                if here.end_offset != next.start_offset || here.start_doc >= next.start_doc {
                    proof {
                        assert(view.checkpoints[i as int] == here);
                        assert(view.checkpoints[i + 1] == next);
                    }
                    return Err(StoreError::Corruption);
                }
                assert forall|a: int, b: int| 0 <= a < b < n && b <= i + 1 implies (
                #[trigger] checkpoints@[a]).start_doc < (#[trigger] checkpoints@[b]).start_doc by {
                    if b == i + 1 && a < i {
                        assert(checkpoints@[a].start_doc < checkpoints@[i as int].start_doc);
                    }
                }
            }
            i = i + 1;
        }
        Ok(SkipIndex { checkpoints, num_docs })
    }

    /// The number of documents in the store.
    pub fn num_docs(&self) -> (n: DocId)
        ensures
            n == self@.num_docs,
    {
        self.num_docs
    }

    /// The checkpoint of the block that holds `doc_id`; `None` exactly where
    /// `doc_id` is not below the number of documents.
    pub fn seek(&self, doc_id: DocId) -> (r: Option<Checkpoint>)
        requires
            self.wf(),
        ensures
            r == self@.seek(doc_id),
            r is Some <==> doc_id < self@.num_docs,
    {
        proof {
            self@.lemma_seek_some(doc_id);
        }
        if doc_id >= self.num_docs {
            return None;
        }
        let mut lo: usize = 0;
        let mut hi: usize = self.checkpoints.len();
        while hi - lo > 1
            invariant
                self.wf(),
                0 <= lo < hi <= self.checkpoints@.len(),
                self.checkpoints@[lo as int].start_doc <= doc_id,
                hi < self.checkpoints@.len() ==> doc_id < self.checkpoints@[hi as int].start_doc,
                doc_id < self.num_docs,
            decreases hi - lo,
        {
            let mid: usize = lo + (hi - lo) / 2;
            if self.checkpoints[mid].start_doc <= doc_id {
                lo = mid;
            } else {
                hi = mid;
            }
        }
        proof {
            assert(self@.covers(lo as int, doc_id));
            let found = choose|i: int| self@.covers(i, doc_id);
            self@.lemma_covers_unique(found, lo as int, doc_id);
        }
        Some(self.checkpoints[lo])
    }

    /// All checkpoints, in the order of their blocks.
    pub fn checkpoints(&self) -> (all: Vec<Checkpoint>)
        ensures
            all@ == self@.checkpoints,
    {
        slice_to_vec(self.checkpoints.as_slice())
    }
}

} // verus!
