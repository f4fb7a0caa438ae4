//! How many bytes of a store file its two segments take.

use vstd::prelude::*;

verus! {

/// The byte lengths of the data segment and of the index segment of a store.
#[derive(Clone, Copy, Debug, PartialEq, Eq, Structural)]
pub struct StoreSpaceUsage {
    data_bytes: u64,
    index_bytes: u64,
}

impl StoreSpaceUsage {
    #[verifier::type_invariant]
    spec fn sum_fits(self) -> bool {
        self.data_bytes + self.index_bytes <= u64::MAX
    }

    /// The length of the data segment.
    pub closed spec fn data_bytes(self) -> u64 {
        self.data_bytes
    }

    /// The length of the index segment.
    pub closed spec fn index_bytes(self) -> u64 {
        self.index_bytes
    }

    /// The usage of a store with segments of the given lengths.
    pub fn new(data_bytes: u64, index_bytes: u64) -> (usage: StoreSpaceUsage)
        requires
            data_bytes + index_bytes <= u64::MAX,
        ensures
            usage.data_bytes() == data_bytes,
            usage.index_bytes() == index_bytes,
    {
        StoreSpaceUsage { data_bytes, index_bytes }
    }

    /// The bytes that the compressed blocks take.
    pub fn data_usage(&self) -> (n: u64)
        ensures
            n == self.data_bytes(),
    {
        self.data_bytes
    }

    /// The bytes that the serialized skip index takes.
    pub fn index_usage(&self) -> (n: u64)
        ensures
            n == self.index_bytes(),
    {
        self.index_bytes
    }

    /// The bytes that both segments take together.
    pub fn total(&self) -> (n: u64)
        ensures
            n == self.data_bytes() + self.index_bytes(),
    {
        proof {
            use_type_invariant(self);
        }
        self.data_bytes + self.index_bytes
    }
}

} // verus!
