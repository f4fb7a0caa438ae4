//! The codec by which the blocks of a data segment were compressed.

use vstd::prelude::*;

verus! {

/// What a decompressed block stands for.
pub open spec fn bytes_view(block: Option<Vec<u8>>) -> Option<Seq<u8>> {
    match block {
        Some(bytes) => Some(bytes@),
        None => None,
    }
}

/// Whether `decompress` can be called on every input, and gives for the same
/// bytes the same block every time, or fails every time.
pub open spec fn is_codec<F: Fn(&[u8]) -> Option<Vec<u8>>>(decompress: F) -> bool {
    &&& forall|input: &[u8]| decompress.requires((input,))
    &&& forall|a: &[u8], b: &[u8], x: Option<Vec<u8>>, y: Option<Vec<u8>>|
        a@ == b@ && #[trigger] decompress.ensures((a,), x) && #[trigger] decompress.ensures((b,), y)
            ==> bytes_view(x) == bytes_view(y)
}

/// A function that turns the bytes of a compressed block back into the
/// block, or rejects them with `None`.
pub struct Codec<F: Fn(&[u8]) -> Option<Vec<u8>>> {
    decompress: F,
}

impl<F: Fn(&[u8]) -> Option<Vec<u8>>> Codec<F> {
    #[verifier::type_invariant]
    spec fn inv(self) -> bool {
        is_codec(self.decompress)
    }

    /// The function that decompresses.
    pub closed spec fn function(self) -> F {
        self.decompress
    }

    /// Whether the function gives `block` for `compressed`.
    pub closed spec fn gives(self, compressed: Seq<u8>, block: Option<Seq<u8>>) -> bool {
        exists|input: &[u8], output: Option<Vec<u8>>|
            input@ == compressed && #[trigger] self.decompress.ensures((input,), output)
                && bytes_view(output) == block
    }

    /// The block that `compressed` stands for; `None` where the codec rejects
    /// the bytes as malformed or cut short.
    pub closed spec fn decoded(self, compressed: Seq<u8>) -> Option<Seq<u8>> {
        if exists|block: Option<Seq<u8>>| self.gives(compressed, block) {
            choose|block: Option<Seq<u8>>| self.gives(compressed, block)
        } else {
            None
        }
    }

    /// The codec that decompresses with `decompress`.
    pub fn new(decompress: F) -> (codec: Codec<F>)
        requires
            is_codec(decompress),
        ensures
            codec.function() == decompress,
    {
        Codec { decompress }
    }

    /// What the function gives for some bytes is what the codec makes of
    /// them.
    pub proof fn lemma_decoded(self, input: &[u8], output: Option<Vec<u8>>)
        requires
            is_codec(self.function()),
            self.function().ensures((input,), output),
        ensures
            self.decoded(input@) == bytes_view(output),
    {
        assert(self.gives(input@, bytes_view(output)));
        let chosen = self.decoded(input@);
        assert(self.gives(input@, chosen));
    }

    /// Decompresses one block.
    pub fn decompress(&self, compressed: &[u8]) -> (block: Option<Vec<u8>>)
        ensures
            bytes_view(block) == self.decoded(compressed@),
    {
        proof {
            use_type_invariant(self);
        }
        let block = (self.decompress)(compressed);
        proof {
            assert(self.decompress.ensures((compressed,), block));
            assert(self.gives(compressed@, bytes_view(block)));
            let chosen = self.decoded(compressed@);
            assert(self.gives(compressed@, chosen));
        }
        block
    }
}

} // verus!
