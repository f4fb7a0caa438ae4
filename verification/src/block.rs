//! A decompressed block: records one behind the other, each a length written
//! as a variable-length integer and then that many bytes of one document.

use vstd::prelude::*;
use vstd::slice::slice_subrange;
use vstd::slice::slice_to_vec;
use crate::error::StoreError;
use crate::vint::lemma_vint_roundtrip;
use crate::vint::read_vint;
use crate::vint::vint_decode;
use crate::vint::vint_encode;

verus! {

/// The document that is `skip` records behind the front of `block`.
///
/// Each record in front of it is stepped over by its length alone. A length
/// that cannot be read, or that reaches past the end of the block, makes the
/// block corrupt.
pub open spec fn record_at(block: Seq<u8>, skip: nat) -> Result<Seq<u8>, StoreError>
    decreases skip,
{
    match vint_decode(block) {
        None => Err(StoreError::Corruption),
        Some((length, n)) => if n + length > block.len() {
            Err(StoreError::Corruption)
        } else if skip == 0 {
            Ok(block.subrange(n as int, n + length))
        } else {
            record_at(block.skip(n + length), (skip - 1) as nat)
        },
    }
}

/// One document as it lies in a block.
pub open spec fn encode_record(doc: Seq<u8>) -> Seq<u8> {
    vint_encode(doc.len()) + doc
}

/// The block that holds `docs`, in their order.
pub open spec fn encode_block(docs: Seq<Seq<u8>>) -> Seq<u8>
    decreases docs.len(),
{
    if docs.len() == 0 {
        Seq::empty()
    } else {
        encode_record(docs[0]) + encode_block(docs.drop_first())
    }
}

/// Whether a document's length can be written as a record's length.
pub open spec fn fits_record(doc: Seq<u8>) -> bool {
    doc.len() <= u64::MAX
}

/// A block gives back each document that was written into it: the record at
/// position `k` of the block made from `docs` is `docs[k]`, also where more
/// bytes follow the last record.
pub proof fn lemma_record_roundtrip(docs: Seq<Seq<u8>>, k: nat, rest: Seq<u8>)
    requires
        k < docs.len(),
        forall|i: int| 0 <= i < docs.len() ==> fits_record(#[trigger] docs[i]),
    ensures
        record_at(encode_block(docs) + rest, k) == Ok::<Seq<u8>, StoreError>(docs[k as int]),
    decreases k,
{
    let doc = docs[0];
    let tail = encode_block(docs.drop_first()) + rest;
    let block = encode_block(docs) + rest;
    let prefix = vint_encode(doc.len());
    assert(block =~= prefix + (doc + tail));
    lemma_vint_roundtrip(doc.len() as u64, doc + tail);
    let n = prefix.len();
    assert(vint_decode(block) == Some((doc.len() as u64, n)));
    if k == 0 {
        assert(block.subrange(n as int, (n + doc.len()) as int) =~= doc);
    } else {
        assert(block.skip((n + doc.len()) as int) =~= tail);
        assert(docs.drop_first()[k - 1] == docs[k as int]);
        lemma_record_roundtrip(docs.drop_first(), (k - 1) as nat, rest);
    }
}

/// Cuts the document that is `skip` records behind the front out of `block`.
pub fn extract_document(block: &[u8], skip: u32) -> (r: Result<Vec<u8>, StoreError>)
    ensures
        match r {
            Ok(doc) => record_at(block@, skip as nat) == Ok::<Seq<u8>, StoreError>(doc@),
            Err(e) => record_at(block@, skip as nat) == Err::<Seq<u8>, StoreError>(e),
        },
{
    let total: usize = block.len();
    let mut pos: usize = 0;
    let mut left: u32 = skip;
    proof {
        assert(block@.skip(0) =~= block@);
    }
    loop
        invariant
            pos <= total,
            total == block@.len(),
            left <= skip,
            record_at(block@, skip as nat) == record_at(block@.skip(pos as int), left as nat),
        decreases left,
    {
        let cursor = slice_subrange(block, pos, total);
        proof {
            assert(cursor@ =~= block@.skip(pos as int));
        }
        let (length, n) = match read_vint(cursor) {
            Some(found) => found,
            None => {
                return Err(StoreError::Corruption);
            },
        };
        let body: usize = pos + n;
        let room: usize = total - body;
        if length > room as u64 {
            return Err(StoreError::Corruption);
        }
        let end: usize = body + length as usize;
        if left == 0 {
            let doc = slice_to_vec(slice_subrange(block, body, end));
            proof {
                assert(doc@ =~= block@.skip(pos as int).subrange(n as int, n + length));
            }
            return Ok(doc);
        }
        proof {
            assert(block@.skip(pos as int).skip(n + length) =~= block@.skip(end as int));
        }
        pos = end;
        left = left - 1;
    }
}

} // verus!
