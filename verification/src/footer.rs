//! The layout of a store file: data segment, index segment, and a footer of
//! eight bytes that holds, low byte first, the offset at which the index
//! segment begins.

use vstd::prelude::*;
use vstd::slice::slice_subrange;
use crate::error::StoreError;

verus! {

/// The length of the footer in bytes.
pub const FOOTER_LEN: usize = 8;

/// The number that `bytes` stand for, low byte first.
pub open spec fn le_value(bytes: Seq<u8>) -> nat
    decreases bytes.len(),
{
    if bytes.len() == 0 {
        0
    } else {
        bytes[0] as nat + 256 * le_value(bytes.drop_first())
    }
}

/// The offset that the footer of `file` holds; `None` where `file` is shorter
/// than a footer.
pub open spec fn footer_value(file: Seq<u8>) -> Option<nat> {
    if file.len() < FOOTER_LEN {
        None
    } else {
        Some(le_value(file.subrange(file.len() - FOOTER_LEN, file.len() as int)))
    }
}

/// Where the index segment of `file` begins, which is also the length of the
/// data segment; `None` where there is no footer or where it points past the
/// bytes in front of it.
pub open spec fn index_start(file: Seq<u8>) -> Option<nat> {
    match footer_value(file) {
        Some(offset) => if offset <= file.len() - FOOTER_LEN {
            Some(offset)
        } else {
            None
        },
        None => None,
    }
}

/// 256 to the power `k`.
spec fn pow256(k: nat) -> nat
    decreases k,
{
    if k == 0 {
        1
    } else {
        256 * pow256((k - 1) as nat)
    }
}

proof fn lemma_pow256_table()
    ensures
        pow256(0) == 1,
        pow256(1) == 0x100,
        pow256(2) == 0x1_0000,
        pow256(3) == 0x100_0000,
        pow256(4) == 0x1_0000_0000,
        pow256(5) == 0x100_0000_0000,
        pow256(6) == 0x1_0000_0000_0000,
        pow256(7) == 0x100_0000_0000_0000,
        pow256(8) == 0x1_0000_0000_0000_0000,
{
    reveal_with_fuel(pow256, 10);
}

/// Reads the eight bytes of a footer as a number, low byte first.
fn read_footer(footer: &[u8]) -> (value: u64)
    requires
        footer@.len() == FOOTER_LEN,
    ensures
        value == le_value(footer@),
{
    let mut value: u64 = 0;
    let mut i: usize = FOOTER_LEN;
    proof {
        lemma_pow256_table();
        assert(footer@.skip(8) =~= Seq::<u8>::empty());
    }
    while i > 0
        invariant
            i <= FOOTER_LEN,
            footer@.len() == FOOTER_LEN,
            value == le_value(footer@.skip(i as int)),
            value < pow256((FOOTER_LEN - i) as nat),
        decreases i,
    {
        i = i - 1;
        let b: u8 = footer[i];
        proof {
            lemma_pow256_table();
            assert(footer@.skip(i as int).drop_first() =~= footer@.skip(i as int + 1));
            assert(pow256((FOOTER_LEN - i) as nat) == 256 * pow256((FOOTER_LEN - i - 1) as nat));
        }
        value = value * 256 + b as u64;
    }
    proof {
        assert(footer@.skip(0) =~= footer@);
    }
    value
}

/// Splits a store file into its data segment and its index segment.
///
/// Fails where the file has no room for a footer, or where the footer points
/// past the end of what precedes it.
pub fn split_file(store_file: &[u8]) -> (r: Result<(&[u8], &[u8]), StoreError>)
    ensures
        match r {
            Ok((data, index)) => {
                &&& index_start(store_file@) == Some(data@.len())
                &&& data@ == store_file@.subrange(0, data@.len() as int)
                &&& index@ == store_file@.subrange(
                    data@.len() as int,
                    store_file@.len() - FOOTER_LEN,
                )
            },
            Err(e) => e == StoreError::Layout && index_start(store_file@) is None,
        },
{
    let total: usize = store_file.len();
    if total < FOOTER_LEN {
        return Err(StoreError::Layout);
    }
    let body_len: usize = total - FOOTER_LEN;
    let offset: u64 = read_footer(slice_subrange(store_file, body_len, total));
    if offset > body_len as u64 {
        return Err(StoreError::Layout);
    }
    let data_len: usize = offset as usize;
    Ok((slice_subrange(store_file, 0, data_len), slice_subrange(store_file, data_len, body_len)))
}

} // verus!
