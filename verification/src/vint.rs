//! Variable-length integers: seven bits a byte, low bits first, the last byte
//! marked by its high bit.

use vstd::prelude::*;

verus! {

/// The most bytes a 64-bit value takes.
pub const MAX_VINT_LEN: usize = 10;

/// 128 to the power `k`.
pub open spec fn pow128(k: nat) -> nat
    decreases k,
{
    if k == 0 {
        1
    } else {
        128 * pow128((k - 1) as nat)
    }
}

/// The value and the length of the variable-length integer that `bytes` begins
/// with, whatever its size; `None` where `bytes` ends before a marked byte.
pub open spec fn vint_parse(bytes: Seq<u8>) -> Option<(nat, nat)>
    decreases bytes.len(),
{
    if bytes.len() == 0 {
        None
    } else if bytes[0] >= 128 {
        Some(((bytes[0] - 128) as nat, 1))
    } else {
        match vint_parse(bytes.drop_first()) {
            Some((rest, n)) => Some((bytes[0] as nat + 128 * rest, n + 1)),
            None => None,
        }
    }
}

/// What reading one variable-length integer from the front of `bytes` gives:
/// the value and the number of bytes it took. `None` where `bytes` ends first,
/// where the integer is longer than ten bytes, or where it exceeds 64 bits.
pub open spec fn vint_decode(bytes: Seq<u8>) -> Option<(u64, nat)> {
    match vint_parse(bytes) {
        Some((value, n)) => if n <= MAX_VINT_LEN && value <= u64::MAX {
            Some((value as u64, n))
        } else {
            None
        },
        None => None,
    }
}

/// The bytes that stand for `value`.
pub open spec fn vint_encode(value: nat) -> Seq<u8>
    decreases value,
{
    if value < 128 {
        seq![(value + 128) as u8]
    } else {
        seq![(value % 128) as u8] + vint_encode(value / 128)
    }
}

proof fn lemma_pow128_table()
    ensures
        pow128(0) == 1,
        pow128(1) == 0x80,
        pow128(2) == 0x4000,
        pow128(3) == 0x20_0000,
        pow128(4) == 0x1000_0000,
        pow128(5) == 0x8_0000_0000,
        pow128(6) == 0x400_0000_0000,
        pow128(7) == 0x2_0000_0000_0000,
        pow128(8) == 0x100_0000_0000_0000,
        pow128(9) == 0x8000_0000_0000_0000,
        pow128(10) == 0x40_0000_0000_0000_0000,
{
    reveal_with_fuel(pow128, 12);
}

/// A parsed integer takes at least one byte and no more than there are.
pub proof fn lemma_vint_parse_len(bytes: Seq<u8>)
    ensures
        vint_parse(bytes) matches Some((_, n)) ==> 1 <= n <= bytes.len(),
    decreases bytes.len(),
{
    if bytes.len() > 0 && bytes[0] < 128 {
        lemma_vint_parse_len(bytes.drop_first());
    }
}

proof fn lemma_vint_encode_len(value: nat, k: nat)
    requires
        k >= 1,
        value < pow128(k),
    ensures
        1 <= vint_encode(value).len() <= k,
    decreases value,
{
    if value >= 128 {
        assert(pow128(1) == 128) by {
            reveal_with_fuel(pow128, 2);
        }
        assert(k >= 2);
        assert(pow128(k) == 128 * pow128((k - 1) as nat));
        assert(value / 128 < pow128((k - 1) as nat));
        lemma_vint_encode_len(value / 128, (k - 1) as nat);
    }
}

/// Parsing what stands for `value`, with anything behind it, gives `value`
/// back and stops where the encoding ends.
pub proof fn lemma_vint_parse_encode(value: nat, rest: Seq<u8>)
    ensures
        vint_parse(vint_encode(value) + rest) == Some((value, vint_encode(value).len())),
    decreases value,
{
    let bytes = vint_encode(value) + rest;
    if value < 128 {
        assert(bytes[0] == (value + 128) as u8);
    } else {
        let tail = vint_encode(value / 128);
        assert(bytes[0] == (value % 128) as u8);
        assert(bytes.drop_first() =~= tail + rest);
        lemma_vint_parse_encode(value / 128, rest);
    }
}

/// Every 64-bit value is read back from its encoding, whatever follows it.
pub proof fn lemma_vint_roundtrip(value: u64, rest: Seq<u8>)
    ensures
        vint_decode(vint_encode(value as nat) + rest) == Some(
            (value, vint_encode(value as nat).len()),
        ),
        1 <= vint_encode(value as nat).len() <= MAX_VINT_LEN,
{
    lemma_pow128_table();
    lemma_vint_encode_len(value as nat, 10);
    lemma_vint_parse_encode(value as nat, rest);
}

/// Reads one variable-length integer from the front of `bytes`.
pub fn read_vint(bytes: &[u8]) -> (r: Option<(u64, usize)>)
    ensures
        match r {
            Some((value, n)) => vint_decode(bytes@) == Some((value, n as nat)) && 1 <= n
                <= bytes@.len(),
            None => vint_decode(bytes@) is None,
        },
{
    let mut acc: u64 = 0;
    let mut weight: u64 = 1;
    let mut i: usize = 0;
    proof {
        lemma_pow128_table();
        assert(bytes@.skip(0) =~= bytes@);
    }
    while i < bytes.len() && i < MAX_VINT_LEN
        invariant
            i <= bytes@.len(),
            i <= MAX_VINT_LEN,
            weight == pow128(i as nat) || i == MAX_VINT_LEN,
            acc < pow128(i as nat),
            vint_parse(bytes@) == match vint_parse(bytes@.skip(i as int)) {
                Some((rest, n)) => Some((acc as nat + pow128(i as nat) * rest, n + i as nat)),
                None => None,
            },
        decreases bytes@.len() - i,
    {
        let b: u8 = bytes[i];
        proof {
            lemma_pow128_table();
            assert(bytes@.skip(i as int).drop_first() =~= bytes@.skip(i as int + 1));
            assert(bytes@.skip(i as int)[0] == b);
            assert(pow128((i + 1) as nat) == 128 * pow128(i as nat));
        }
        if b >= 128 {
            let digit: u64 = (b - 128) as u64;
            if i == 9 && digit > 1 {
                return None;
            }
            assert(acc + weight * digit <= u64::MAX) by (nonlinear_arith)
                requires
                    acc < weight,
                    digit <= 127,
                    weight <= 0x8000_0000_0000_0000,
                    weight == 0x8000_0000_0000_0000 ==> digit <= 1,
                    weight < 0x8000_0000_0000_0000 ==> weight <= 0x100_0000_0000_0000,
            ;
            return Some((acc + weight * digit, i + 1));
        }
        let digit: u64 = b as u64;
        proof {
            let rest = vint_parse(bytes@.skip(i as int + 1));
            if rest is Some {
                let (v, n) = rest.unwrap();
                assert(acc as nat + pow128(i as nat) * (b as nat + 128 * v) == (acc as nat
                    + pow128(i as nat) * b as nat) + pow128((i + 1) as nat) * v)
                    by (nonlinear_arith)
                    requires
                        pow128((i + 1) as nat) == 128 * pow128(i as nat),
                ;
            }
        }
        if i < 9 {
            assert(acc + weight * digit < 128 * weight && 128 * weight <= u64::MAX)
                by (nonlinear_arith)
                requires
                    acc < weight,
                    digit <= 127,
                    weight <= 0x100_0000_0000_0000,
            ;
            acc = acc + weight * digit;
            weight = weight * 128;
        } else {
            proof {
                lemma_vint_parse_len(bytes@.skip(i as int + 1));
                lemma_vint_parse_len(bytes@);
            }
            return None;
        }
        i = i + 1;
    }
    proof {
        lemma_vint_parse_len(bytes@.skip(i as int));
    }
    None
}

} // verus!
