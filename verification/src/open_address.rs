//! Shared helpers of open-addressed heads: key hash and primary slot.

use vstd::prelude::*;
use vstd::arithmetic::power2::is_pow2;

verus! {

/// A table is rebuilt larger once `occupied / slots` reaches 7/8.
pub const MAX_LOAD_NUM: u64 = 7;

pub const MAX_LOAD_DEN: u64 = 8;

/// FNV-1a 64-bit offset basis.
pub const FNV_OFFSET: u64 = 0xcbf2_9ce4_8422_2325;

/// FNV-1a 64-bit prime.
pub const FNV_PRIME: u64 = 0x0000_0100_0000_01b3;

/// FNV-1a 64 of `s`.
pub open spec fn fnv1a(s: Seq<u8>) -> u64
    decreases s.len(),
{
    if s.len() == 0 {
        FNV_OFFSET
    } else {
        fnv_step(fnv1a(s.drop_last()), s.last())
    }
}

/// One byte of FNV-1a: exclusive or, then a product modulo 2^64.
pub open spec fn fnv_step(h: u64, b: u8) -> u64 {
    (((h ^ (b as u64)) * FNV_PRIME) % 0x1_0000_0000_0000_0000) as u64
}

/// FNV-1a 64 over arbitrary bytes.
pub fn fnv1a_64(bytes: &[u8]) -> (r: u64)
    ensures
        r == fnv1a(bytes@),
{
    let mut h: u64 = FNV_OFFSET;
    let mut i: usize = 0;
    proof {
        assert(bytes@.subrange(0, 0) =~= Seq::empty());
    }
    while i < bytes.len()
        invariant
            i <= bytes@.len(),
            h == fnv1a(bytes@.subrange(0, i as int)),
        decreases bytes@.len() - i,
    {
        let x: u64 = h ^ (bytes[i] as u64);
        h = x.wrapping_mul(FNV_PRIME);
        i += 1;
        proof {
            let p = bytes@.subrange(0, i as int);
            assert(p.drop_last() =~= bytes@.subrange(0, i - 1));
        }
    }
    proof {
        assert(bytes@.subrange(0, bytes@.len() as int) =~= bytes@);
    }
    h
}

/// The slot where probing for `key` starts.
pub open spec fn home_slot(key: Seq<u8>, slots: int) -> int {
    (fnv1a(key) as int) % slots
}

proof fn lemma_mask_is_mod(h: u64, slots: u64)
    requires
        slots > 0,
        is_pow2(slots as int),
    ensures
        h & ((slots - 1) as u64) == h % slots,
{
    vstd::arithmetic::power2::is_pow2_equiv(slots as int);
    let n = choose|n: nat| vstd::arithmetic::power::pow(2, n) == slots as int;
    vstd::arithmetic::power2::lemma_pow2(n);
    if n >= 64 {
        vstd::arithmetic::power2::lemma2_to64();
        if n > 64 {
            vstd::arithmetic::power2::lemma_pow2_strictly_increases(64, n);
        }
    }
    vstd::bits::lemma_u64_low_bits_mask_is_mod(h, n);
    assert(vstd::bits::low_bits_mask(n) == slots - 1);
}

/// Primary slot of a 16-byte key (`slots` is a power of two).
pub fn primary_slot(key: &[u8; 16], slots: u64) -> (r: u64)
    requires
        slots >= 2,
        is_pow2(slots as int),
    ensures
        r == home_slot(key@, slots as int),
        r < slots,
{
    let h: u64 = fnv1a_64(key.as_slice());
    proof {
        lemma_mask_is_mod(h, slots);
    }
    h & (slots - 1)
}

/// Primary slot of a 32-byte key (`slots` is a power of two).
pub fn primary_slot_32(key: &[u8; 32], slots: usize) -> (r: usize)
    requires
        slots >= 2,
        is_pow2(slots as int),
    ensures
        r == home_slot(key@, slots as int),
        r < slots,
{
    let h: u64 = fnv1a_64(key.as_slice());
    let m: u64 = slots as u64;
    proof {
        lemma_mask_is_mod(h, m);
    }
    (h & (m - 1)) as usize
}

} // verus!
