//! CRC-32 with the reflected polynomial `0xEDB88320`.

use vstd::prelude::*;

verus! {

/// One bit of the reflected division.
pub open spec fn crc_bit(c: u32) -> u32 {
    if c & 1 != 0 {
        0xEDB8_8320u32 ^ (c >> 1)
    } else {
        c >> 1
    }
}

/// `n` bits of the reflected division.
pub open spec fn crc_bits(c: u32, n: nat) -> u32
    decreases n,
{
    if n == 0 {
        c
    } else {
        crc_bits(crc_bit(c), (n - 1) as nat)
    }
}

/// State after the bytes of `s`, from state `c`.
pub open spec fn crc_state(c: u32, s: Seq<u8>) -> u32
    decreases s.len(),
{
    if s.len() == 0 {
        c
    } else {
        crc_bits(crc_state(c, s.drop_last()) ^ (s.last() as u32), 8)
    }
}

/// CRC-32 of `s`.
pub open spec fn crc_of(s: Seq<u8>) -> u32 {
    crc_state(0xFFFF_FFFFu32, s) ^ 0xFFFF_FFFFu32
}

/// One bit step acts on the low byte and on the rest apart.
proof fn lemma_bit_split(a: u32, b: u32)
    requires
        b & 1 == 0,
    ensures
        crc_bit(a ^ b) == crc_bit(a) ^ (b >> 1),
{
    assert(b & 1 == 0 ==> (if (a ^ b) & 1 != 0 {
        0xEDB8_8320u32 ^ ((a ^ b) >> 1)
    } else {
        (a ^ b) >> 1
    }) == (if a & 1 != 0 {
        0xEDB8_8320u32 ^ (a >> 1)
    } else {
        a >> 1
    }) ^ (b >> 1)) by (bit_vector);
}

/// Eight bits of a state are those of its low byte, with the rest shifted in.
proof fn lemma_byte_split(x: u32)
    ensures
        crc_bits(x, 8) == crc_bits(x & 0xFF, 8) ^ (x >> 8),
{
    reveal_with_fuel(crc_bits, 9);
    let a0 = x & 0xFF;
    let h = x & 0xFFFF_FF00u32;
    assert(x == (x & 0xFF) ^ (x & 0xFFFF_FF00u32)) by (bit_vector);
    let h1 = h >> 1;
    let h2 = h1 >> 1;
    let h3 = h2 >> 1;
    let h4 = h3 >> 1;
    let h5 = h4 >> 1;
    let h6 = h5 >> 1;
    let h7 = h6 >> 1;
    assert(h & 1 == 0 && (h >> 1) & 1 == 0 && ((h >> 1) >> 1) & 1 == 0 && (((h >> 1) >> 1) >> 1) & 1
        == 0) by (bit_vector)
        requires
            h == x & 0xFFFF_FF00u32,
    ;
    assert(h4 & 1 == 0 && (h4 >> 1) & 1 == 0 && ((h4 >> 1) >> 1) & 1 == 0 && (((h4 >> 1) >> 1) >> 1)
        & 1 == 0) by (bit_vector)
        requires
            h == x & 0xFFFF_FF00u32,
            h4 == (((h >> 1) >> 1) >> 1) >> 1,
    ;
    assert(h7 >> 1 == x >> 8) by (bit_vector)
        requires
            h == x & 0xFFFF_FF00u32,
            h7 == ((((((h >> 1) >> 1) >> 1) >> 1) >> 1) >> 1) >> 1,
    ;
    let a1 = crc_bit(a0);
    let a2 = crc_bit(a1);
    let a3 = crc_bit(a2);
    let a4 = crc_bit(a3);
    let a5 = crc_bit(a4);
    let a6 = crc_bit(a5);
    let a7 = crc_bit(a6);
    lemma_bit_split(a0, h);
    lemma_bit_split(a1, h1);
    lemma_bit_split(a2, h2);
    lemma_bit_split(a3, h3);
    lemma_bit_split(a4, h4);
    lemma_bit_split(a5, h5);
    lemma_bit_split(a6, h6);
    lemma_bit_split(a7, h7);
}

/// The table holds the eight-bit steps of every byte.
pub open spec fn is_crc_table(t: Seq<u32>) -> bool {
    t.len() == 256 && forall|i: int| 0 <= i < 256 ==> #[trigger] t[i] == crc_bits(i as u32, 8)
}

/// The eight-bit steps of every byte.
pub fn crc32_table() -> (t: Vec<u32>)
    ensures
        is_crc_table(t@),
{
    let mut t: Vec<u32> = Vec::new();
    let mut i: u32 = 0;
    while i < 256
        invariant
            i <= 256,
            t@.len() == i,
            forall|j: int| 0 <= j < i ==> #[trigger] t@[j] == crc_bits(j as u32, 8),
        decreases 256 - i,
    {
        let mut c: u32 = i;
        let mut k: u32 = 0;
        while k < 8
            invariant
                k <= 8,
                crc_bits(c, (8 - k) as nat) == crc_bits(i, 8),
            decreases 8 - k,
        {
            c = if c & 1 != 0 {
                0xEDB8_8320 ^ (c >> 1)
            } else {
                c >> 1
            };
            k += 1;
        }
        t.push(c);
        i += 1;
    }
    t
}

/// State after one more byte.
pub fn crc_step(table: &Vec<u32>, c: u32, b: u8) -> (r: u32)
    requires
        is_crc_table(table@),
    ensures
        r == crc_bits(c ^ (b as u32), 8),
{
    let x: u32 = c ^ (b as u32);
    proof {
        lemma_byte_split(x);
        let bb = b as u32;
        assert((c ^ bb) >> 8 == c >> 8) by (bit_vector)
            requires
                bb < 256u32,
        ;
        assert(x & 0xFF < 256) by (bit_vector);
    }
    table[(x & 0xFF) as usize] ^ (c >> 8)
}

/// CRC-32 of `data`.
pub fn crc32(data: &[u8]) -> (r: u32)
    ensures
        r == crc_of(data@),
{
    let table = crc32_table();
    let mut c: u32 = 0xFFFF_FFFF;
    let mut i: usize = 0;
    proof {
        assert(data@.subrange(0, 0) =~= Seq::empty());
    }
    while i < data.len()
        invariant
            i <= data@.len(),
            is_crc_table(table@),
            c == crc_state(0xFFFF_FFFFu32, data@.subrange(0, i as int)),
        decreases data@.len() - i,
    {
        proof {
            let p = data@.subrange(0, i + 1);
            assert(p.drop_last() =~= data@.subrange(0, i as int));
            assert(p.last() == data@[i as int]);
        }
        c = crc_step(&table, c, data[i]);
        i += 1;
    }
    proof {
        assert(data@.subrange(0, i as int) =~= data@);
    }
    c ^ 0xFFFF_FFFF
}

/// Checksumming in pieces gives the checksum of the whole.
pub proof fn law_crc_concat(c: u32, a: Seq<u8>, b: Seq<u8>)
    ensures
        crc_state(c, a + b) == crc_state(crc_state(c, a), b),
    decreases b.len(),
{
    if b.len() == 0 {
        assert(a + b =~= a);
    } else {
        assert((a + b).drop_last() =~= a + b.drop_last());
        assert((a + b).last() == b.last());
        law_crc_concat(c, a, b.drop_last());
    }
}

} // verus!
