//! Little-endian integers inside byte buffers.

use vstd::prelude::*;

verus! {

/// `256^n`.
pub open spec fn p256(n: nat) -> nat
    decreases n,
{
    if n == 0 {
        1
    } else {
        256 * p256((n - 1) as nat)
    }
}

/// Value of `s` read as a little-endian number.
pub open spec fn le_nat(s: Seq<u8>) -> nat
    decreases s.len(),
{
    if s.len() == 0 {
        0
    } else {
        s[0] as nat + 256 * le_nat(s.subrange(1, s.len() as int))
    }
}

/// The `n` low bytes of `x`, lowest first.
pub open spec fn le_seq(x: nat, n: nat) -> Seq<u8>
    decreases n,
{
    if n == 0 {
        Seq::empty()
    } else {
        seq![(x % 256) as u8] + le_seq(x / 256, (n - 1) as nat)
    }
}

pub proof fn lemma_le_seq_len(x: nat, n: nat)
    ensures
        le_seq(x, n).len() == n,
    decreases n,
{
    if n > 0 {
        lemma_le_seq_len(x / 256, (n - 1) as nat);
    }
}

pub proof fn lemma_le_nat_bound(s: Seq<u8>)
    ensures
        le_nat(s) < p256(s.len()),
    decreases s.len(),
{
    if s.len() > 0 {
        lemma_le_nat_bound(s.subrange(1, s.len() as int));
    }
}

/// Reading back what was written gives the number, if it fits.
pub proof fn lemma_le_nat_of_seq(x: nat, n: nat)
    requires
        x < p256(n),
    ensures
        le_nat(le_seq(x, n)) == x,
        le_seq(x, n).len() == n,
    decreases n,
{
    lemma_le_seq_len(x, n);
    if n > 0 {
        lemma_le_nat_of_seq(x / 256, (n - 1) as nat);
        let s = le_seq(x, n);
        assert(s.subrange(1, s.len() as int) =~= le_seq(x / 256, (n - 1) as nat));
    }
}

/// Writing back what was read gives the bytes.
pub proof fn lemma_le_seq_of_nat(s: Seq<u8>)
    ensures
        le_seq(le_nat(s), s.len()) =~= s,
    decreases s.len(),
{
    if s.len() > 0 {
        let t = s.subrange(1, s.len() as int);
        lemma_le_seq_of_nat(t);
        let x = le_nat(s);
        assert(x % 256 == s[0] as nat);
        assert(x / 256 == le_nat(t));
    } else {
        assert(le_seq(le_nat(s), 0) =~= s);
    }
}

pub proof fn lemma_p256_values()
    ensures
        p256(2) == 0x1_0000,
        p256(4) == 0x1_0000_0000,
        p256(8) == 0x1_0000_0000_0000_0000,
{
    reveal_with_fuel(p256, 9);
}

/// Little-endian bytes of a 64-bit value.
pub open spec fn le64(x: u64) -> Seq<u8> {
    le_seq(x as nat, 8)
}

/// Little-endian bytes of a 32-bit value.
pub open spec fn le32(x: u32) -> Seq<u8> {
    le_seq(x as nat, 4)
}

/// Little-endian bytes of a 16-bit value.
pub open spec fn le16(x: u16) -> Seq<u8> {
    le_seq(x as nat, 2)
}

/// 64-bit value at `off`.
pub open spec fn u64_at(b: Seq<u8>, off: int) -> u64 {
    le_nat(b.subrange(off, off + 8)) as u64
}

/// 32-bit value at `off`.
pub open spec fn u32_at(b: Seq<u8>, off: int) -> u32 {
    le_nat(b.subrange(off, off + 4)) as u32
}

/// 16-bit value at `off`.
pub open spec fn u16_at(b: Seq<u8>, off: int) -> u16 {
    le_nat(b.subrange(off, off + 2)) as u16
}

/// `b` with the bytes of `s` laid over it at `off`.
pub open spec fn overlay(b: Seq<u8>, off: int, s: Seq<u8>) -> Seq<u8> {
    Seq::new(b.len(), |i: int| if off <= i < off + s.len() { s[i - off] } else { b[i] })
}

pub proof fn lemma_overlay_at(b: Seq<u8>, off: int, s: Seq<u8>)
    requires
        0 <= off,
        off + s.len() <= b.len(),
    ensures
        overlay(b, off, s).len() == b.len(),
        overlay(b, off, s).subrange(off, off + s.len()) =~= s,
{
}

/// A part that the overlay does not touch reads as before.
pub proof fn lemma_overlay_frame(b: Seq<u8>, off: int, s: Seq<u8>, lo: int, hi: int)
    requires
        0 <= off,
        off + s.len() <= b.len(),
        0 <= lo <= hi <= b.len(),
        hi <= off || off + s.len() <= lo,
    ensures
        overlay(b, off, s).subrange(lo, hi) =~= b.subrange(lo, hi),
{
}

fn read_le(b: &[u8], off: usize, n: usize) -> (r: u64)
    requires
        n <= 8,
        off + n <= b@.len(),
    ensures
        r == le_nat(b@.subrange(off as int, off + n)),
{
    let blen: usize = b.len();
    let mut v: u64 = 0;
    let mut i: usize = n;
    proof {
        assert(b@.subrange(off + n, off + n) =~= Seq::empty());
    }
    while i > 0
        invariant
            i <= n,
            n <= 8,
            off + n <= blen == b@.len(),
            v == le_nat(b@.subrange(off + i, off + n)),
        decreases i,
    {
        i -= 1;
        proof {
            let s = b@.subrange(off + i, off + n);
            assert(s.subrange(1, s.len() as int) =~= b@.subrange(off + i + 1, off + n));
            lemma_le_nat_bound(s);
            lemma_p256_values();
            lemma_p256_mono(s.len(), 8);
        }
        v = v * 256 + b[off + i] as u64;
    }
    v
}

proof fn lemma_p256_mono(a: nat, b: nat)
    requires
        a <= b,
    ensures
        0 < p256(a) <= p256(b),
    decreases b,
{
    if a == b {
        if a > 0 {
            lemma_p256_mono((a - 1) as nat, (a - 1) as nat);
        }
    } else {
        lemma_p256_mono(a, (b - 1) as nat);
    }
}

/// Reads a 64-bit value.
pub fn get_u64(b: &[u8], off: usize) -> (r: u64)
    requires
        off + 8 <= b@.len(),
    ensures
        r == u64_at(b@, off as int),
        r as nat == le_nat(b@.subrange(off as int, off + 8)),
{
    read_le(b, off, 8)
}

/// Reads a 32-bit value.
pub fn get_u32(b: &[u8], off: usize) -> (r: u32)
    requires
        off + 4 <= b@.len(),
    ensures
        r == u32_at(b@, off as int),
        r as nat == le_nat(b@.subrange(off as int, off + 4)),
{
    proof {
        lemma_le_nat_bound(b@.subrange(off as int, off + 4));
        lemma_p256_values();
    }
    read_le(b, off, 4) as u32
}

/// Reads a 16-bit value.
pub fn get_u16(b: &[u8], off: usize) -> (r: u16)
    requires
        off + 2 <= b@.len(),
    ensures
        r == u16_at(b@, off as int),
        r as nat == le_nat(b@.subrange(off as int, off + 2)),
{
    proof {
        lemma_le_nat_bound(b@.subrange(off as int, off + 2));
        lemma_p256_values();
    }
    read_le(b, off, 2) as u16
}

fn push_le(v: &mut Vec<u8>, x: u64, n: usize)
    requires
        n <= 8,
    ensures
        final(v)@ == old(v)@ + le_seq(x as nat, n as nat),
{
    let mut y: u64 = x;
    let mut i: usize = 0;
    proof {
        assert(v@ + le_seq(x as nat, n as nat) =~= old(v)@ + le_seq(x as nat, n as nat));
    }
    while i < n
        invariant
            i <= n,
            v@ + le_seq(y as nat, (n - i) as nat) == old(v)@ + le_seq(x as nat, n as nat),
        decreases n - i,
    {
        let ghost before = v@;
        v.push((y % 256) as u8);
        proof {
            assert(v@ + le_seq((y / 256) as nat, (n - i - 1) as nat) =~= before + le_seq(
                y as nat,
                (n - i) as nat,
            ));
        }
        y = y / 256;
        i += 1;
    }
    proof {
        assert(v@ + le_seq(y as nat, 0) =~= v@);
    }
}

/// Appends a 64-bit value.
pub fn push_u64(v: &mut Vec<u8>, x: u64)
    ensures
        final(v)@ == old(v)@ + le64(x),
{
    push_le(v, x, 8)
}

/// Appends a 32-bit value.
pub fn push_u32(v: &mut Vec<u8>, x: u32)
    ensures
        final(v)@ == old(v)@ + le32(x),
{
    push_le(v, x as u64, 4)
}

/// Appends a 16-bit value.
pub fn push_u16(v: &mut Vec<u8>, x: u16)
    ensures
        final(v)@ == old(v)@ + le16(x),
{
    push_le(v, x as u64, 2)
}

/// Appends all bytes of a slice.
pub fn push_slice(v: &mut Vec<u8>, s: &[u8])
    ensures
        final(v)@ == old(v)@ + s@,
{
    let mut i: usize = 0;
    proof {
        assert(v@ =~= old(v)@ + s@.subrange(0, 0));
    }
    while i < s.len()
        invariant
            i <= s@.len(),
            v@ == old(v)@ + s@.subrange(0, i as int),
        decreases s@.len() - i,
    {
        v.push(s[i]);
        i += 1;
        proof {
            assert(v@ =~= old(v)@ + s@.subrange(0, i as int));
        }
    }
    proof {
        assert(s@.subrange(0, s@.len() as int) =~= s@);
    }
}

/// Appends `n` zero bytes.
pub fn push_zeros(v: &mut Vec<u8>, n: usize)
    ensures
        final(v)@ == old(v)@ + Seq::new(n as nat, |i: int| 0u8),
{
    let mut i: usize = 0;
    proof {
        assert(v@ =~= old(v)@ + Seq::new(0nat, |i: int| 0u8));
    }
    while i < n
        invariant
            i <= n,
            v@ == old(v)@ + Seq::new(i as nat, |i: int| 0u8),
        decreases n - i,
    {
        v.push(0);
        i += 1;
        proof {
            assert(v@ =~= old(v)@ + Seq::new(i as nat, |i: int| 0u8));
        }
    }
}

/// Copy of `b[lo..hi]`.
pub fn copy_range(b: &[u8], lo: usize, hi: usize) -> (r: Vec<u8>)
    requires
        lo <= hi <= b@.len(),
    ensures
        r@ == b@.subrange(lo as int, hi as int),
{
    let mut v: Vec<u8> = Vec::new();
    let mut i: usize = lo;
    while i < hi
        invariant
            lo <= i <= hi <= b@.len(),
            v@ =~= b@.subrange(lo as int, i as int),
        decreases hi - i,
    {
        v.push(b[i]);
        i += 1;
    }
    v
}

/// Lays `s` over `v` at `off`.
pub fn put_bytes(v: &mut Vec<u8>, off: usize, s: &[u8])
    requires
        off + s@.len() <= old(v)@.len(),
    ensures
        final(v)@ == overlay(old(v)@, off as int, s@),
{
    let vlen: usize = v.len();
    let mut i: usize = 0;
    while i < s.len()
        invariant
            i <= s@.len(),
            off + s@.len() <= vlen == v@.len(),
            v@ =~= overlay(old(v)@, off as int, s@.subrange(0, i as int)),
        decreases s@.len() - i,
    {
        v.set(off + i, s[i]);
        i += 1;
    }
    proof {
        assert(s@.subrange(0, s@.len() as int) =~= s@);
    }
}

/// Lays `s` over a fixed buffer at `off`.
pub fn put_in_array<const N: usize>(a: &mut [u8; N], off: usize, s: &[u8])
    requires
        off + s@.len() <= N,
    ensures
        final(a)@ == overlay(old(a)@, off as int, s@),
{
    let mut i: usize = 0;
    while i < s.len()
        invariant
            i <= s@.len(),
            off + s@.len() <= N,
            a@ =~= overlay(old(a)@, off as int, s@.subrange(0, i as int)),
        decreases s@.len() - i,
    {
        a[off + i] = s[i];
        i += 1;
    }
    proof {
        assert(s@.subrange(0, s@.len() as int) =~= s@);
    }
}

/// The eight bytes of a 64-bit value.
pub fn u64_to_array(x: u64) -> (r: [u8; 8])
    ensures
        r@ == le64(x),
{
    let mut v: Vec<u8> = Vec::new();
    push_u64(&mut v, x);
    proof {
        lemma_le_seq_len(x as nat, 8);
        assert(v@ =~= le64(x));
    }
    let mut a: [u8; 8] = [0u8; 8];
    put_in_array(&mut a, 0, v.as_slice());
    proof {
        assert(a@ =~= le64(x));
    }
    a
}

/// Whether `b` holds exactly the bytes of `s` from `off` on.
pub fn bytes_at(b: &[u8], off: usize, s: &[u8]) -> (r: bool)
    requires
        off + s@.len() <= b@.len(),
    ensures
        r == (b@.subrange(off as int, off + s@.len()) == s@),
{
    let blen: usize = b.len();
    let mut i: usize = 0;
    while i < s.len()
        invariant
            i <= s@.len(),
            off + s@.len() <= blen == b@.len(),
            forall|j: int| 0 <= j < i ==> b@[off + j] == s@[j],
        decreases s@.len() - i,
    {
        if b[off + i] != s[i] {
            proof {
                assert(b@.subrange(off as int, off + s@.len())[i as int] != s@[i as int]);
            }
            return false;
        }
        i += 1;
    }
    proof {
        assert(b@.subrange(off as int, off + s@.len()) =~= s@);
    }
    true
}

} // verus!
