//! ULEB128 numbers.

use vstd::prelude::*;
use crate::error::StoreError;

verus! {

/// Longest encoding of a 64-bit number.
pub const ULEB_MAX: usize = 10;

/// Bytes of `x`: seven bits each, lowest first, high bit set on all but the last.
pub open spec fn uleb(x: nat) -> Seq<u8>
    decreases x,
{
    if x < 128 {
        seq![x as u8]
    } else {
        seq![(128 + x % 128) as u8] + uleb(x / 128)
    }
}

/// Number and length of the first encoding in `s`, if it ends within `s`.
pub open spec fn uleb_scan(s: Seq<u8>) -> Option<(nat, nat)>
    decreases s.len(),
{
    if s.len() == 0 {
        None
    } else if s[0] < 128 {
        Some((s[0] as nat, 1nat))
    } else {
        match uleb_scan(s.subrange(1, s.len() as int)) {
            None => None,
            Some((v, n)) => Some(((s[0] - 128) as nat + 128 * v, n + 1)),
        }
    }
}

/// The leading bytes that an encoding may occupy.
pub open spec fn uleb_window(s: Seq<u8>) -> Seq<u8> {
    if s.len() <= ULEB_MAX {
        s
    } else {
        s.subrange(0, ULEB_MAX as int)
    }
}

/// What reading one number from the front of `s` gives: the number and its length.
pub open spec fn uleb_get(s: Seq<u8>) -> Result<(u64, usize), StoreError> {
    match uleb_scan(uleb_window(s)) {
        Some((v, n)) => if v <= u64::MAX {
            Ok((v as u64, n as usize))
        } else {
            Err(StoreError::Corrupt("uleb128 overflow"))
        },
        None => if s.len() < ULEB_MAX {
            Err(StoreError::Corrupt("uleb128 truncated"))
        } else {
            Err(StoreError::Corrupt("uleb128 overflow"))
        },
    }
}

/// `128^n`.
pub open spec fn p128(n: nat) -> nat
    decreases n,
{
    if n == 0 {
        1
    } else {
        128 * p128((n - 1) as nat)
    }
}

proof fn lemma_p128_values()
    ensures
        p128(9) == 0x8000_0000_0000_0000,
        p128(10) == 0x40_0000_0000_0000_0000,
{
    reveal_with_fuel(p128, 11);
}

pub proof fn lemma_uleb_scan_len(s: Seq<u8>)
    ensures
        uleb_scan(s) matches Some((v, n)) ==> 1 <= n <= s.len() && v < p128(n),
    decreases s.len(),
{
    if s.len() > 0 && s[0] >= 128 {
        lemma_uleb_scan_len(s.subrange(1, s.len() as int));
    } else {
        reveal_with_fuel(p128, 2);
    }
}

/// Only the bytes of the number itself matter.
pub proof fn lemma_uleb_scan_prefix(s: Seq<u8>, t: Seq<u8>)
    ensures
        uleb_scan(s) is Some ==> uleb_scan(s + t) == uleb_scan(s),
    decreases s.len(),
{
    if s.len() > 0 && s[0] >= 128 {
        lemma_uleb_scan_prefix(s.subrange(1, s.len() as int), t);
        assert((s + t).subrange(1, (s + t).len() as int) =~= s.subrange(1, s.len() as int) + t);
    }
}

pub proof fn lemma_uleb_len_bound(x: nat, k: nat)
    requires
        x < p128(k),
        k >= 1,
    ensures
        1 <= uleb(x).len() <= k,
    decreases k,
{
    if x >= 128 {
        assert(k > 1) by {
            reveal_with_fuel(p128, 2);
        }
        lemma_uleb_len_bound(x / 128, (k - 1) as nat);
    }
}

pub proof fn lemma_uleb_len_u64(x: u64)
    ensures
        1 <= uleb(x as nat).len() <= 10,
        x < 0x8000_0000_0000_0000 ==> uleb(x as nat).len() <= 9,
{
    lemma_p128_values();
    lemma_uleb_len_bound(x as nat, 10);
    if x < 0x8000_0000_0000_0000 {
        lemma_uleb_len_bound(x as nat, 9);
    }
}

pub proof fn lemma_uleb_scan_of_uleb(x: nat)
    ensures
        uleb_scan(uleb(x)) == Some((x, uleb(x).len())),
    decreases x,
{
    if x >= 128 {
        lemma_uleb_scan_of_uleb(x / 128);
        let s = uleb(x);
        assert(s.subrange(1, s.len() as int) =~= uleb(x / 128));
    }
}

/// Reading gives back the number that was written, whatever follows it.
pub proof fn law_uleb_roundtrip(x: u64, rest: Seq<u8>)
    ensures
        uleb_get(uleb(x as nat) + rest) == Ok::<(u64, usize), StoreError>(
            (x, uleb(x as nat).len() as usize),
        ),
{
    let u = uleb(x as nat);
    let s = u + rest;
    lemma_uleb_len_u64(x);
    lemma_uleb_scan_of_uleb(x as nat);
    let w = uleb_window(s);
    assert(w =~= u + w.subrange(u.len() as int, w.len() as int));
    lemma_uleb_scan_prefix(u, w.subrange(u.len() as int, w.len() as int));
}

proof fn lemma_uleb_scan_take(w: Seq<u8>)
    ensures
        uleb_scan(w) matches Some((v, k)) ==> k <= w.len() && uleb_scan(w.subrange(0, k as int))
            == uleb_scan(w),
    decreases w.len(),
{
    lemma_uleb_scan_len(w);
    if w.len() > 0 {
        let t = w.subrange(1, w.len() as int);
        lemma_uleb_scan_take(t);
        match uleb_scan(w) {
            Some((v, k)) => {
                let p = w.subrange(0, k as int);
                if w[0] >= 128 {
                    lemma_uleb_scan_len(t);
                    assert(p.subrange(1, p.len() as int) =~= t.subrange(0, k - 1));
                }
            },
            None => {},
        }
    }
}

/// Reading depends only on the bytes that the number occupies.
pub proof fn lemma_uleb_get_prefix(s: Seq<u8>, t: Seq<u8>)
    requires
        uleb_get(s) is Ok,
        ({
            let k = uleb_get(s)->Ok_0.1 as int;
            k <= t.len() && k <= s.len() && s.subrange(0, k) == t.subrange(0, k)
        }),
    ensures
        uleb_get(t) == uleb_get(s),
{
    let w = uleb_window(s);
    lemma_uleb_scan_take(w);
    lemma_uleb_scan_len(w);
    let k = uleb_get(s)->Ok_0.1 as int;
    let u = uleb_window(t);
    assert(w.subrange(0, k) =~= s.subrange(0, k));
    assert(u =~= s.subrange(0, k) + u.subrange(k, u.len() as int)) by {
        assert(u.subrange(0, k) =~= t.subrange(0, k));
    }
    lemma_uleb_scan_prefix(s.subrange(0, k), u.subrange(k, u.len() as int));
}

/// Length of the encoding of `x`.
pub fn uleb128_len(x: u64) -> (r: usize)
    ensures
        r == uleb(x as nat).len(),
        1 <= r <= 10,
{
    proof {
        lemma_uleb_len_u64(x);
    }
    let mut y: u64 = x;
    let mut n: usize = 1;
    while y >= 128
        invariant
            n + uleb(y as nat).len() == 1 + uleb(x as nat).len(),
            uleb(x as nat).len() <= 10,
            n >= 1,
        decreases y,
    {
        proof {
            lemma_uleb_len_u64((y / 128) as u64);
        }
        y = y / 128;
        n += 1;
    }
    n
}

/// Appends the encoding of `x`.
pub fn write_uleb128(out: &mut Vec<u8>, x: u64)
    ensures
        final(out)@ == old(out)@ + uleb(x as nat),
{
    let mut y: u64 = x;
    while y >= 128
        invariant
            out@ + uleb(y as nat) == old(out)@ + uleb(x as nat),
        decreases y,
    {
        let ghost before = out@;
        out.push((128 + y % 128) as u8);
        proof {
            assert(out@ + uleb((y / 128) as nat) =~= before + uleb(y as nat));
        }
        y = y / 128;
    }
    let ghost before = out@;
    out.push(y as u8);
    proof {
        assert(out@ =~= before + uleb(y as nat));
    }
}

/// Reads one number that starts at `off`; gives it with its length.
pub fn read_uleb128_at(buf: &[u8], off: usize) -> (r: Result<(u64, usize), StoreError>)
    requires
        off <= buf@.len(),
    ensures
        r == uleb_get(buf@.subrange(off as int, buf@.len() as int)),
        r matches Ok((_, n)) ==> 1 <= n && off + n <= buf@.len(),
{
    let blen: usize = buf.len();
    let ghost s = buf@.subrange(off as int, buf@.len() as int);
    let win: usize = if blen - off <= ULEB_MAX { blen - off } else { ULEB_MAX };
    let ghost w = uleb_window(s);
    let mut n: usize = 0;
    let mut stop: bool = false;
    while n < win && !stop
        invariant
            blen == buf@.len(),
            off + win <= blen,
            win == w.len(),
            n <= win,
            forall|j: int| 0 <= j < win ==> w[j] == #[trigger] buf@[off + j],
            forall|j: int| 0 <= j < n ==> w[j] >= 128,
            stop ==> n < win && w[n as int] < 128,
        decreases win - n, (if stop { 0int } else { 1int }),
    {
        if buf[off + n] < 128 {
            assert(w[n as int] == buf@[off + n]);
            stop = true;
        } else {
            assert(w[n as int] == buf@[off + n]);
            n += 1;
        }
    }
    if !stop {
        proof {
            lemma_scan_none(w);
        }
        return if blen - off < ULEB_MAX {
            Err(StoreError::Corrupt("uleb128 truncated"))
        } else {
            Err(StoreError::Corrupt("uleb128 overflow"))
        };
    }
    // The encoding is w[0..=n]; fold it from the top.
    let mut v: u128 = buf[off + n] as u128;
    let mut i: usize = n;
    proof {
        assert(w[n as int] == buf@[off + n]);
        reveal_with_fuel(p128, 2);
        assert(w.subrange(n as int, w.len() as int)[0] == w[n as int]);
    }
    while i > 0
        invariant
            blen == buf@.len(),
            off + win <= blen,
            win == w.len() <= 10,
            i <= n < win,
            forall|j: int| 0 <= j < win ==> w[j] == #[trigger] buf@[off + j],
            forall|j: int| 0 <= j < n ==> w[j] >= 128,
            uleb_scan(w.subrange(i as int, w.len() as int)) == Some(
                (v as nat, (n - i + 1) as nat),
            ),
            v < p128((n - i + 1) as nat),
        decreases i,
    {
        i -= 1;
        proof {
            let t = w.subrange(i as int, w.len() as int);
            assert(t.subrange(1, t.len() as int) =~= w.subrange(i + 1, w.len() as int));
            assert(t[0] == buf@[off + i]);
            lemma_p128_mono((n - i) as nat, 9);
            lemma_p128_values();
        }
        v = v * 128 + (buf[off + i] - 128) as u128;
    }
    proof {
        assert(w.subrange(0, w.len() as int) =~= w);
    }
    if v <= 0xffff_ffff_ffff_ffffu128 {
        Ok((v as u64, n + 1))
    } else {
        Err(StoreError::Corrupt("uleb128 overflow"))
    }
}

/// Reads one number from the front of `buf`.
pub fn read_uleb128(buf: &[u8]) -> (r: Result<(u64, usize), StoreError>)
    ensures
        r == uleb_get(buf@),
{
    proof {
        assert(buf@.subrange(0, buf@.len() as int) =~= buf@);
    }
    read_uleb128_at(buf, 0)
}

proof fn lemma_p128_mono(a: nat, b: nat)
    requires
        a <= b,
    ensures
        0 < p128(a) <= p128(b),
    decreases b,
{
    if a == b {
        if a > 0 {
            lemma_p128_mono((a - 1) as nat, (a - 1) as nat);
        }
    } else {
        lemma_p128_mono(a, (b - 1) as nat);
    }
}

proof fn lemma_scan_none(w: Seq<u8>)
    requires
        forall|j: int| 0 <= j < w.len() ==> w[j] >= 128,
    ensures
        uleb_scan(w) is None,
    decreases w.len(),
{
    if w.len() > 0 {
        lemma_scan_none(w.subrange(1, w.len() as int));
    }
}

} // verus!
