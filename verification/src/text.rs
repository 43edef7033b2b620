//! Decimal numbers in text, and the numbered names of run files.

use vstd::prelude::*;

verus! {

/// An ASCII digit.
pub open spec fn is_digit(b: u8) -> bool {
    48 <= b <= 57
}

/// All bytes are ASCII digits.
pub open spec fn all_digits(s: Seq<u8>) -> bool {
    forall|i: int| 0 <= i < s.len() ==> is_digit(#[trigger] s[i])
}

/// Value of decimal digits.
pub open spec fn dec_nat(s: Seq<u8>) -> nat
    decreases s.len(),
{
    if s.len() == 0 {
        0
    } else {
        10 * dec_nat(s.drop_last()) + (s.last() - 48) as nat
    }
}

/// The digits of a number in text, without a leading plus sign.
pub open spec fn digits_part(s: Seq<u8>) -> Seq<u8> {
    if s.len() > 0 && s[0] == 43 {
        s.subrange(1, s.len() as int)
    } else {
        s
    }
}

/// The number that the text stands for: decimal digits, at least one, with at
/// most one plus sign before them, below 2^64.
pub open spec fn parse_dec(s: Seq<u8>) -> Option<u64> {
    let d = digits_part(s);
    if d.len() == 0 || !all_digits(d) || dec_nat(d) > u64::MAX {
        None
    } else {
        Some(dec_nat(d) as u64)
    }
}

proof fn lemma_dec_mono(s: Seq<u8>, i: int)
    requires
        0 <= i <= s.len(),
        all_digits(s),
    ensures
        dec_nat(s.subrange(0, i)) <= dec_nat(s),
    decreases s.len() - i,
{
    if i < s.len() {
        lemma_dec_mono(s, i + 1);
        let p = s.subrange(0, i + 1);
        assert(p.drop_last() =~= s.subrange(0, i));
        assert(is_digit(s[i]));
    } else {
        assert(s.subrange(0, i) =~= s);
    }
}

/// Reads the number in `s[lo..hi]`.
pub fn parse_u64(s: &[u8], lo: usize, hi: usize) -> (r: Option<u64>)
    requires
        lo <= hi <= s@.len(),
    ensures
        r == parse_dec(s@.subrange(lo as int, hi as int)),
{
    let ghost t = s@.subrange(lo as int, hi as int);
    let start: usize = if lo < hi && s[lo] == 43 {
        lo + 1
    } else {
        lo
    };
    let ghost d = digits_part(t);
    proof {
        assert(d =~= s@.subrange(start as int, hi as int));
    }
    if start == hi {
        return None;
    }
    let mut v: u128 = 0;
    let mut i: usize = start;
    proof {
        assert(d.subrange(0, 0) =~= Seq::empty());
    }
    while i < hi
        invariant
            start <= i <= hi <= s@.len(),
            d == s@.subrange(start as int, hi as int),
            d == digits_part(t),
            t == s@.subrange(lo as int, hi as int),
            all_digits(d.subrange(0, i - start)),
            v == dec_nat(d.subrange(0, i - start)),
            v <= u64::MAX,
        decreases hi - i,
    {
        let b: u8 = s[i];
        let ghost k = i - start;
        assert(d[k] == b);
        if b < 48 || b > 57 {
            assert(!is_digit(d[k]));
            return None;
        }
        proof {
            let p = d.subrange(0, k + 1);
            assert(p.drop_last() =~= d.subrange(0, k));
            assert forall|j: int| 0 <= j < p.len() implies is_digit(#[trigger] p[j]) by {
                if j < k {
                    assert(d.subrange(0, k)[j] == p[j]);
                }
            }
        }
        v = v * 10 + (b - 48) as u128;
        if v > 0xffff_ffff_ffff_ffff {
            proof {
                if all_digits(d) {
                    lemma_dec_mono(d, k + 1);
                }
            }
            return None;
        }
        i += 1;
    }
    proof {
        assert(d.subrange(0, hi - start) =~= d);
    }
    Some(v as u64)
}

/// Decimal digits of `x`, at least `width` of them.
pub open spec fn dec_padded(x: nat, width: nat) -> Seq<u8>
    decreases x, width,
{
    if x == 0 && width == 0 {
        Seq::empty()
    } else {
        dec_padded(
            x / 10,
            if width == 0 {
                0
            } else {
                (width - 1) as nat
            },
        ).push((48 + x % 10) as u8)
    }
}

pub proof fn lemma_dec_padded(x: nat, width: nat)
    ensures
        all_digits(dec_padded(x, width)),
        dec_nat(dec_padded(x, width)) == x,
        dec_padded(x, width).len() >= width,
    decreases x, width,
{
    if !(x == 0 && width == 0) {
        let w = if width == 0 {
            0nat
        } else {
            (width - 1) as nat
        };
        lemma_dec_padded(x / 10, w);
        let s = dec_padded(x, width);
        let p = dec_padded(x / 10, w);
        assert(s.drop_last() =~= p);
        assert forall|i: int| 0 <= i < s.len() implies is_digit(#[trigger] s[i]) by {
            if i < p.len() {
                assert(s[i] == p[i]);
                assert(is_digit(p[i]));
            }
        }
    }
}

/// Appends the decimal digits of `x`, at least `width` of them.
pub fn push_dec(out: &mut Vec<u8>, x: u64, width: usize)
    ensures
        final(out)@ == old(out)@ + dec_padded(x as nat, width as nat),
    decreases x, width,
{
    if x == 0 && width == 0 {
        proof {
            assert(out@ + dec_padded(0, 0) =~= out@);
        }
        return;
    }
    let ghost before = out@;
    push_dec(
        out,
        x / 10,
        if width == 0 {
            0
        } else {
            width - 1
        },
    );
    out.push((48 + x % 10) as u8);
    proof {
        assert(out@ =~= before + dec_padded(x as nat, width as nat));
    }
}

/// Name of a run file: its number with at least six digits, then `.run`.
pub open spec fn run_name(seq: u64) -> Seq<u8> {
    dec_padded(seq as nat, 6) + seq![0x2eu8, 0x72u8, 0x75u8, 0x6eu8]
}

/// Name of the run file with a number.
pub fn next_run_path(seq: u64) -> (r: Vec<u8>)
    ensures
        r@ == run_name(seq),
{
    let mut v: Vec<u8> = Vec::new();
    push_dec(&mut v, seq, 6);
    v.push(0x2e);
    v.push(0x72);
    v.push(0x75);
    v.push(0x6e);
    proof {
        assert(v@ =~= run_name(seq));
    }
    v
}

/// Place of the last dot that is not the first byte, or the length.
pub open spec fn stem_len(name: Seq<u8>, i: int) -> int
    decreases i,
{
    if i <= 1 {
        name.len() as int
    } else if name[i - 1] == 0x2e {
        i - 1
    } else {
        stem_len(name, i - 1)
    }
}

/// Number in the name of a run file: that of its stem, the part before the last dot.
pub open spec fn name_seq(name: Seq<u8>) -> Option<u64> {
    parse_dec(name.subrange(0, stem_len(name, name.len() as int)))
}

/// Number in the name of a run file.
pub fn seq_from_path(name: &[u8]) -> (r: Option<u64>)
    ensures
        r == name_seq(name@),
{
    let n: usize = name.len();
    let mut i: usize = n;
    let mut end: usize = n;
    let mut found: bool = false;
    while i > 1 && !found
        invariant
            i <= n,
            n == name@.len(),
            !found ==> end == n && stem_len(name@, n as int) == stem_len(name@, i as int),
            found ==> end == stem_len(name@, n as int) && end <= n,
        decreases i, (if found { 0int } else { 1int }),
    {
        if name[i - 1] == 0x2e {
            end = i - 1;
            found = true;
        } else {
            i -= 1;
        }
    }
    parse_u64(name, 0, end)
}

/// The number of a run can be read from its file name.
pub proof fn law_run_name_roundtrip(seq: u64)
    ensures
        name_seq(run_name(seq)) == Some(seq),
{
    let d = dec_padded(seq as nat, 6);
    let name = run_name(seq);
    lemma_dec_padded(seq as nat, 6);
    let n = name.len() as int;
    assert(name[n - 1] == 0x6e && name[n - 2] == 0x75 && name[n - 3] == 0x72 && name[n - 4]
        == 0x2e);
    reveal_with_fuel(stem_len, 5);
    assert(stem_len(name, n) == n - 4);
    assert(name.subrange(0, n - 4) =~= d);
    assert(is_digit(d[0]));
}

} // verus!
