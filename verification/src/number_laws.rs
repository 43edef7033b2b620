//! Laws on how numbers stand in bytes and text.

use vstd::prelude::*;
use vstd::arithmetic::power::pow;
use crate::bytes::{le_nat, u16_at, u32_at, u64_at};
use crate::compact::{uleb, uleb_get, uleb_scan, uleb_window};
use crate::crc::{crc_bit, crc_bits, crc_of, crc_state};
use crate::error::StoreError;
use crate::open_address::{fnv1a, home_slot};
use crate::sorted_run::rec_rank;
use crate::sorting::{be_nat, lemma_be_injective};
use crate::text::{all_digits, dec_nat, dec_padded, lemma_dec_padded, parse_dec, stem_len};

verus! {

proof fn lemma_le_first(s: Seq<u8>, i: int)
    requires
        0 <= i < s.len(),
    ensures
        le_nat(s.subrange(i, s.len() as int)) == s[i] + 256 * le_nat(
            s.subrange(i + 1, s.len() as int),
        ),
{
    let t = s.subrange(i, s.len() as int);
    assert(t.subrange(1, t.len() as int) =~= s.subrange(i + 1, s.len() as int));
}

/// Numbers are little-endian: the byte at the offset is the lowest.
pub proof fn law_little_endian(b: Seq<u8>, off: int)
    requires
        0 <= off,
    ensures
        off + 2 <= b.len() ==> u16_at(b, off) == b[off] + 0x100 * b[off + 1],
        off + 4 <= b.len() ==> u32_at(b, off) == b[off] + 0x100 * b[off + 1] + 0x1_0000 * b[off + 2]
            + 0x100_0000 * b[off + 3],
        off + 8 <= b.len() ==> u64_at(b, off) == b[off] + 0x100 * b[off + 1] + 0x1_0000 * b[off + 2]
            + 0x100_0000 * b[off + 3] + 0x1_0000_0000 * b[off + 4] + 0x100_0000_0000 * b[off + 5]
            + 0x1_0000_0000_0000 * b[off + 6] + 0x100_0000_0000_0000 * b[off + 7],
{
    if off + 2 <= b.len() {
        let s = b.subrange(off, off + 2);
        lemma_le_first(s, 0);
        lemma_le_first(s, 1);
        assert(s.subrange(0, 2) =~= s);
        assert(le_nat(s.subrange(2, 2)) == 0);
    }
    if off + 4 <= b.len() {
        let s = b.subrange(off, off + 4);
        lemma_le_first(s, 0);
        lemma_le_first(s, 1);
        lemma_le_first(s, 2);
        lemma_le_first(s, 3);
        assert(s.subrange(0, 4) =~= s);
        assert(le_nat(s.subrange(4, 4)) == 0);
    }
    if off + 8 <= b.len() {
        let s = b.subrange(off, off + 8);
        lemma_le_first(s, 0);
        lemma_le_first(s, 1);
        lemma_le_first(s, 2);
        lemma_le_first(s, 3);
        lemma_le_first(s, 4);
        lemma_le_first(s, 5);
        lemma_le_first(s, 6);
        lemma_le_first(s, 7);
        assert(s.subrange(0, 8) =~= s);
        assert(le_nat(s.subrange(8, 8)) == 0);
    }
}

/// `a` and `b` first differ at `i`, and `a` is the smaller there.
pub open spec fn falls_at(a: Seq<u8>, b: Seq<u8>, i: int) -> bool {
    &&& 0 <= i < a.len()
    &&& i < b.len()
    &&& a[i] < b[i]
    &&& forall|j: int| 0 <= j < i ==> a[j] == b[j]
}

/// Keys are ordered as byte strings: by the first byte in which they differ.
pub proof fn law_byte_order(a: Seq<u8>, b: Seq<u8>)
    requires
        a.len() == b.len(),
    ensures
        be_nat(a) < be_nat(b) <==> exists|i: int| falls_at(a, b, i),
        be_nat(a) == be_nat(b) <==> a == b,
    decreases a.len(),
{
    if be_nat(a) == be_nat(b) {
        lemma_be_injective(a, b);
    }
    if a.len() > 0 {
        let x = a.drop_last();
        let y = b.drop_last();
        let n = a.len() - 1;
        law_byte_order(x, y);
        if be_nat(a) < be_nat(b) {
            if be_nat(x) < be_nat(y) {
                let i = choose|i: int| falls_at(x, y, i);
                assert(a[i] == x[i] && b[i] == y[i]);
                assert forall|j: int| 0 <= j < i implies a[j] == b[j] by {
                    assert(x[j] == y[j]);
                }
                assert(falls_at(a, b, i));
            } else {
                assert(x == y);
                assert forall|j: int| 0 <= j < n implies a[j] == b[j] by {
                    assert(x[j] == y[j]);
                }
                assert(falls_at(a, b, n));
            }
        }
        if exists|i: int| falls_at(a, b, i) {
            let i = choose|i: int| falls_at(a, b, i);
            if i < n {
                assert(x[i] == a[i] && y[i] == b[i]);
                assert forall|j: int| 0 <= j < i implies x[j] == y[j] by {
                    assert(a[j] == b[j]);
                }
                assert(falls_at(x, y, i));
            } else {
                assert(x =~= y) by {
                    assert forall|j: int| 0 <= j < n implies x[j] == y[j] by {
                        assert(a[j] == b[j]);
                    }
                }
            }
        }
    }
}

/// Records are ordered by their key. Those of 40 bytes that are all key are ordered by their
/// first 32 bytes and then by the number behind them.
pub proof fn law_record_order(a: Seq<u8>, b: Seq<u8>, kl: int, rl: int)
    requires
        a.len() == rl,
        b.len() == rl,
        1 <= kl <= rl,
    ensures
        kl == 40 && rl == 40 ==> (rec_rank(a, kl, rl) < rec_rank(b, kl, rl) <==> (exists|i: int|
            falls_at(a.subrange(0, 32), b.subrange(0, 32), i)) || (a.subrange(0, 32) == b.subrange(
            0,
            32,
        ) && u64_at(a, 32) < u64_at(b, 32))),
        !(kl == 40 && rl == 40) ==> (rec_rank(a, kl, rl) < rec_rank(b, kl, rl) <==> exists|i: int|
            falls_at(a.subrange(0, kl), b.subrange(0, kl), i)),
        !(kl == 40 && rl == 40) ==> (rec_rank(a, kl, rl) == rec_rank(b, kl, rl) <==> a.subrange(
            0,
            kl,
        ) == b.subrange(0, kl)),
{
    law_byte_order(a.subrange(0, kl), b.subrange(0, kl));
    if kl == 40 && rl == 40 {
        let x = a.subrange(0, 32);
        let y = b.subrange(0, 32);
        law_byte_order(x, y);
        let p = be_nat(x);
        let q = be_nat(y);
        crate::bytes::lemma_p256_values();
        crate::bytes::lemma_le_nat_bound(a.subrange(32, 40));
        crate::bytes::lemma_le_nat_bound(b.subrange(32, 40));
        let u = le_nat(a.subrange(32, 40));
        let v = le_nat(b.subrange(32, 40));
        let m: nat = 0x1_0000_0000_0000_0000;
        assert(u < m && v < m);
        assert((p * m + u < q * m + v) <==> (p < q || (p == q && u < v))) by (nonlinear_arith)
            requires
                u < m,
                v < m,
                m > 0,
        ;
    }
}

proof fn lemma_digit_shift(x: nat, b: nat, i: nat)
    requires
        b >= 2,
    ensures
        (x / b) as int / pow(b as int, i) == x as int / pow(b as int, i + 1),
{
    vstd::arithmetic::power::lemma_pow_positive(b as int, i);
    vstd::arithmetic::div_mod::lemma_div_denominator(x as int, b as int, pow(b as int, i));
    reveal(pow);
    assert(pow(b as int, i + 1) == b * pow(b as int, i));
}

/// A number in variable length has its digits to the base 128, lowest first, and no more than
/// it needs; all bytes but the last carry the flag.
pub proof fn law_uleb_digits(x: nat)
    ensures
        ({
            let u = uleb(x);
            &&& u.len() >= 1
            &&& x < pow(128, u.len())
            &&& u.len() > 1 ==> x >= pow(128, (u.len() - 1) as nat)
            &&& forall|i: int|
                0 <= i < u.len() ==> (#[trigger] u[i]) % 128 == (x as int / pow(128, i as nat))
                    % 128 && (u[i] >= 128 <==> i < u.len() - 1)
        }),
    decreases x,
{
    reveal(pow);
    let u = uleb(x);
    if x < 128 {
        assert(pow(128, 0) == 1);
        assert(pow(128, 1) == 128 * pow(128, 0));
        assert(u =~= seq![x as u8]);
        assert forall|i: int| 0 <= i < u.len() implies (#[trigger] u[i]) % 128 == (x as int / pow(
            128,
            i as nat,
        )) % 128 && (u[i] >= 128 <==> i < u.len() - 1) by {
            assert(i == 0);
            assert(pow(128, i as nat) == 1);
            assert(u[i] == x);
        }
    } else {
        let y = x / 128;
        law_uleb_digits(y);
        let t = uleb(y);
        assert(u.len() == t.len() + 1);
        assert(pow(128, u.len()) == 128 * pow(128, t.len()));
        assert(x < pow(128, u.len()));
        assert(pow(128, t.len()) == 128 * pow(128, (t.len() - 1) as nat));
        if t.len() > 1 {
            assert(y >= pow(128, (t.len() - 1) as nat));
        } else {
            assert(pow(128, 0) == 1);
        }
        assert(x >= pow(128, (u.len() - 1) as nat));
        assert forall|i: int| 0 <= i < u.len() implies (#[trigger] u[i]) % 128 == (x as int / pow(
            128,
            i as nat,
        )) % 128 && (u[i] >= 128 <==> i < u.len() - 1) by {
            if i == 0 {
                assert(pow(128, 0) == 1);
                let w: u8 = (128 + x % 128) as u8;
                assert(u[0] == w);
                assert(w as int % 128 == x as int % 128);
            } else {
                assert(u[i] == t[i - 1]);
                lemma_digit_shift(x, 128, (i - 1) as nat);
            }
        }
    }
}

/// `v` is what the first `n` bytes say: byte `n - 1` is the first without the flag, and the
/// low seven bits of the bytes are the digits of `v` to the base 128, lowest first.
pub open spec fn uleb_says(s: Seq<u8>, n: nat, v: nat) -> bool {
    &&& 1 <= n <= s.len()
    &&& forall|i: int| 0 <= i < n - 1 ==> #[trigger] s[i] >= 128
    &&& s[n - 1] < 128
    &&& v < pow(128, n)
    &&& forall|i: int| 0 <= i < n ==> (v as int / pow(128, i as nat)) % 128 == #[trigger] s[i] % 128
}

proof fn lemma_uleb_says(s: Seq<u8>, n: nat, v: nat)
    requires
        uleb_says(s, n, v),
    ensures
        uleb_scan(s) == Some((v, n)),
    decreases n,
{
    reveal(pow);
    assert(pow(128, 0) == 1);
    assert((v as int / pow(128, 0)) % 128 == s[0] % 128);
    if n == 1 {
        assert(pow(128, 1) == 128 * pow(128, 0));
    } else {
        let t = s.subrange(1, s.len() as int);
        let w = v / 128;
        assert(s[0] >= 128);
        assert(pow(128, n) == 128 * pow(128, (n - 1) as nat));
        assert forall|i: int| 0 <= i < n - 1 implies (w as int / pow(128, i as nat)) % 128
            == #[trigger] t[i] % 128 by {
            assert(t[i] == s[i + 1]);
            lemma_digit_shift(v, 128, i as nat);
        }
        assert forall|i: int| 0 <= i < n - 2 implies #[trigger] t[i] >= 128 by {
            assert(t[i] == s[i + 1]);
        }
        lemma_uleb_says(t, (n - 1) as nat, w);
        assert(s[0] % 128 == s[0] - 128);
    }
}

proof fn lemma_uleb_open(s: Seq<u8>)
    requires
        forall|i: int| 0 <= i < s.len() ==> #[trigger] s[i] >= 128,
    ensures
        uleb_scan(s) is None,
    decreases s.len(),
{
    if s.len() > 0 {
        let t = s.subrange(1, s.len() as int);
        assert(s[0] >= 128);
        assert forall|i: int| 0 <= i < t.len() implies #[trigger] t[i] >= 128 by {
            assert(t[i] == s[i + 1]);
        }
        lemma_uleb_open(t);
    }
}

/// How a number of variable length reads: by its digits, where it ends within ten bytes and
/// fits in 64 bits. Bytes that all carry the flag are cut short if there are fewer than ten of
/// them, and too long else.
pub proof fn law_uleb_read(s: Seq<u8>, n: nat, v: nat)
    ensures
        uleb_says(s, n, v) && n <= 10 ==> uleb_get(s) == (if v <= u64::MAX {
            Ok::<(u64, usize), StoreError>((v as u64, n as usize))
        } else {
            Err(StoreError::Corrupt("uleb128 overflow"))
        }),
        s.len() < 10 && (forall|i: int| 0 <= i < s.len() ==> #[trigger] s[i] >= 128) ==> uleb_get(s)
            == Err::<(u64, usize), StoreError>(StoreError::Corrupt("uleb128 truncated")),
        s.len() >= 10 && (forall|i: int| 0 <= i < 10 ==> #[trigger] s[i] >= 128) ==> uleb_get(s)
            == Err::<(u64, usize), StoreError>(StoreError::Corrupt("uleb128 overflow")),
{
    let w = uleb_window(s);
    if uleb_says(s, n, v) && n <= 10 {
        assert(w[n - 1] == s[n - 1]);
        assert forall|i: int| 0 <= i < n - 1 implies #[trigger] w[i] >= 128 by {
            assert(w[i] == s[i]);
        }
        assert forall|i: int| 0 <= i < n implies (v as int / pow(128, i as nat)) % 128
            == #[trigger] w[i] % 128 by {
            assert(w[i] == s[i]);
        }
        lemma_uleb_says(w, n, v);
    }
    if (s.len() < 10 && (forall|i: int| 0 <= i < s.len() ==> #[trigger] s[i] >= 128)) || (s.len()
        >= 10 && (forall|i: int| 0 <= i < 10 ==> #[trigger] s[i] >= 128)) {
        assert forall|i: int| 0 <= i < w.len() implies #[trigger] w[i] >= 128 by {
            assert(w[i] == s[i]);
        }
        lemma_uleb_open(w);
    }
}

/// The value of a decimal text has the digits of the text.
pub proof fn law_dec_digits(s: Seq<u8>)
    requires
        all_digits(s),
    ensures
        dec_nat(s) < pow(10, s.len()),
        forall|i: int|
            0 <= i < s.len() ==> (dec_nat(s) as int / pow(10, (s.len() - 1 - i) as nat)) % 10
                == #[trigger] s[i] - 48,
    decreases s.len(),
{
    reveal(pow);
    assert(pow(10, 0) == 1);
    if s.len() > 0 {
        let d = s.drop_last();
        let x = dec_nat(s);
        assert forall|i: int| 0 <= i < d.len() implies crate::text::is_digit(#[trigger] d[i]) by {
            assert(d[i] == s[i]);
            assert(crate::text::is_digit(s[i]));
        }
        law_dec_digits(d);
        assert(crate::text::is_digit(s[s.len() - 1]));
        assert(x / 10 == dec_nat(d));
        assert(pow(10, s.len()) == 10 * pow(10, d.len()));
        assert forall|i: int| 0 <= i < s.len() implies (x as int / pow(
            10,
            (s.len() - 1 - i) as nat,
        )) % 10 == #[trigger] s[i] - 48 by {
            if i < d.len() {
                assert(s[i] == d[i]);
                lemma_digit_shift(x, 10, (d.len() - 1 - i) as nat);
            }
        }
    }
}

/// A number is written with decimal digits that give it back: as many as asked for, or more
/// without a zero in front.
pub proof fn law_dec_padded(x: nat, width: nat)
    ensures
        ({
            let s = dec_padded(x, width);
            &&& all_digits(s)
            &&& dec_nat(s) == x
            &&& s.len() >= width
            &&& s.len() > width ==> s[0] != 48
        }),
    decreases x, width,
{
    lemma_dec_padded(x, width);
    if !(x == 0 && width == 0) {
        let w = if width == 0 {
            0nat
        } else {
            (width - 1) as nat
        };
        law_dec_padded(x / 10, w);
        let p = dec_padded(x / 10, w);
        let s = dec_padded(x, width);
        if s.len() > width {
            if p.len() == 0 {
                assert(x / 10 == 0);
                assert(s[0] == 48 + x % 10);
            } else {
                assert(p[0] == s[0]);
            }
        }
    }
}

/// A decimal text is read where it is digits, with or without a plus in front, and its value
/// fits in 64 bits; nothing else is.
pub proof fn law_dec_read(s: Seq<u8>)
    ensures
        s.len() > 0 && all_digits(s) && dec_nat(s) <= u64::MAX ==> parse_dec(s) == Some(
            dec_nat(s) as u64,
        ),
        s.len() > 0 && all_digits(s) && dec_nat(s) <= u64::MAX ==> parse_dec(seq![43u8] + s)
            == Some(dec_nat(s) as u64),
        parse_dec(s) matches Some(v) ==> s.len() > 0 && ((all_digits(s) && dec_nat(s) == v) || (s[0]
            == 43 && s.len() > 1 && all_digits(s.subrange(1, s.len() as int)) && dec_nat(
            s.subrange(1, s.len() as int),
        ) == v)),
{
    let p = seq![43u8] + s;
    assert(p.subrange(1, p.len() as int) =~= s);
    if s.len() > 0 && all_digits(s) {
        assert(crate::text::is_digit(s[0]));
    }
}

/// The stem of a name ends before its last dot, if that is not the first byte, and else with
/// the name.
pub proof fn law_stem(name: Seq<u8>, i: int)
    requires
        0 <= i <= name.len(),
        forall|j: int| i <= j < name.len() ==> #[trigger] name[j] != 0x2e,
    ensures
        ({
            let p = stem_len(name, i);
            ||| 1 <= p < name.len() && name[p] == 0x2e && forall|j: int|
                p < j < name.len() ==> #[trigger] name[j] != 0x2e
            ||| p == name.len() && forall|j: int|
                1 <= j < name.len() ==> #[trigger] name[j] != 0x2e
        }),
    decreases i,
{
    if i > 1 && name[i - 1] != 0x2e {
        law_stem(name, i - 1);
    }
}

/// The hash of a key begins with the FNV offset, and each byte is mixed in by an exclusive or
/// and a product with the FNV prime. A slot is the hash modulo the slots.
pub proof fn law_fnv(s: Seq<u8>, b: u8, slots: int)
    ensures
        fnv1a(Seq::empty()) == 0xcbf2_9ce4_8422_2325u64,
        fnv1a(s.push(b)) as int == ((fnv1a(s) ^ (b as u64)) as int * 0x100_0000_01b3int)
            % 0x1_0000_0000_0000_0000,
        slots > 0 ==> 0 <= home_slot(s, slots) < slots && (fnv1a(s) - home_slot(s, slots)) % slots
            == 0,
{
    assert(s.push(b).drop_last() =~= s);
    if slots > 0 {
        let x = fnv1a(s) as int;
        vstd::arithmetic::div_mod::lemma_fundamental_div_mod(x, slots);
        vstd::arithmetic::div_mod::lemma_mod_multiples_basic(x / slots, slots);
        assert(x - x % slots == (x / slots) * slots) by (nonlinear_arith)
            requires
                x == slots * (x / slots) + x % slots,
        ;
    }
}

/// One step of the reflected checksum register.
pub open spec fn shifted_register(c: u32) -> u32 {
    if c % 2 == 1 {
        0xEDB8_8320u32 ^ ((c / 2) as u32)
    } else {
        (c / 2) as u32
    }
}

/// The checksum is CRC-32 with the reflected polynomial EDB88320: the register starts with all
/// bits set, takes each byte into its low bits and is shifted eight times, and is inverted at
/// the end.
pub proof fn law_crc(c: u32, s: Seq<u8>, b: u8)
    ensures
        crc_of(s) == crc_state(0xFFFF_FFFFu32, s) ^ 0xFFFF_FFFFu32,
        crc_of(Seq::empty()) == 0,
        crc_state(c, Seq::empty()) == c,
        ({
            let c0 = crc_state(c, s) ^ (b as u32);
            let c1 = shifted_register(c0);
            let c2 = shifted_register(c1);
            let c3 = shifted_register(c2);
            let c4 = shifted_register(c3);
            let c5 = shifted_register(c4);
            let c6 = shifted_register(c5);
            let c7 = shifted_register(c6);
            crc_state(c, s.push(b)) == shifted_register(c7)
        }),
{
    assert(s.push(b).drop_last() =~= s);
    assert(0xFFFF_FFFFu32 ^ 0xFFFF_FFFFu32 == 0) by (bit_vector);
    assert forall|x: u32| #[trigger] crc_bit(x) == shifted_register(x) by {
        assert((x & 1 != 0) <==> x % 2 == 1) by (bit_vector);
        assert(x >> 1 == x / 2) by (bit_vector);
    }
    reveal_with_fuel(crc_bits, 9);
}

} // verus!
