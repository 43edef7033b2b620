//! How many workers the memory of the host allows.

use vstd::prelude::*;
use crate::text::{parse_dec, parse_u64};

verus! {

/// Free memory that each worker of the index build is given.
pub const SH_WORKER_FREE_RAM_BYTES: u64 = 1_610_612_736;

/// `x` within `1..=256`.
pub open spec fn clamp_workers(x: int) -> int {
    if x < 1 {
        1
    } else if x > 256 {
        256
    } else {
        x
    }
}

/// `x` within `1..=256`.
pub fn clamp_worker_count(x: usize) -> (r: usize)
    ensures
        r == clamp_workers(x as int),
{
    if x < 1 {
        1
    } else if x > 256 {
        256
    } else {
        x
    }
}

/// Worker count: one per processor, and one per share of free memory, at least one.
pub open spec fn workers_for(cpus: int, free_bytes: int) -> int {
    let c = clamp_workers(cpus);
    let m = clamp_workers(free_bytes / 1_610_612_736);
    if c < m {
        c
    } else {
        m
    }
}

/// Worker count: one per processor, and one per share of free memory, at least one.
pub fn sh_workers_for_free_ram(cpus: usize, free_bytes: u64) -> (r: usize)
    ensures
        r == workers_for(cpus as int, free_bytes as int),
{
    let c: usize = clamp_worker_count(cpus);
    let shares: u64 = free_bytes / SH_WORKER_FREE_RAM_BYTES;
    let m: usize = if shares > 256 {
        256
    } else {
        clamp_worker_count(shares as usize)
    };
    if c < m {
        c
    } else {
        m
    }
}

/// One worker for each processor, but no more than free memory allows; one where it is
/// unknown.
pub fn sh_workers_capped_by_free_ram(cpus: usize, free_bytes: Option<u64>) -> (r: usize)
    ensures
        r == workers_for(
            cpus as int,
            match free_bytes {
                Some(b) => b as int,
                None => 0,
            },
        ),
{
    sh_workers_for_free_ram(
        cpus,
        match free_bytes {
            Some(b) => b,
            None => 0,
        },
    )
}

/// Worker count of a merge: an explicit one, else what free memory allows.
pub fn sh_merge_workers(given: Option<usize>, cpus: usize, free_bytes: Option<u64>) -> (r: usize)
    ensures
        r == (match given {
            Some(n) => clamp_workers(n as int),
            None => workers_for(
                cpus as int,
                match free_bytes {
                    Some(b) => b as int,
                    None => 0,
                },
            ),
        }),
{
    match given {
        Some(n) => clamp_worker_count(n),
        None => sh_workers_capped_by_free_ram(cpus, free_bytes),
    }
}

/// ASCII white space.
pub open spec fn is_space(b: u8) -> bool {
    b == 32 || 9 <= b <= 13
}

/// First place from `i` on that is the end of a line.
pub open spec fn line_end(s: Seq<u8>, i: int) -> int
    decreases s.len() - i,
{
    if i >= s.len() {
        s.len() as int
    } else if s[i] == 10 {
        i
    } else {
        line_end(s, i + 1)
    }
}

/// First place from `i` on, before `e`, that is not white space.
pub open spec fn skip_space(s: Seq<u8>, i: int, e: int) -> int
    decreases e - i,
{
    if i >= e {
        e
    } else if is_space(s[i]) {
        skip_space(s, i + 1, e)
    } else {
        i
    }
}

/// First place from `i` on, before `e`, that is white space.
pub open spec fn skip_word(s: Seq<u8>, i: int, e: int) -> int
    decreases e - i,
{
    if i >= e {
        e
    } else if is_space(s[i]) {
        i
    } else {
        skip_word(s, i + 1, e)
    }
}

/// The label of the line with the free memory.
pub open spec fn mem_label() -> Seq<u8> {
    seq![
        0x4du8, 0x65u8, 0x6du8, 0x41u8, 0x76u8, 0x61u8, 0x69u8, 0x6cu8, 0x61u8, 0x62u8, 0x6cu8,
        0x65u8, 0x3au8,
    ]
}

/// The line at `i..e` starts with the label.
pub open spec fn has_label(s: Seq<u8>, i: int, e: int) -> bool {
    i + 13 <= e && s.subrange(i, i + 13) == mem_label()
}

/// Free memory that the text from line start `i` on tells, in bytes: the number
/// of kilobytes in the first word behind the label of the first line with it.
pub open spec fn meminfo(s: Seq<u8>, i: int) -> Option<u64>
    decreases s.len() + 1 - i,
    via meminfo_decreases
{
    if i < 0 || i >= s.len() {
        None
    } else {
        let e = line_end(s, i);
        if has_label(s, i, e) {
            let a = skip_space(s, i + 13, e);
            let b = skip_word(s, a, e);
            match parse_dec(s.subrange(a, b)) {
                None => None,
                Some(kb) => Some(
                    if kb * 1024 > u64::MAX {
                        u64::MAX
                    } else {
                        (kb * 1024) as u64
                    },
                ),
            }
        } else {
            meminfo(s, e + 1)
        }
    }
}

#[via_fn]
proof fn meminfo_decreases(s: Seq<u8>, i: int) {
    if 0 <= i < s.len() {
        lemma_line_end(s, i);
    }
}

proof fn lemma_line_end(s: Seq<u8>, i: int)
    requires
        0 <= i <= s.len(),
    ensures
        i <= line_end(s, i) <= s.len(),
    decreases s.len() - i,
{
    if i < s.len() && s[i] != 10 {
        lemma_line_end(s, i + 1);
    }
}

fn label_bytes() -> (r: Vec<u8>)
    ensures
        r@ == mem_label(),
{
    let v: Vec<u8> = vec![
        0x4d, 0x65, 0x6d, 0x41, 0x76, 0x61, 0x69, 0x6c, 0x61, 0x62, 0x6c, 0x65, 0x3a,
    ];
    proof {
        assert(v@ =~= mem_label());
    }
    v
}

/// Free memory that the text of `/proc/meminfo` tells, in bytes.
pub fn mem_available_from_meminfo(text: &[u8]) -> (r: Option<u64>)
    ensures
        r == meminfo(text@, 0),
{
    let label = label_bytes();
    let n: usize = text.len();
    let mut i: usize = 0;
    while i < n
        invariant
            i <= n + 1,
            n == text@.len(),
            label@ == mem_label(),
            meminfo(text@, 0) == meminfo(text@, i as int),
        decreases n + 1 - i,
    {
        let mut e: usize = i;
        while e < n && text[e] != 10
            invariant
                i <= e <= n,
                n == text@.len(),
                line_end(text@, i as int) == line_end(text@, e as int),
            decreases n - e,
        {
            e += 1;
        }
        if e - i >= 13 && crate::bytes::bytes_at(text, i, label.as_slice()) {
            let mut a: usize = i + 13;
            while a < e && (text[a] == 32 || (9 <= text[a] && text[a] <= 13))
                invariant
                    i + 13 <= a <= e <= n,
                    n == text@.len(),
                    skip_space(text@, i + 13, e as int) == skip_space(text@, a as int, e as int),
                decreases e - a,
            {
                a += 1;
            }
            let mut b: usize = a;
            while b < e && !(text[b] == 32 || (9 <= text[b] && text[b] <= 13))
                invariant
                    a <= b <= e <= n,
                    n == text@.len(),
                    skip_word(text@, a as int, e as int) == skip_word(text@, b as int, e as int),
                decreases e - b,
            {
                b += 1;
            }
            return match parse_u64(text, a, b) {
                None => None,
                Some(kb) => if kb > 0xffff_ffff_ffff_ffff / 1024 {
                    Some(0xffff_ffff_ffff_ffff)
                } else {
                    Some(kb * 1024)
                },
            };
        }
        if e == n {
            proof {
                assert(meminfo(text@, n + 1) is None);
            }
            return None;
        }
        i = e + 1;
    }
    None
}

/// Free and inactive pages in bytes (`None` without a page size).
pub fn mem_available_from_darwin_vm(page_size: u64, free_count: u64, inactive_count: u64) -> (r:
    Option<u64>)
    ensures
        r == (if page_size == 0 {
            None
        } else {
            let pages = if free_count + inactive_count > u64::MAX {
                u64::MAX as int
            } else {
                free_count + inactive_count
            };
            Some(
                if pages * page_size > u64::MAX {
                    u64::MAX
                } else {
                    (pages * page_size) as u64
                },
            )
        }),
{
    if page_size == 0 {
        return None;
    }
    let pages: u64 = match free_count.checked_add(inactive_count) {
        Some(x) => x,
        None => u64::MAX,
    };
    match pages.checked_mul(page_size) {
        Some(x) => Some(x),
        None => Some(u64::MAX),
    }
}

} // verus!
