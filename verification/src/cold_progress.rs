//! Marks of a cold load: how far it came, and the highest create that the index
//! holds for sure.

use vstd::prelude::*;
use crate::bytes::{bytes_at, get_u32, get_u64, le32, le64, lemma_le_nat_of_seq, lemma_p256_values, push_slice, push_u32, push_u64, u32_at, u64_at};

verus! {

/// Name of the progress file.
pub const COLD_PROGRESS_NAME: &'static str = "scripthash.cold_progress";

/// First bytes of the progress file.
pub const COLD_PROGRESS_MAGIC: [u8; 8] = [0x53, 0x48, 0x43, 0x4f, 0x4c, 0x44, 0x50, 0x31];

/// Name of the file with the highest create.
pub const INCLUDE_HWM_NAME: &'static str = "scripthash.include_hwm";

/// State after a shard was installed.
#[derive(Clone, Copy, Debug, PartialEq, Eq, Structural)]
pub struct ColdProgress {
    /// Next shard to fill; the number of shards when all are done.
    pub next_shard: u32,
    /// End of the body after the last complete shard.
    pub body_bump: u64,
    pub live_count: u64,
    pub keys_written: u64,
}

/// Contents of the progress file.
pub open spec fn progress_bytes(p: ColdProgress) -> Seq<u8> {
    COLD_PROGRESS_MAGIC@ + le32(p.next_shard) + le64(p.body_bump) + le64(p.live_count) + le64(
        p.keys_written,
    )
}

/// What a progress file says (`None` where it is none).
pub open spec fn progress_value(b: Seq<u8>) -> Option<ColdProgress> {
    if b.len() < 36 || b.subrange(0, 8) != COLD_PROGRESS_MAGIC@ {
        None
    } else {
        Some(
            ColdProgress {
                next_shard: u32_at(b, 8),
                body_bump: u64_at(b, 12),
                live_count: u64_at(b, 20),
                keys_written: u64_at(b, 28),
            },
        )
    }
}

impl ColdProgress {
    /// Reads the progress file. A file that is missing, short or another kind of
    /// file means no progress.
    pub fn load(file: Option<&[u8]>) -> (r: Option<ColdProgress>)
        ensures
            r == (match file {
                Some(b) => progress_value(b@),
                None => None,
            }),
    {
        match file {
            None => None,
            Some(b) => {
                if b.len() < 36 || !bytes_at(b, 0, COLD_PROGRESS_MAGIC.as_slice()) {
                    return None;
                }
                Some(
                    ColdProgress {
                        next_shard: get_u32(b, 8),
                        body_bump: get_u64(b, 12),
                        live_count: get_u64(b, 20),
                        keys_written: get_u64(b, 28),
                    },
                )
            },
        }
    }

    /// Contents of the progress file.
    pub fn store(&self) -> (r: Vec<u8>)
        ensures
            r@ == progress_bytes(*self),
    {
        let mut buf: Vec<u8> = Vec::new();
        push_slice(&mut buf, COLD_PROGRESS_MAGIC.as_slice());
        push_u32(&mut buf, self.next_shard);
        push_u64(&mut buf, self.body_bump);
        push_u64(&mut buf, self.live_count);
        push_u64(&mut buf, self.keys_written);
        proof {
            assert(buf@ =~= progress_bytes(*self));
        }
        buf
    }
}

/// A progress file gives back what was stored.
pub proof fn law_progress_roundtrip(p: ColdProgress)
    ensures
        progress_value(progress_bytes(p)) == Some(p),
{
    lemma_p256_values();
    lemma_le_nat_of_seq(p.next_shard as nat, 4);
    lemma_le_nat_of_seq(p.body_bump as nat, 8);
    lemma_le_nat_of_seq(p.live_count as nat, 8);
    lemma_le_nat_of_seq(p.keys_written as nat, 8);
    let b = progress_bytes(p);
    assert(b.subrange(0, 8) =~= COLD_PROGRESS_MAGIC@);
    assert(b.subrange(8, 12) =~= le32(p.next_shard));
    assert(b.subrange(12, 20) =~= le64(p.body_bump));
    assert(b.subrange(20, 28) =~= le64(p.live_count));
    assert(b.subrange(28, 36) =~= le64(p.keys_written));
}

/// The highest create that a file says (0 for a missing or short file).
pub open spec fn hwm_value(file: Option<Seq<u8>>) -> u64 {
    match file {
        Some(b) => if b.len() < 8 {
            0
        } else {
            u64_at(b, 0)
        },
        None => 0,
    }
}

/// Bytes of an optional file.
pub open spec fn file_view(file: Option<&[u8]>) -> Option<Seq<u8>> {
    match file {
        Some(b) => Some(b@),
        None => None,
    }
}

/// Reads the highest create (0 for a missing or short file).
pub fn load_include_hwm(file: Option<&[u8]>) -> (r: u64)
    ensures
        r == hwm_value(file_view(file)),
{
    match file {
        None => 0,
        Some(b) => if b.len() < 8 {
            0
        } else {
            get_u64(b, 0)
        },
    }
}

/// New contents of the file with the highest create; `None` where the file stays
/// as it is, because the value would not rise.
pub fn store_include_hwm(file: Option<&[u8]>, max_create_fk: u64) -> (r: Option<Vec<u8>>)
    ensures
        match r {
            Some(v) => max_create_fk > hwm_value(file_view(file)) && v@ == le64(max_create_fk),
            None => max_create_fk <= hwm_value(file_view(file)),
        },
{
    if max_create_fk == 0 {
        return None;
    }
    if max_create_fk <= load_include_hwm(file) {
        return None;
    }
    let mut v: Vec<u8> = Vec::new();
    push_u64(&mut v, max_create_fk);
    proof {
        assert(v@ =~= le64(max_create_fk));
    }
    Some(v)
}

/// The file after a store.
pub open spec fn hwm_after(file: Option<Seq<u8>>, max_create_fk: u64) -> Option<Seq<u8>> {
    if max_create_fk > hwm_value(file) {
        Some(le64(max_create_fk))
    } else {
        file
    }
}

/// The stored value is the larger of the old value and the new one: it never
/// falls.
pub proof fn law_hwm_rises(file: Option<Seq<u8>>, max_create_fk: u64)
    ensures
        hwm_value(hwm_after(file, max_create_fk)) == (if max_create_fk > hwm_value(file) {
            max_create_fk
        } else {
            hwm_value(file)
        }),
{
    lemma_p256_values();
    lemma_le_nat_of_seq(max_create_fk as nat, 8);
    assert(le64(max_create_fk).subrange(0, 8) =~= le64(max_create_fk));
}

} // verus!
