//! Digests.

use vstd::prelude::*;
use crate::bytes::{le32, lemma_le_nat_of_seq, lemma_p256_values, push_slice, push_u32, u32_at};

verus! {

/// SHA-256 digest of the bytes.
pub uninterp spec fn sha256_of(data: Seq<u8>) -> Seq<u8>;

/// Calls `bitcoin_hashes::sha256::Hash::hash` and `to_byte_array`. The digest
/// depends on the bytes alone; it is named and not written out.
#[verifier::external_body]
pub(crate) fn sha256(data: &[u8]) -> (r: [u8; 32])
    ensures
        r@ == sha256_of(data@),
{
    let digest: bitcoin_hashes::sha256::Hash = bitcoin_hashes::Hash::hash(data);
    bitcoin_hashes::Hash::to_byte_array(digest)
}

/// SHA-256 of the SHA-256 digest.
pub fn sha256d(data: &[u8]) -> (r: [u8; 32])
    ensures
        r@ == sha256_of(sha256_of(data@)),
{
    let d: [u8; 32] = sha256(data);
    sha256(d.as_slice())
}

/// The 80 bytes of a block header.
pub open spec fn header_bytes(
    version: u32,
    prev_hash: Seq<u8>,
    merkle_root: Seq<u8>,
    timestamp: u32,
    bits: u32,
    nonce: u32,
) -> Seq<u8> {
    le32(version) + prev_hash + merkle_root + le32(timestamp) + le32(bits) + le32(nonce)
}

/// The bytes are a block header with these fields: numbers in little-endian form, and both
/// hashes with their bytes in stored order.
pub open spec fn is_header(
    b: Seq<u8>,
    version: u32,
    prev_hash: Seq<u8>,
    merkle_root: Seq<u8>,
    timestamp: u32,
    bits: u32,
    nonce: u32,
) -> bool {
    &&& b.len() == 80
    &&& u32_at(b, 0) == version
    &&& forall|i: int| 0 <= i < 32 ==> b[4 + i] == #[trigger] prev_hash[i]
    &&& forall|i: int| 0 <= i < 32 ==> b[36 + i] == #[trigger] merkle_root[i]
    &&& u32_at(b, 68) == timestamp
    &&& u32_at(b, 72) == bits
    &&& u32_at(b, 76) == nonce
}

/// Where each field lies in the 80 bytes that are hashed.
pub proof fn law_header_fields(
    version: u32,
    prev_hash: Seq<u8>,
    merkle_root: Seq<u8>,
    timestamp: u32,
    bits: u32,
    nonce: u32,
)
    requires
        prev_hash.len() == 32,
        merkle_root.len() == 32,
    ensures
        ({
            let b = header_bytes(version, prev_hash, merkle_root, timestamp, bits, nonce);
            &&& b.len() == 80
            &&& b.subrange(0, 4) == le32(version)
            &&& b.subrange(4, 36) == prev_hash
            &&& b.subrange(36, 68) == merkle_root
            &&& b.subrange(68, 72) == le32(timestamp)
            &&& b.subrange(72, 76) == le32(bits)
            &&& b.subrange(76, 80) == le32(nonce)
            &&& is_header(b, version, prev_hash, merkle_root, timestamp, bits, nonce)
        }),
{
    let b = header_bytes(version, prev_hash, merkle_root, timestamp, bits, nonce);
    lemma_p256_values();
    lemma_le_nat_of_seq(version as nat, 4);
    lemma_le_nat_of_seq(timestamp as nat, 4);
    lemma_le_nat_of_seq(bits as nat, 4);
    lemma_le_nat_of_seq(nonce as nat, 4);
    assert(b.subrange(0, 4) =~= le32(version));
    assert(b.subrange(4, 36) =~= prev_hash);
    assert(b.subrange(36, 68) =~= merkle_root);
    assert(b.subrange(68, 72) =~= le32(timestamp));
    assert(b.subrange(72, 76) =~= le32(bits));
    assert(b.subrange(76, 80) =~= le32(nonce));
    assert forall|i: int| 0 <= i < 32 implies b[4 + i] == #[trigger] prev_hash[i] by {
        assert(b.subrange(4, 36)[i] == b[4 + i]);
    }
    assert forall|i: int| 0 <= i < 32 implies b[36 + i] == #[trigger] merkle_root[i] by {
        assert(b.subrange(36, 68)[i] == b[36 + i]);
    }
}

/// Hash of a block header.
pub fn block_header_hash(
    version: u32,
    prev_hash: &[u8; 32],
    merkle_root: &[u8; 32],
    timestamp: u32,
    bits: u32,
    nonce: u32,
) -> (r: [u8; 32])
    ensures
        r@ == sha256_of(
            sha256_of(header_bytes(version, prev_hash@, merkle_root@, timestamp, bits, nonce)),
        ),
        exists|b: Seq<u8>| #[trigger]
            is_header(b, version, prev_hash@, merkle_root@, timestamp, bits, nonce) && r@
                == sha256_of(sha256_of(b)),
{
    let mut b: Vec<u8> = Vec::new();
    push_u32(&mut b, version);
    push_slice(&mut b, prev_hash.as_slice());
    push_slice(&mut b, merkle_root.as_slice());
    push_u32(&mut b, timestamp);
    push_u32(&mut b, bits);
    push_u32(&mut b, nonce);
    proof {
        assert(b@ =~= header_bytes(version, prev_hash@, merkle_root@, timestamp, bits, nonce));
        law_header_fields(version, prev_hash@, merkle_root@, timestamp, bits, nonce);
    }
    sha256d(b.as_slice())
}

} // verus!
