//! The binary shapes of the stored records, and the trusted bridges to the
//! outside encoders.
//!
//! Records are laid out as borsh lays them out: integers little-endian, a
//! sequence as a 32-bit count followed by its elements. The schema version is
//! stored as the JSON text of its number.

use vstd::prelude::*;

use crate::StoreError;

verus! {

/// The eight little-endian bytes of a 64-bit value.
pub open spec fn u64_le(v: u64) -> Seq<u8> {
    seq![
        (v & 0xff) as u8,
        ((v >> 8) & 0xff) as u8,
        ((v >> 16) & 0xff) as u8,
        ((v >> 24) & 0xff) as u8,
        ((v >> 32) & 0xff) as u8,
        ((v >> 40) & 0xff) as u8,
        ((v >> 48) & 0xff) as u8,
        ((v >> 56) & 0xff) as u8,
    ]
}

/// The 64-bit value read little-endian from eight bytes.
pub open spec fn le_to_u64(s: Seq<u8>) -> u64
    recommends
        s.len() == 8,
{
    (s[0] as u64) | ((s[1] as u64) << 8) | ((s[2] as u64) << 16) | ((s[3] as u64) << 24)
        | ((s[4] as u64) << 32) | ((s[5] as u64) << 40) | ((s[6] as u64) << 48) | (
    (s[7] as u64) << 56)
}

/// The four little-endian bytes of a 32-bit value.
pub open spec fn u32_le(v: u32) -> Seq<u8> {
    seq![(v & 0xff) as u8, ((v >> 8) & 0xff) as u8, ((v >> 16) & 0xff) as u8, ((v >> 24) & 0xff) as u8]
}

/// The 32-bit value read little-endian from four bytes.
pub open spec fn le_to_u32(s: Seq<u8>) -> u32
    recommends
        s.len() == 4,
{
    (s[0] as u32) | ((s[1] as u32) << 8) | ((s[2] as u32) << 16) | ((s[3] as u32) << 24)
}

pub proof fn lemma_u64_le_round_trip(v: u64)
    ensures
        le_to_u64(u64_le(v)) == v,
{
    assert((((v & 0xff) as u8) as u64) | ((((v >> 8) & 0xff) as u8) as u64) << 8 | ((((v >> 16)
        & 0xff) as u8) as u64) << 16 | ((((v >> 24) & 0xff) as u8) as u64) << 24 | ((((v >> 32)
        & 0xff) as u8) as u64) << 32 | ((((v >> 40) & 0xff) as u8) as u64) << 40 | ((((v >> 48)
        & 0xff) as u8) as u64) << 48 | ((((v >> 56) & 0xff) as u8) as u64) << 56 == v)
        by (bit_vector);
}

pub proof fn lemma_u32_le_round_trip(v: u32)
    ensures
        le_to_u32(u32_le(v)) == v,
{
    assert((((v & 0xff) as u8) as u32) | ((((v >> 8) & 0xff) as u8) as u32) << 8 | ((((v >> 16)
        & 0xff) as u8) as u32) << 16 | ((((v >> 24) & 0xff) as u8) as u32) << 24 == v)
        by (bit_vector);
}

/// Relies on borsh's `BorshSerialize` for `u64`: the value is written as its
/// eight little-endian bytes.
#[verifier::external_body]
pub fn borsh_u64_to_vec(v: u64) -> (r: Vec<u8>)
    ensures
        r@ == u64_le(v),
{
    borsh::to_vec(&v).unwrap()
}

/// Relies on borsh's `BorshDeserialize` for `u64`: `try_from_slice` succeeds
/// exactly on eight-byte input and reads the value little-endian.
#[verifier::external_body]
pub fn borsh_u64_from_slice(bytes: &[u8]) -> (r: Option<u64>)
    ensures
        r is Some <==> bytes@.len() == 8,
        bytes@.len() == 8 ==> r == Some(le_to_u64(bytes@)),
{
    <u64 as borsh::BorshDeserialize>::try_from_slice(bytes).ok()
}

/// Relies on borsh's `BorshSerialize` for `u32`: the value is written as its
/// four little-endian bytes.
#[verifier::external_body]
pub fn borsh_u32_to_vec(v: u32) -> (r: Vec<u8>)
    ensures
        r@ == u32_le(v),
{
    borsh::to_vec(&v).unwrap()
}

/// Relies on borsh's `BorshDeserialize` for `u32`: `try_from_slice` succeeds
/// exactly on four-byte input and reads the value little-endian.
#[verifier::external_body]
pub fn borsh_u32_from_slice(bytes: &[u8]) -> (r: Option<u32>)
    ensures
        r is Some <==> bytes@.len() == 4,
        bytes@.len() == 4 ==> r == Some(le_to_u32(bytes@)),
{
    <u32 as borsh::BorshDeserialize>::try_from_slice(bytes).ok()
}

/// The ASCII decimal digits of a 32-bit value, most significant first.
pub open spec fn dec_u32(v: u32) -> Seq<u8>
    decreases v,
{
    if v < 10 {
        seq![(0x30 + v) as u8]
    } else {
        dec_u32(v / 10).push((0x30 + v % 10) as u8)
    }
}

/// Relies on serde_json's serializer for `u32`: a number is written as its
/// plain decimal digits, with no sign, spaces or exponent.
#[verifier::external_body]
pub fn json_u32_to_vec(v: u32) -> (r: Vec<u8>)
    ensures
        r@ == dec_u32(v),
{
    serde_json::to_vec(&v).unwrap()
}

/// Relies on serde_json's parser for `u32`: parsing the plain decimal digits
/// of a value yields that value back.
#[verifier::external_body]
pub fn json_u32_from_slice(bytes: &[u8]) -> (r: Option<u32>)
    ensures
        forall|u: u32| bytes@ == dec_u32(u) ==> r == Some(u),
{
    serde_json::from_slice::<u32>(bytes).ok()
}

/// An execution-outcome record: the outcome's own identifier and the hash of
/// the block it was produced in.
#[derive(Clone, Copy, PartialEq, Eq, Structural, Debug)]
pub struct ExecutionOutcomeWithIdAndProof {
    pub id: u64,
    pub block_hash: u64,
}

/// A chunk record: the ordered hashes of the transactions it carries.
#[derive(PartialEq, Eq, Debug)]
pub struct ShardChunk {
    pub transactions: Vec<u64>,
}

/// The decoded shape of an outcome record: sixteen bytes, id then block hash.
pub open spec fn decode_outcome_spec(s: Seq<u8>) -> Option<(u64, u64)> {
    if s.len() == 16 {
        Some((le_to_u64(s.subrange(0, 8)), le_to_u64(s.subrange(8, 16))))
    } else {
        None
    }
}

/// The decoded shape of a hash sequence (a chunk's transactions, or a stored
/// set of outcome ids): a 32-bit count, then that many 64-bit hashes.
pub open spec fn decode_hash_seq_spec(s: Seq<u8>) -> Option<Seq<u64>> {
    if s.len() >= 4 && s.len() == 4 + 8 * (le_to_u32(s.subrange(0, 4)) as int) {
        Some(
            Seq::new(
                le_to_u32(s.subrange(0, 4)) as nat,
                |i: int| le_to_u64(s.subrange(4 + 8 * i, 12 + 8 * i)),
            ),
        )
    } else {
        None
    }
}

pub fn decode_outcome(bytes: &[u8]) -> (r: Result<ExecutionOutcomeWithIdAndProof, StoreError>)
    ensures
        match r {
            Ok(o) => decode_outcome_spec(bytes@) == Some((o.id, o.block_hash)),
            Err(e) => e == StoreError::Decode && decode_outcome_spec(bytes@) is None,
        },
{
    if bytes.len() != 16 {
        return Err(StoreError::Decode);
    }
    let id_bytes = vstd::slice::slice_subrange(bytes, 0, 8);
    let block_bytes = vstd::slice::slice_subrange(bytes, 8, 16);
    let id = borsh_u64_from_slice(id_bytes).unwrap();
    let block_hash = borsh_u64_from_slice(block_bytes).unwrap();
    Ok(ExecutionOutcomeWithIdAndProof { id, block_hash })
}

pub fn encode_outcome(o: &ExecutionOutcomeWithIdAndProof) -> (r: Vec<u8>)
    ensures
        decode_outcome_spec(r@) == Some((o.id, o.block_hash)),
{
    let mut out = borsh_u64_to_vec(o.id);
    let mut rest = borsh_u64_to_vec(o.block_hash);
    out.append(&mut rest);
    proof {
        lemma_u64_le_round_trip(o.id);
        lemma_u64_le_round_trip(o.block_hash);
        assert(out@.subrange(0, 8) =~= u64_le(o.id));
        assert(out@.subrange(8, 16) =~= u64_le(o.block_hash));
    }
    out
}

pub fn decode_hash_seq(bytes: &[u8]) -> (r: Result<Vec<u64>, StoreError>)
    ensures
        match r {
            Ok(v) => decode_hash_seq_spec(bytes@) == Some(v@),
            Err(e) => e == StoreError::Decode && decode_hash_seq_spec(bytes@) is None,
        },
{
    if bytes.len() < 4 {
        return Err(StoreError::Decode);
    }
    let count_bytes = vstd::slice::slice_subrange(bytes, 0, 4);
    let count = borsh_u32_from_slice(count_bytes).unwrap();
    let body_len = bytes.len() - 4;
    if body_len % 8 != 0 || body_len / 8 != count as usize {
        proof {
            let n = le_to_u32(bytes@.subrange(0, 4)) as int;
            assert(bytes@.len() != 4 + 8 * n);
        }
        return Err(StoreError::Decode);
    }
    let ghost spec_result = decode_hash_seq_spec(bytes@)->Some_0;
    let mut hashes: Vec<u64> = Vec::new();
    let n = count as usize;
    assert(4 + 8 * (n as int) <= usize::MAX);
    for i in 0..n
        invariant
            n == le_to_u32(bytes@.subrange(0, 4)),
            bytes@.len() == 4 + 8 * n,
            4 + 8 * (n as int) <= usize::MAX,
            decode_hash_seq_spec(bytes@) == Some(spec_result),
            spec_result.len() == n,
            hashes@ =~= spec_result.subrange(0, i as int),
    {
        let h_bytes = vstd::slice::slice_subrange(bytes, 4 + 8 * i, 12 + 8 * i);
        let h = borsh_u64_from_slice(h_bytes).unwrap();
        hashes.push(h);
        proof {
            assert(spec_result[i as int] == le_to_u64(
                bytes@.subrange(4 + 8 * (i as int), 12 + 8 * (i as int)),
            ));
            assert(hashes@ =~= spec_result.subrange(0, i as int + 1));
        }
    }
    proof {
        assert(hashes@ =~= spec_result);
    }
    Ok(hashes)
}

pub fn encode_hash_seq(hashes: &Vec<u64>) -> (r: Result<Vec<u8>, StoreError>)
    ensures
        match r {
            Ok(v) => decode_hash_seq_spec(v@) == Some(hashes@),
            Err(e) => e == StoreError::Encode && hashes@.len() > u32::MAX,
        },
{
    if hashes.len() > u32::MAX as usize {
        return Err(StoreError::Encode);
    }
    let n = hashes.len() as u32;
    let mut out = borsh_u32_to_vec(n);
    proof {
        lemma_u32_le_round_trip(n);
    }
    let end = hashes.len();
    for i in 0..end
        invariant
            end == hashes@.len(),
            end <= u32::MAX,
            n == end,
            out@.len() == 4 + 8 * i,
            out@.subrange(0, 4) =~= u32_le(n),
            forall|j: int|
                0 <= j < i ==> out@.subrange(4 + 8 * j, 12 + 8 * j) =~= u64_le(hashes@[j]),
    {
        let mut piece = borsh_u64_to_vec(hashes[i]);
        let ghost old_out = out@;
        out.append(&mut piece);
        proof {
            assert(out@.subrange(0, 4) =~= old_out.subrange(0, 4));
            assert forall|j: int| 0 <= j < i implies out@.subrange(4 + 8 * j, 12 + 8 * j)
                =~= u64_le(hashes@[j]) by {
                assert(out@.subrange(4 + 8 * j, 12 + 8 * j) =~= old_out.subrange(
                    4 + 8 * j,
                    12 + 8 * j,
                ));
            }
            assert(out@.subrange(4 + 8 * (i as int), 12 + 8 * (i as int)) =~= u64_le(
                hashes@[i as int],
            ));
        }
    }
    proof {
        lemma_u32_le_round_trip(n);
        assert(le_to_u32(out@.subrange(0, 4)) == n);
        assert(out@.len() == 4 + 8 * (n as int));
        let decoded = decode_hash_seq_spec(out@)->Some_0;
        assert forall|j: int| 0 <= j < n implies decoded[j] == hashes@[j] by {
            lemma_u64_le_round_trip(hashes@[j]);
            assert(out@.subrange(4 + 8 * j, 12 + 8 * j) =~= u64_le(hashes@[j]));
        }
        assert(decoded =~= hashes@);
    }
    Ok(out)
}

} // verus!
