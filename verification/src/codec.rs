//! Byte formats of the two files a store keeps: the offsets file, a packed
//! array of little-endian `u64` byte positions, and the JSON-lines file,
//! whose lines start at those positions.

use vstd::prelude::*;
use vstd::bytes::*;

verus! {

/// The newline byte that ends each record line.
pub const NEWLINE: u8 = 10u8;

/// The offsets file that holds `offsets`: each offset as eight
/// little-endian bytes, one after another.
pub open spec fn spec_encode_offsets(offsets: Seq<u64>) -> Seq<u8>
    decreases offsets.len(),
{
    if offsets.len() == 0 {
        Seq::empty()
    } else {
        spec_encode_offsets(offsets.drop_last()) + spec_u64_to_le_bytes(offsets.last())
    }
}

/// The offsets that an offsets file holds: one per complete eight-byte
/// chunk; trailing bytes that do not fill a chunk are ignored.
pub open spec fn spec_decode_offsets(bytes: Seq<u8>) -> Seq<u64> {
    Seq::new(bytes.len() / 8, |i: int| spec_u64_from_le_bytes(bytes.subrange(8 * i, 8 * i + 8)))
}

/// The eight bytes that store one offset.
pub fn encode_offset(offset: u64) -> (bytes: Vec<u8>)
    ensures
        bytes@ == spec_u64_to_le_bytes(offset),
        bytes@.len() == 8,
{
    u64_to_le_bytes(offset)
}

proof fn lemma_encode_len(offsets: Seq<u64>)
    ensures
        spec_encode_offsets(offsets).len() == 8 * offsets.len(),
    decreases offsets.len(),
{
    lemma_auto_spec_u64_to_from_le_bytes();
    if offsets.len() > 0 {
        lemma_encode_len(offsets.drop_last());
    }
}

/// The whole offsets file for `offsets`.
pub fn encode_offsets(offsets: &Vec<u64>) -> (bytes: Vec<u8>)
    ensures
        bytes@ == spec_encode_offsets(offsets@),
{
    let mut bytes: Vec<u8> = Vec::new();
    let mut i: usize = 0;
    while i < offsets.len()
        invariant
            i <= offsets@.len(),
            bytes@ == spec_encode_offsets(offsets@.take(i as int)),
        decreases offsets.len() - i,
    {
        let mut chunk = encode_offset(offsets[i]);
        proof {
            assert(offsets@.take(i + 1).drop_last() =~= offsets@.take(i as int));
        }
        bytes.append(&mut chunk);
        i = i + 1;
    }
    assert(offsets@.take(offsets@.len() as int) =~= offsets@);
    bytes
}

/// Reads the offsets stored in an offsets file.
pub fn decode_offsets(bytes: &[u8]) -> (offsets: Vec<u64>)
    ensures
        offsets@ == spec_decode_offsets(bytes@),
{
    let len = bytes.len();
    let n = len / 8;
    let mut offsets: Vec<u64> = Vec::new();
    let mut i: usize = 0;
    while i < n
        invariant
            len == bytes@.len(),
            n == bytes@.len() / 8,
            i <= n,
            offsets@.len() == i,
            forall|k: int|
                0 <= k < i ==> #[trigger] offsets@[k] == spec_u64_from_le_bytes(
                    bytes@.subrange(8 * k, 8 * k + 8),
                ),
        decreases n - i,
    {
        assert(8 * i + 8 <= bytes@.len()) by (nonlinear_arith)
            requires
                i < n,
                n == bytes@.len() / 8,
        ;
        let chunk = &bytes[8 * i..8 * i + 8];
        offsets.push(u64_from_le_bytes(chunk));
        i = i + 1;
    }
    assert(offsets@ =~= spec_decode_offsets(bytes@));
    offsets
}

/// Reading back an offsets file gives the offsets it was written from.
pub proof fn lemma_decode_encode(offsets: Seq<u64>)
    ensures
        spec_decode_offsets(spec_encode_offsets(offsets)) == offsets,
    decreases offsets.len(),
{
    lemma_auto_spec_u64_to_from_le_bytes();
    lemma_encode_len(offsets);
    if offsets.len() > 0 {
        let init = offsets.drop_last();
        lemma_decode_encode(init);
        lemma_encode_len(init);
        let e = spec_encode_offsets(offsets);
        let ei = spec_encode_offsets(init);
        assert forall|k: int| 0 <= k < offsets.len() implies #[trigger] spec_decode_offsets(e)[k]
            == offsets[k] by {
            if k < init.len() {
                assert(e.subrange(8 * k, 8 * k + 8) =~= ei.subrange(8 * k, 8 * k + 8));
                assert(spec_decode_offsets(ei)[k] == init[k]);
            } else {
                assert(e.subrange(8 * k, 8 * k + 8) =~= spec_u64_to_le_bytes(offsets.last()));
            }
        }
        assert(spec_decode_offsets(e) =~= offsets);
    }
}

/// Appending one offset's bytes to a well-formed offsets file appends that
/// offset to what the file holds.
pub proof fn lemma_decode_append(bytes: Seq<u8>, offset: u64)
    requires
        bytes.len() % 8 == 0,
    ensures
        spec_decode_offsets(bytes + spec_u64_to_le_bytes(offset)) == spec_decode_offsets(
            bytes,
        ).push(offset),
{
    lemma_auto_spec_u64_to_from_le_bytes();
    let e = bytes + spec_u64_to_le_bytes(offset);
    let n = bytes.len() / 8;
    assert(e.len() / 8 == n + 1);
    assert forall|k: int| 0 <= k < n + 1 implies #[trigger] spec_decode_offsets(e)[k]
        == spec_decode_offsets(bytes).push(offset)[k] by {
        if k < n {
            assert(e.subrange(8 * k, 8 * k + 8) =~= bytes.subrange(8 * k, 8 * k + 8));
        } else {
            assert(e.subrange(8 * k, 8 * k + 8) =~= spec_u64_to_le_bytes(offset));
        }
    }
    assert(spec_decode_offsets(e) =~= spec_decode_offsets(bytes).push(offset));
}

} // verus!
