//! The lane splitter: the fixed mapping between a decimal's canonical 16-byte
//! form and its four 32-bit lanes, and the exact inverse. Lane 0 reads its
//! four bytes big-endian; lanes 1 to 3 read theirs little-endian.

use vstd::prelude::*;

verus! {

/// The big-endian 32-bit value of four bytes.
pub open spec fn be32(b0: u8, b1: u8, b2: u8, b3: u8) -> u32 {
    ((b0 as u32) << 24) | ((b1 as u32) << 16) | ((b2 as u32) << 8) | (b3 as u32)
}

/// The little-endian 32-bit value of four bytes.
pub open spec fn le32(b0: u8, b1: u8, b2: u8, b3: u8) -> u32 {
    ((b3 as u32) << 24) | ((b2 as u32) << 16) | ((b1 as u32) << 8) | (b0 as u32)
}

/// Byte `k` (0 = least significant) of a 32-bit value.
pub open spec fn byte_at(v: u32, k: int) -> u8 {
    if k == 0 {
        (v & 0xff) as u8
    } else if k == 1 {
        ((v >> 8) & 0xff) as u8
    } else if k == 2 {
        ((v >> 16) & 0xff) as u8
    } else {
        ((v >> 24) & 0xff) as u8
    }
}

/// The four lanes of a 16-byte representation.
pub open spec fn split_bytes(b: Seq<u8>) -> Seq<u32>
    recommends
        b.len() == 16,
{
    seq![
        be32(b[0], b[1], b[2], b[3]),
        le32(b[4], b[5], b[6], b[7]),
        le32(b[8], b[9], b[10], b[11]),
        le32(b[12], b[13], b[14], b[15]),
    ]
}

/// The 16-byte representation rebuilt from four lanes: the exact inverse of
/// `split_bytes`.
pub open spec fn join_lanes(v0: u32, v1: u32, v2: u32, v3: u32) -> Seq<u8> {
    seq![
        byte_at(v0, 3),
        byte_at(v0, 2),
        byte_at(v0, 1),
        byte_at(v0, 0),
        byte_at(v1, 0),
        byte_at(v1, 1),
        byte_at(v1, 2),
        byte_at(v1, 3),
        byte_at(v2, 0),
        byte_at(v2, 1),
        byte_at(v2, 2),
        byte_at(v2, 3),
        byte_at(v3, 0),
        byte_at(v3, 1),
        byte_at(v3, 2),
        byte_at(v3, 3),
    ]
}

proof fn lemma_bytes_of_be32(b0: u8, b1: u8, b2: u8, b3: u8)
    by (bit_vector)
    ensures
        byte_at(be32(b0, b1, b2, b3), 3) == b0,
        byte_at(be32(b0, b1, b2, b3), 2) == b1,
        byte_at(be32(b0, b1, b2, b3), 1) == b2,
        byte_at(be32(b0, b1, b2, b3), 0) == b3,
{
}

proof fn lemma_bytes_of_le32(b0: u8, b1: u8, b2: u8, b3: u8)
    by (bit_vector)
    ensures
        byte_at(le32(b0, b1, b2, b3), 0) == b0,
        byte_at(le32(b0, b1, b2, b3), 1) == b1,
        byte_at(le32(b0, b1, b2, b3), 2) == b2,
        byte_at(le32(b0, b1, b2, b3), 3) == b3,
{
}

/// Joining the four lanes of a 16-byte value gives the value back: the
/// split/join pair is a bijection on the 16-byte domain.
pub proof fn lemma_join_split(b: Seq<u8>)
    requires
        b.len() == 16,
    ensures
        join_lanes(split_bytes(b)[0], split_bytes(b)[1], split_bytes(b)[2], split_bytes(b)[3])
            == b,
{
    lemma_bytes_of_be32(b[0], b[1], b[2], b[3]);
    lemma_bytes_of_le32(b[4], b[5], b[6], b[7]);
    lemma_bytes_of_le32(b[8], b[9], b[10], b[11]);
    lemma_bytes_of_le32(b[12], b[13], b[14], b[15]);
    assert(join_lanes(
        split_bytes(b)[0],
        split_bytes(b)[1],
        split_bytes(b)[2],
        split_bytes(b)[3],
    ) =~= b);
}

/// Splits a decimal's 16-byte representation into its four 32-bit lanes.
pub fn zip_u8(values: [u8; 16]) -> (r: [u32; 4])
    ensures
        r@ == split_bytes(values@),
{
    let r = [
        ((values[0] as u32) << 24) | ((values[1] as u32) << 16) | ((values[2] as u32) << 8) | (
        values[3] as u32),
        ((values[7] as u32) << 24) | ((values[6] as u32) << 16) | ((values[5] as u32) << 8) | (
        values[4] as u32),
        ((values[11] as u32) << 24) | ((values[10] as u32) << 16) | ((values[9] as u32) << 8) | (
        values[8] as u32),
        ((values[15] as u32) << 24) | ((values[14] as u32) << 16) | ((values[13] as u32) << 8) | (
        values[12] as u32),
    ];
    proof {
        assert(r@ =~= split_bytes(values@));
    }
    r
}

/// Rebuilds the 16-byte representation from four 32-bit lanes: the exact
/// inverse of `zip_u8`.
pub fn unzip_u8(values: [u32; 4]) -> (r: [u8; 16])
    ensures
        r@ == join_lanes(values@[0], values@[1], values@[2], values@[3]),
{
    let v0 = values[0];
    let v1 = values[1];
    let v2 = values[2];
    let v3 = values[3];
    let r = [
        ((v0 >> 24) & 0xff) as u8,
        ((v0 >> 16) & 0xff) as u8,
        ((v0 >> 8) & 0xff) as u8,
        (v0 & 0xff) as u8,
        (v1 & 0xff) as u8,
        ((v1 >> 8) & 0xff) as u8,
        ((v1 >> 16) & 0xff) as u8,
        ((v1 >> 24) & 0xff) as u8,
        (v2 & 0xff) as u8,
        ((v2 >> 8) & 0xff) as u8,
        ((v2 >> 16) & 0xff) as u8,
        ((v2 >> 24) & 0xff) as u8,
        (v3 & 0xff) as u8,
        ((v3 >> 8) & 0xff) as u8,
        ((v3 >> 16) & 0xff) as u8,
        ((v3 >> 24) & 0xff) as u8,
    ];
    proof {
        assert(r@ =~= join_lanes(values@[0], values@[1], values@[2], values@[3]));
    }
    r
}

} // verus!
