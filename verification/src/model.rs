//! Mathematical model of the codec: bit widths of delta blocks and the
//! cumulative-XOR reconstruction of a lane from a head value and its deltas.

use vstd::prelude::*;
use vstd::arithmetic::power2::pow2;

verus! {

/// Number of binary digits needed to write `v`: the smallest `w` with `v < 2^w`.
pub open spec fn bit_len(v: nat) -> nat
    decreases v,
{
    if v == 0 {
        0
    } else {
        1 + bit_len(v / 2)
    }
}

/// Every value of the sequence fits in `w` bits.
pub open spec fn fits_width(s: Seq<u32>, w: nat) -> bool {
    forall|i: int| 0 <= i < s.len() ==> (#[trigger] s[i] as nat) < pow2(w)
}

/// The smallest width that losslessly represents every value of the sequence:
/// the bit length of its largest element.
pub open spec fn blk_width(s: Seq<u32>) -> nat
    decreases s.len(),
{
    if s.len() == 0 {
        0
    } else {
        let rest = blk_width(s.drop_last());
        let last = bit_len(s.last() as nat);
        if rest >= last {
            rest
        } else {
            last
        }
    }
}

/// A sequence of `n` zero deltas.
pub open spec fn zero_deltas(n: nat) -> Seq<u32> {
    Seq::new(n, |i: int| 0u32)
}

/// The lane values reconstructed from a head value and a delta sequence:
/// the head, then each delta XOR-ed onto the running value in order.
pub open spec fn xor_undelta(head: u32, d: Seq<u32>) -> Seq<u32>
    decreases d.len(),
{
    if d.len() == 0 {
        seq![head]
    } else {
        let p = xor_undelta(head, d.drop_last());
        p.push(p.last() ^ d.last())
    }
}

pub proof fn lemma_bit_len_bound(v: nat)
    ensures
        v < pow2(bit_len(v)),
    decreases v,
{
    if v == 0 {
        vstd::arithmetic::power2::lemma2_to64();
    } else {
        vstd::arithmetic::power2::lemma_pow2_unfold(bit_len(v));
        lemma_bit_len_bound(v / 2);
    }
}

pub proof fn lemma_bit_len_at_most(v: nat, w: nat)
    requires
        v < pow2(w),
    ensures
        bit_len(v) <= w,
    decreases v,
{
    if v > 0 {
        if w == 0 {
            vstd::arithmetic::power2::lemma2_to64();
        } else {
            vstd::arithmetic::power2::lemma_pow2_unfold(w);
            lemma_bit_len_at_most(v / 2, (w - 1) as nat);
        }
    }
}

/// Each element's bit length is at most the block width.
pub proof fn lemma_blk_width_fits(s: Seq<u32>)
    ensures
        fits_width(s, blk_width(s)),
    decreases s.len(),
{
    if s.len() > 0 {
        lemma_blk_width_fits(s.drop_last());
        lemma_bit_len_bound(s.last() as nat);
        assert forall|i: int| 0 <= i < s.len() implies (#[trigger] s[i] as nat) < pow2(
            blk_width(s),
        ) by {
            if i < s.len() - 1 {
                assert(s.drop_last()[i] == s[i]);
                assert((s[i] as nat) < pow2(blk_width(s.drop_last())));
                if blk_width(s.drop_last()) < blk_width(s) {
                    vstd::arithmetic::power2::lemma_pow2_strictly_increases(
                        blk_width(s.drop_last()),
                        blk_width(s),
                    );
                }
            } else {
                if bit_len(s.last() as nat) < blk_width(s) {
                    vstd::arithmetic::power2::lemma_pow2_strictly_increases(
                        bit_len(s.last() as nat),
                        blk_width(s),
                    );
                }
            }
        }
    }
}

pub proof fn lemma_blk_width_le_32(s: Seq<u32>)
    ensures
        blk_width(s) <= 32,
    decreases s.len(),
{
    if s.len() > 0 {
        lemma_blk_width_le_32(s.drop_last());
        vstd::arithmetic::power2::lemma2_to64();
        lemma_bit_len_at_most(s.last() as nat, 32);
    }
}

/// A block of zero deltas needs width zero; conversely width zero forces zeros.
pub proof fn lemma_blk_width_zero(s: Seq<u32>)
    ensures
        blk_width(s) == 0 <==> (forall|i: int| 0 <= i < s.len() ==> s[i] == 0u32),
    decreases s.len(),
{
    if s.len() > 0 {
        lemma_blk_width_zero(s.drop_last());
        assert forall|i: int| 0 <= i < s.len() - 1 implies s.drop_last()[i] == s[i] by {}
        if blk_width(s) == 0 {
            assert forall|i: int| 0 <= i < s.len() implies s[i] == 0u32 by {
                if i < s.len() - 1 {
                    assert(s.drop_last()[i] == s[i]);
                }
            }
        }
    }
}

pub proof fn lemma_xor_undelta_len(head: u32, d: Seq<u32>)
    ensures
        xor_undelta(head, d).len() == d.len() + 1,
    decreases d.len(),
{
    if d.len() > 0 {
        lemma_xor_undelta_len(head, d.drop_last());
    }
}

pub proof fn lemma_xor_undelta_first(head: u32, d: Seq<u32>)
    ensures
        xor_undelta(head, d).len() == d.len() + 1,
        xor_undelta(head, d)[0] == head,
    decreases d.len(),
{
    lemma_xor_undelta_len(head, d);
    if d.len() > 0 {
        lemma_xor_undelta_first(head, d.drop_last());
    }
}

/// Appending a delta appends one value: the previous running value XOR the delta.
pub proof fn lemma_xor_undelta_push(head: u32, d: Seq<u32>, x: u32)
    ensures
        xor_undelta(head, d.push(x)) == xor_undelta(head, d).push(
            xor_undelta(head, d).last() ^ x,
        ),
{
    assert(d.push(x).drop_last() =~= d);
    assert(d.push(x).last() == x);
}

/// The reconstruction of a prefix of the deltas is a prefix of the reconstruction.
pub proof fn lemma_xor_undelta_prefix(head: u32, d: Seq<u32>, e: Seq<u32>, j: int)
    requires
        0 <= j <= d.len(),
    ensures
        xor_undelta(head, d + e).len() == d.len() + e.len() + 1,
        xor_undelta(head, d + e)[j] == xor_undelta(head, d)[j],
    decreases e.len(),
{
    lemma_xor_undelta_len(head, d + e);
    lemma_xor_undelta_len(head, d);
    if e.len() == 0 {
        assert(d + e =~= d);
    } else {
        assert((d + e).drop_last() =~= d + e.drop_last());
        lemma_xor_undelta_prefix(head, d, e.drop_last(), j);
        lemma_xor_undelta_len(head, d + e.drop_last());
        assert(xor_undelta(head, d + e)[j] == xor_undelta(head, (d + e).drop_last())[j]);
    }
}

/// A constant lane has all-zero deltas, and zero deltas keep the lane constant.
pub proof fn lemma_constant_lane_zero_deltas(head: u32, d: Seq<u32>)
    requires
        forall|i: int|
            0 <= i < xor_undelta(head, d).len() ==> #[trigger] xor_undelta(head, d)[i]
                == xor_undelta(head, d)[0],
    ensures
        forall|i: int| 0 <= i < d.len() ==> d[i] == 0u32,
    decreases d.len(),
{
    lemma_xor_undelta_len(head, d);
    if d.len() > 0 {
        let p = xor_undelta(head, d.drop_last());
        lemma_xor_undelta_len(head, d.drop_last());
        assert(xor_undelta(head, d) == p.push(p.last() ^ d.last()));
        assert forall|i: int|
            0 <= i < p.len() implies #[trigger] p[i] == p[0] by {
            assert(xor_undelta(head, d)[i] == p[i]);
            assert(xor_undelta(head, d)[0] == p[0]);
        }
        lemma_constant_lane_zero_deltas(head, d.drop_last());
        let a = p.last();
        let x = d.last();
        assert(xor_undelta(head, d).last() == (a ^ x));
        assert(xor_undelta(head, d)[p.len() - 1] == a);
        assert((a ^ x) == a);
        assert((a ^ x) == a ==> x == 0u32) by (bit_vector);
        assert forall|i: int| 0 <= i < d.len() implies d[i] == 0u32 by {
            if i < d.len() - 1 {
                assert(d.drop_last()[i] == d[i]);
            }
        }
    }
}

} // verus!
