//! The streaming codec: a per-lane chunk cache, the packer that grows four
//! block lists in lock-step, and the stateless decoder that reconstructs the
//! ingested decimals.

use vstd::prelude::*;
use bitpacking::BitPacker8x;
use rust_decimal::Decimal;
use crate::decimal::dec_bytes;
use crate::decimal::dec_deserialize;
use crate::decimal::dec_from_str;
use crate::decimal::dec_serialize;
use crate::decimal::parsed_dec;
use crate::decimal::trim_zeros;
use crate::decimal::trim_zeros_str;
use crate::lanes::join_lanes;
use crate::lanes::lemma_join_split;
use crate::lanes::split_bytes;
use crate::lanes::unzip_u8;
use crate::lanes::zip_u8;
use crate::model::blk_width;
use crate::model::lemma_blk_width_fits;
use crate::model::lemma_blk_width_zero;
use crate::model::lemma_constant_lane_zero_deltas;
use crate::model::lemma_xor_undelta_first;
use crate::model::lemma_xor_undelta_len;
use crate::model::lemma_xor_undelta_prefix;
use crate::model::lemma_xor_undelta_push;
use crate::model::xor_undelta;
use crate::model::zero_deltas;
use crate::packing::bp_compress;
use crate::packing::bp_decompress;
use crate::packing::bp_new;
use crate::packing::bp_num_bits;
use crate::packing::packed_bytes;

verus! {

/// How the codec fails: a literal the decimal collaborator cannot parse, or
/// a packed stream whose structural invariants are violated.
#[derive(Clone, Copy, Debug, PartialEq, Eq, Structural)]
pub enum CodecError {
    ParseFailed,
    CorruptStream,
}

/// The persisted unit of compressed data for one lane of one chunk: the
/// minimal bit width, the raw head value, and the 256 deltas packed at that
/// width.
pub struct Block {
    bits: u8,
    head: u32,
    vals: Vec<u8>,
    deltas: Ghost<Seq<u32>>,
}

impl Block {
    pub closed spec fn spec_bits(self) -> u8 {
        self.bits
    }

    pub closed spec fn spec_head(self) -> u32 {
        self.head
    }

    pub closed spec fn spec_vals(self) -> Seq<u8> {
        self.vals@
    }

    /// The 256 deltas this block packs.
    pub closed spec fn spec_deltas(self) -> Seq<u32> {
        self.deltas@
    }

    /// The 257 lane values the block stands for: its head followed by the
    /// cumulative XOR of its deltas.
    pub open spec fn lane_vals(self) -> Seq<u32> {
        xor_undelta(self.spec_head(), self.spec_deltas())
    }

    #[verifier::type_invariant]
    spec fn inv(self) -> bool {
        &&& self.deltas@.len() == 256
        &&& self.bits as nat == blk_width(self.deltas@)
        &&& self.vals@.len() == (self.bits as nat) * 32
        &&& self.vals@ == packed_bytes(self.deltas@, self.bits as nat)
    }

    pub fn bits(&self) -> (r: u8)
        ensures
            r == self.spec_bits(),
    {
        self.bits
    }

    pub fn head(&self) -> (r: u32)
        ensures
            r == self.spec_head(),
    {
        self.head
    }

    pub fn vals(&self) -> (r: &Vec<u8>)
        ensures
            r@ == self.spec_vals(),
    {
        &self.vals
    }
}

/// Every block of the list packs a full 256-slot delta buffer.
pub open spec fn blocks_sized(bs: Seq<Block>) -> bool {
    forall|i: int| 0 <= i < bs.len() ==> (#[trigger] bs[i].spec_deltas()).len() == 256
}

/// The lane values that decoding a block list yields: 257 values per block,
/// in list order.
pub open spec fn lane_stream(bs: Seq<Block>) -> Seq<u32>
    decreases bs.len(),
{
    if bs.len() == 0 {
        Seq::empty()
    } else {
        lane_stream(bs.drop_last()) + bs.last().lane_vals()
    }
}

pub proof fn lemma_lane_stream_len(bs: Seq<Block>)
    requires
        blocks_sized(bs),
    ensures
        lane_stream(bs).len() == 257 * bs.len(),
    decreases bs.len(),
{
    if bs.len() > 0 {
        assert(blocks_sized(bs.drop_last())) by {
            assert forall|i: int|
                0 <= i < bs.len() - 1 implies (#[trigger] bs.drop_last()[i].spec_deltas()).len()
                == 256 by {
                assert(bs.drop_last()[i] == bs[i]);
            }
        }
        lemma_lane_stream_len(bs.drop_last());
        lemma_xor_undelta_len(bs.last().spec_head(), bs.last().spec_deltas());
    }
}

pub proof fn lemma_lane_stream_push(bs: Seq<Block>, b: Block)
    ensures
        lane_stream(bs.push(b)) == lane_stream(bs) + b.lane_vals(),
{
    assert(bs.push(b).drop_last() =~= bs);
    assert(bs.push(b).last() == b);
}

/// The full encoded artifact: four index-aligned block lists, one per lane,
/// and the number of decimals they represent. The count, not the block
/// lengths, decides how many decoded positions are real data.
pub struct PackedDecimals {
    pub lane0: Vec<Block>,
    pub lane1: Vec<Block>,
    pub lane2: Vec<Block>,
    pub lane3: Vec<Block>,
    pub count: usize,
}

impl PackedDecimals {
    pub open spec fn lanes(self) -> Seq<Seq<Block>> {
        seq![self.lane0@, self.lane1@, self.lane2@, self.lane3@]
    }

    /// The structural invariants of a well-formed stream: the four lane
    /// lists are index-aligned and the count does not exceed the number of
    /// reconstructable positions.
    pub open spec fn wf_shape(self) -> bool {
        &&& self.lane1@.len() == self.lane0@.len()
        &&& self.lane2@.len() == self.lane0@.len()
        &&& self.lane3@.len() == self.lane0@.len()
        &&& self.count as nat <= 257 * self.lane0@.len()
    }

    /// The reconstructed raw values of one lane.
    pub open spec fn lane_raws(self, k: int) -> Seq<u32> {
        lane_stream(self.lanes()[k])
    }

    /// The 16-byte value that decoding position `i` yields.
    pub open spec fn bytes_at(self, i: int) -> Seq<u8> {
        join_lanes(
            self.lane_raws(0)[i],
            self.lane_raws(1)[i],
            self.lane_raws(2)[i],
            self.lane_raws(3)[i],
        )
    }

    pub fn lane(&self, k: usize) -> (r: &Vec<Block>)
        requires
            k < 4,
        ensures
            r@ == self.lanes()[k as int],
    {
        if k == 0 {
            &self.lane0
        } else if k == 1 {
            &self.lane1
        } else if k == 2 {
            &self.lane2
        } else {
            &self.lane3
        }
    }
}

/// Lane `k` of a decimal's 16-byte representation.
pub open spec fn raw_of(d: Decimal, k: int) -> u32 {
    split_bytes(dec_bytes(d))[k]
}

/// The per-lane accumulator of the chunk in progress: the last raw
/// quadruple seen, the chunk's head quadruple, and the per-lane XOR deltas
/// gathered so far.
struct Cache {
    buffer: Option<[u32; 4]>,
    head: [u32; 4],
    d0: Vec<u32>,
    d1: Vec<u32>,
    d2: Vec<u32>,
    d3: Vec<u32>,
}

impl Cache {
    spec fn deltas_of(self, k: int) -> Seq<u32> {
        if k == 0 {
            self.d0@
        } else if k == 1 {
            self.d1@
        } else if k == 2 {
            self.d2@
        } else {
            self.d3@
        }
    }

    fn empty() -> (r: Cache)
        ensures
            r.buffer is None,
            r.d0@.len() == 0,
            r.d1@.len() == 0,
            r.d2@.len() == 0,
            r.d3@.len() == 0,
    {
        Cache {
            buffer: None,
            head: [0u32; 4],
            d0: Vec::new(),
            d1: Vec::new(),
            d2: Vec::new(),
            d3: Vec::new(),
        }
    }
}

/// The streaming encoder: it owns the four chunk caches (as one lock-step
/// cache of quadruples), the growing block lists, and the input count.
pub struct Packer {
    bitpacker: BitPacker8x,
    cache: Cache,
    packed: PackedDecimals,
    trim: bool,
    loaded: Ghost<Seq<Decimal>>,
}

impl Packer {
    /// Every decimal ingested since creation, in arrival order.
    pub closed spec fn history(self) -> Seq<Decimal> {
        self.loaded@
    }

    /// The encoded artifact built so far.
    pub closed spec fn stream(self) -> PackedDecimals {
        self.packed
    }

    pub closed spec fn trim_on(self) -> bool {
        self.trim
    }

    /// How many ingested decimals wait in the chunk in progress.
    pub closed spec fn pending(self) -> nat {
        match self.cache.buffer {
            Some(_) => self.cache.d0@.len() + 1,
            None => 0,
        }
    }

    /// How many ingested decimals the block lists already cover.
    pub open spec fn flushed(self) -> nat {
        self.stream().count as nat
    }

    /// How many blocks each lane list holds.
    pub open spec fn nblocks(self) -> nat {
        self.stream().lane0@.len()
    }

    /// Every flushed chunk was full: more input may still be ingested.
    pub open spec fn streaming(self) -> bool {
        self.flushed() == 257 * self.nblocks()
    }

    /// Lane `k` of every ingested decimal, in arrival order.
    spec fn lane_hist(self, k: int) -> Seq<u32> {
        Seq::new(self.loaded@.len(), |i: int| raw_of(self.loaded@[i], k))
    }

    /// Decoding lane `k`'s block list reproduces lane `k` of the input at
    /// every position the count covers.
    spec fn lane_match(self, k: int) -> bool {
        forall|i: int|
            0 <= i < self.packed.count as int ==> #[trigger] lane_stream(self.packed.lanes()[k])[i]
                == self.lane_hist(k)[i]
    }

    /// The cache reconstructs exactly the not-yet-flushed tail of lane `k`.
    spec fn cache_lane_ok(self, k: int) -> bool {
        xor_undelta(self.cache.head@[k], self.cache.deltas_of(k)) == self.lane_hist(k).subrange(
            self.packed.count as int,
            self.loaded@.len() as int,
        )
    }

    /// The packer's invariant, stated so that it also holds at the moment a
    /// chunk has just filled (256 deltas) and is about to be flushed.
    spec fn wf_mid(self) -> bool {
        let p = self.packed;
        let c = self.cache;
        let h = self.loaded@;
        &&& p.lane1@.len() == p.lane0@.len()
        &&& p.lane2@.len() == p.lane0@.len()
        &&& p.lane3@.len() == p.lane0@.len()
        &&& blocks_sized(p.lane0@)
        &&& blocks_sized(p.lane1@)
        &&& blocks_sized(p.lane2@)
        &&& blocks_sized(p.lane3@)
        &&& p.count as nat <= 257 * p.lane0@.len()
        &&& h.len() <= usize::MAX as nat
        &&& p.count as nat + self.pending() == h.len()
        &&& forall|i: int| 0 <= i < h.len() ==> (#[trigger] dec_bytes(h[i])).len() == 16
        &&& self.lane_match(0)
        &&& self.lane_match(1)
        &&& self.lane_match(2)
        &&& self.lane_match(3)
        &&& match c.buffer {
            None => {
                &&& c.d0@.len() == 0
                &&& c.d1@.len() == 0
                &&& c.d2@.len() == 0
                &&& c.d3@.len() == 0
            },
            Some(prev) => {
                &&& c.d1@.len() == c.d0@.len()
                &&& c.d2@.len() == c.d0@.len()
                &&& c.d3@.len() == c.d0@.len()
                &&& c.d0@.len() <= 256
                &&& p.count as nat == 257 * p.lane0@.len()
                &&& self.cache_lane_ok(0)
                &&& self.cache_lane_ok(1)
                &&& self.cache_lane_ok(2)
                &&& self.cache_lane_ok(3)
                &&& prev@[0] == raw_of(h.last(), 0)
                &&& prev@[1] == raw_of(h.last(), 1)
                &&& prev@[2] == raw_of(h.last(), 2)
                &&& prev@[3] == raw_of(h.last(), 3)
            },
        }
    }

    /// The packer's invariant between calls: a filled chunk has been
    /// flushed, so at most 255 deltas wait in the cache.
    pub closed spec fn wf(self) -> bool {
        &&& self.wf_mid()
        &&& self.cache.buffer is Some ==> self.cache.d0@.len() <= 255
    }

    /// Creates an empty packer with literal trimming switched on.
    pub fn new() -> (r: Packer)
        ensures
            r.wf(),
            r.streaming(),
            r.history() == Seq::<Decimal>::empty(),
            r.flushed() == 0,
            r.pending() == 0,
            r.nblocks() == 0,
            r.trim_on(),
    {
        Packer {
            bitpacker: bp_new(),
            cache: Cache::empty(),
            packed: PackedDecimals {
                lane0: Vec::new(),
                lane1: Vec::new(),
                lane2: Vec::new(),
                lane3: Vec::new(),
                count: 0,
            },
            trim: true,
            loaded: Ghost(Seq::empty()),
        }
    }

    /// Switches trimming of leading and trailing `'0'` characters in parsed
    /// literals on or off.
    pub fn with_trim(&mut self, trim: bool) -> (r: &mut Packer)
        ensures
            *final(self) == *final(r),
            r.trim_on() == trim,
            r.history() == old(self).history(),
            r.stream() == old(self).stream(),
            r.pending() == old(self).pending(),
            r.wf() == old(self).wf(),
    {
        self.trim = trim;
        self
    }

    /// Ingests one decimal: splits it into lanes, extends the chunk cache,
    /// and flushes the chunk when it has filled.
    pub fn load_decimal(&mut self, value: &Decimal)
        requires
            old(self).wf(),
            old(self).streaming(),
            old(self).history().len() < usize::MAX as nat,
        ensures
            final(self).wf(),
            final(self).streaming(),
            final(self).history() == old(self).history().push(*value),
            final(self).trim_on() == old(self).trim_on(),
            final(self).pending() == if old(self).pending() == 256 {
                0nat
            } else {
                old(self).pending() + 1
            },
            final(self).flushed() == if old(self).pending() == 256 {
                old(self).flushed() + 257
            } else {
                old(self).flushed()
            },
            final(self).nblocks() == if old(self).pending() == 256 {
                old(self).nblocks() + 1
            } else {
                old(self).nblocks()
            },
    {
        let bytes = dec_serialize(value);
        let parsed = zip_u8(bytes);
        let ghost pre = *self;
        self.loaded = Ghost(self.loaded@.push(*value));
        proof {
            assert(self.lane_hist(0) =~= pre.lane_hist(0).push(raw_of(*value, 0)));
            assert(self.lane_hist(1) =~= pre.lane_hist(1).push(raw_of(*value, 1)));
            assert(self.lane_hist(2) =~= pre.lane_hist(2).push(raw_of(*value, 2)));
            assert(self.lane_hist(3) =~= pre.lane_hist(3).push(raw_of(*value, 3)));
            assert(parsed@[0] == raw_of(*value, 0));
            assert(parsed@[1] == raw_of(*value, 1));
            assert(parsed@[2] == raw_of(*value, 2));
            assert(parsed@[3] == raw_of(*value, 3));
        }
        match self.cache.buffer {
            Some(last) => {
                let d0 = parsed[0] ^ last[0];
                let d1 = parsed[1] ^ last[1];
                let d2 = parsed[2] ^ last[2];
                let d3 = parsed[3] ^ last[3];
                self.cache.d0.push(d0);
                self.cache.d1.push(d1);
                self.cache.d2.push(d2);
                self.cache.d3.push(d3);
                proof {
                    self.lemma_cache_extend(pre, *value, parsed@, last@);
                }
            },
            None => {
                self.cache.head = parsed;
                proof {
                    assert(pre.pending() == 0);
                    assert(self.lane_hist(0).subrange(
                        self.packed.count as int,
                        self.loaded@.len() as int,
                    ) =~= seq![raw_of(*value, 0)]);
                    assert(self.lane_hist(1).subrange(
                        self.packed.count as int,
                        self.loaded@.len() as int,
                    ) =~= seq![raw_of(*value, 1)]);
                    assert(self.lane_hist(2).subrange(
                        self.packed.count as int,
                        self.loaded@.len() as int,
                    ) =~= seq![raw_of(*value, 2)]);
                    assert(self.lane_hist(3).subrange(
                        self.packed.count as int,
                        self.loaded@.len() as int,
                    ) =~= seq![raw_of(*value, 3)]);
                }
            },
        }
        self.cache.buffer = Some(parsed);
        proof {
            self.lemma_match_after_push(pre);
            assert(self.wf_mid());
        }
        if self.cache.d0.len() == 256 {
            self.pack();
        }
    }

    /// Extending the history does not disturb the already-flushed prefix.
    proof fn lemma_match_after_push(self, pre: Packer)
        requires
            pre.lane_match(0),
            pre.lane_match(1),
            pre.lane_match(2),
            pre.lane_match(3),
            self.packed == pre.packed,
            pre.loaded@.len() <= self.loaded@.len(),
            forall|i: int| 0 <= i < pre.loaded@.len() ==> self.loaded@[i] == pre.loaded@[i],
            pre.packed.count as nat <= pre.loaded@.len(),
        ensures
            self.lane_match(0),
            self.lane_match(1),
            self.lane_match(2),
            self.lane_match(3),
    {
        assert forall|k: int, i: int|
            0 <= k < 4 && 0 <= i < self.packed.count as int implies lane_stream(
            self.packed.lanes()[k],
        )[i] == self.lane_hist(k)[i] by {
            assert(lane_stream(pre.packed.lanes()[k])[i] == pre.lane_hist(k)[i]);
            assert(self.lane_hist(k)[i] == pre.lane_hist(k)[i]);
        }
    }

    /// Pushing the XOR of the new lane values onto the deltas extends the
    /// cache's reconstruction by exactly the new lane values.
    proof fn lemma_cache_extend(self, pre: Packer, value: Decimal, parsed: Seq<u32>, last: Seq<u32>)
        requires
            pre.wf(),
            pre.cache.buffer is Some,
            self.loaded@ == pre.loaded@.push(value),
            self.packed == pre.packed,
            self.cache.head == pre.cache.head,
            parsed.len() == 4,
            forall|k: int| 0 <= k < 4 ==> parsed[k] == raw_of(value, k),
            last == (match pre.cache.buffer {
                Some(b) => b@,
                None => Seq::<u32>::empty(),
            }),
            self.cache.d0@ == pre.cache.d0@.push((parsed[0] ^ last[0]) as u32),
            self.cache.d1@ == pre.cache.d1@.push((parsed[1] ^ last[1]) as u32),
            self.cache.d2@ == pre.cache.d2@.push((parsed[2] ^ last[2]) as u32),
            self.cache.d3@ == pre.cache.d3@.push((parsed[3] ^ last[3]) as u32),
        ensures
            self.cache_lane_ok(0),
            self.cache_lane_ok(1),
            self.cache_lane_ok(2),
            self.cache_lane_ok(3),
    {
        assert forall|k: int| 0 <= k < 4 implies self.cache_lane_ok(k) by {
            let h = self.cache.head@[k];
            let dpre = pre.cache.deltas_of(k);
            let dk = self.cache.deltas_of(k);
            let x = (parsed[k] ^ last[k]) as u32;
            assert(dk == dpre.push(x));
            assert(pre.cache_lane_ok(k));
            let old_rec = xor_undelta(h, dpre);
            let old_sub = pre.lane_hist(k).subrange(
                pre.packed.count as int,
                pre.loaded@.len() as int,
            );
            assert(old_rec == old_sub);
            lemma_xor_undelta_len(h, dpre);
            lemma_xor_undelta_push(h, dpre, x);
            let prev_last = last[k];
            assert(old_rec.last() == old_sub.last());
            assert(old_sub.last() == pre.lane_hist(k)[pre.loaded@.len() - 1]);
            assert(pre.lane_hist(k)[pre.loaded@.len() - 1] == raw_of(pre.loaded@.last(), k));
            assert(old_rec.last() == prev_last);
            let a = prev_last as u32;
            let b = parsed[k] as u32;
            assert((a ^ (b ^ a)) == b) by (bit_vector);
            assert(xor_undelta(h, dk) == old_rec.push(b));
            assert(self.lane_hist(k) =~= pre.lane_hist(k).push(raw_of(value, k)));
            assert(self.lane_hist(k).subrange(
                self.packed.count as int,
                self.loaded@.len() as int,
            ) =~= old_sub.push(raw_of(value, k)));
        }
    }

    /// Flushes the chunk in progress, if any: packs each lane's padded
    /// delta buffer at its minimal width, appends one block per lane, and
    /// advances the count by the chunk's size.
    fn pack(&mut self)
        requires
            old(self).wf_mid(),
        ensures
            final(self).wf(),
            final(self).history() == old(self).history(),
            final(self).trim_on() == old(self).trim_on(),
            final(self).pending() == 0,
            final(self).flushed() == old(self).flushed() + old(self).pending(),
            final(self).nblocks() == old(self).nblocks() + if old(self).pending() == 0 {
                0nat
            } else {
                1nat
            },
    {
        if self.cache.buffer.is_none() {
            return ;
        }
        let ghost pre = *self;
        let b0 = flush_lane(&self.bitpacker, self.cache.head[0], &self.cache.d0);
        let b1 = flush_lane(&self.bitpacker, self.cache.head[1], &self.cache.d1);
        let b2 = flush_lane(&self.bitpacker, self.cache.head[2], &self.cache.d2);
        let b3 = flush_lane(&self.bitpacker, self.cache.head[3], &self.cache.d3);
        let added = self.cache.d0.len() + 1;
        self.packed.lane0.push(b0);
        self.packed.lane1.push(b1);
        self.packed.lane2.push(b2);
        self.packed.lane3.push(b3);
        self.packed.count = self.packed.count + added;
        self.cache = Cache::empty();
        proof {
            self.lemma_flush_ok(pre, b0, 0);
            self.lemma_flush_ok(pre, b1, 1);
            self.lemma_flush_ok(pre, b2, 2);
            self.lemma_flush_ok(pre, b3, 3);
            assert(self.packed.lane0@ == pre.packed.lane0@.push(b0));
            assert forall|i: int|
                0 <= i < self.packed.lane0@.len() implies (
            #[trigger] self.packed.lane0@[i].spec_deltas()).len() == 256 by {
                if i < pre.packed.lane0@.len() {
                    assert(self.packed.lane0@[i] == pre.packed.lane0@[i]);
                }
            }
            assert forall|i: int|
                0 <= i < self.packed.lane1@.len() implies (
            #[trigger] self.packed.lane1@[i].spec_deltas()).len() == 256 by {
                if i < pre.packed.lane1@.len() {
                    assert(self.packed.lane1@[i] == pre.packed.lane1@[i]);
                }
            }
            assert forall|i: int|
                0 <= i < self.packed.lane2@.len() implies (
            #[trigger] self.packed.lane2@[i].spec_deltas()).len() == 256 by {
                if i < pre.packed.lane2@.len() {
                    assert(self.packed.lane2@[i] == pre.packed.lane2@[i]);
                }
            }
            assert forall|i: int|
                0 <= i < self.packed.lane3@.len() implies (
            #[trigger] self.packed.lane3@[i].spec_deltas()).len() == 256 by {
                if i < pre.packed.lane3@.len() {
                    assert(self.packed.lane3@[i] == pre.packed.lane3@[i]);
                }
            }
            assert(self.wf());
        }
    }

    /// One flushed lane continues the decoded stream exactly where the
    /// count left off.
    proof fn lemma_flush_ok(self, pre: Packer, b: Block, k: int)
        requires
            0 <= k < 4,
            pre.wf_mid(),
            pre.cache.buffer is Some,
            self.loaded@ == pre.loaded@,
            self.packed.lanes()[k] == pre.packed.lanes()[k].push(b),
            self.packed.count as nat == pre.packed.count as nat + pre.cache.d0@.len() + 1,
            b.spec_head() == pre.cache.head@[k],
            b.spec_deltas() == pre.cache.deltas_of(k) + zero_deltas(
                (256 - pre.cache.deltas_of(k).len()) as nat,
            ),
        ensures
            self.lane_match(k),
    {
        let bs = pre.packed.lanes()[k];
        let idx = pre.cache.d0@.len() as int;
        let cnt = pre.packed.count as int;
        assert(blocks_sized(bs));
        lemma_lane_stream_len(bs);
        lemma_lane_stream_push(bs, b);
        assert(pre.cache.deltas_of(k).len() == idx);
        assert(lane_stream(bs).len() == cnt);
        assert(pre.lane_match(k));
        assert(pre.cache_lane_ok(k));
        let h = pre.cache.head@[k];
        let d = pre.cache.deltas_of(k);
        let pad = zero_deltas((256 - idx) as nat);
        lemma_xor_undelta_len(h, d);
        assert forall|i: int|
            0 <= i < self.packed.count as int implies #[trigger] lane_stream(
            self.packed.lanes()[k],
        )[i] == self.lane_hist(k)[i] by {
            assert(lane_stream(self.packed.lanes()[k]) == lane_stream(bs) + b.lane_vals());
            if i < cnt {
                assert(lane_stream(self.packed.lanes()[k])[i] == lane_stream(bs)[i]);
                assert(lane_stream(bs)[i] == pre.lane_hist(k)[i]);
                assert(self.lane_hist(k)[i] == pre.lane_hist(k)[i]);
            } else {
                let j = i - cnt;
                assert(0 <= j <= idx);
                lemma_xor_undelta_prefix(h, d, pad, j);
                assert(b.lane_vals() == xor_undelta(h, d + pad));
                assert(b.lane_vals().len() == 257);
                assert(lane_stream(self.packed.lanes()[k])[i] == b.lane_vals()[j]);
                assert(b.lane_vals()[j] == xor_undelta(h, d)[j]);
                assert(xor_undelta(h, d) == pre.lane_hist(k).subrange(
                    cnt,
                    pre.loaded@.len() as int,
                ));
                assert(xor_undelta(h, d)[j] == pre.lane_hist(k)[cnt + j]);
                assert(self.lane_hist(k)[i] == pre.lane_hist(k)[i]);
            }
        }
    }

    /// The encoded artifact built so far.
    pub fn packed(&self) -> (r: &PackedDecimals)
        ensures
            *r == self.stream(),
    {
        &self.packed
    }

    /// Hands the encoded artifact out, consuming the packer.
    fn take_packed(self) -> (r: PackedDecimals)
        ensures
            r == self.stream(),
    {
        self.packed
    }

    /// Parses a textual decimal literal and ingests it; with trimming on,
    /// leading and trailing `'0'` characters are removed first. A literal
    /// the collaborator cannot parse is rejected and the packer unchanged.
    pub fn load(&mut self, value: &str) -> (r: Result<(), CodecError>)
        requires
            old(self).wf(),
            old(self).streaming(),
            old(self).history().len() < usize::MAX as nat,
        ensures
            final(self).wf(),
            final(self).streaming(),
            final(self).trim_on() == old(self).trim_on(),
            ({
                let t = if old(self).trim_on() {
                    trim_zeros(value@)
                } else {
                    value@
                };
                match parsed_dec(t) {
                    Some(d) => {
                        &&& r is Ok
                        &&& final(self).history() == old(self).history().push(d)
                        &&& final(self).pending() == if old(self).pending() == 256 {
                            0nat
                        } else {
                            old(self).pending() + 1
                        }
                        &&& final(self).flushed() == if old(self).pending() == 256 {
                            old(self).flushed() + 257
                        } else {
                            old(self).flushed()
                        }
                        &&& final(self).nblocks() == if old(self).pending() == 256 {
                            old(self).nblocks() + 1
                        } else {
                            old(self).nblocks()
                        }
                    },
                    None => {
                        &&& r == Result::<(), CodecError>::Err(CodecError::ParseFailed)
                        &&& *final(self) == *old(self)
                    },
                }
            }),
    {
        let parsed = if self.trim {
            dec_from_str(trim_zeros_str(value))
        } else {
            dec_from_str(value)
        };
        match parsed {
            Ok(d) => {
                self.load_decimal(&d);
                Ok(())
            },
            Err(e) => Err(e),
        }
    }

    /// Decodes the blocks flushed so far back into decimals: a convenience
    /// wrapper around `unpack`. Decimals still waiting in the chunk cache
    /// are not part of the result; after `finalize` the result is the whole
    /// ingested sequence.
    pub fn unload(&self) -> (r: Vec<Decimal>)
        requires
            self.wf(),
        ensures
            r@ == self.history().take(self.flushed() as int),
    {
        match unpack(&self.packed) {
            Ok(v) => {
                proof {
                    self.lemma_bytes_at_match();
                    assert forall|i: int| 0 <= i < v@.len() implies v@[i] == self.history().take(
                        self.flushed() as int,
                    )[i] by {
                        assert(dec_bytes(self.loaded@[i]) == self.packed.bytes_at(i));
                    }
                    assert(v@ =~= self.history().take(self.flushed() as int));
                }
                v
            },
            Err(_) => {
                proof {
                    assert(self.packed.wf_shape());
                }
                Vec::new()
            },
        }
    }

    /// For every flushed position, the stream decodes to the bytes of the
    /// ingested decimal.
    proof fn lemma_bytes_at_match(self)
        requires
            self.wf(),
        ensures
            forall|i: int|
                0 <= i < self.flushed() as int ==> #[trigger] self.packed.bytes_at(i) == dec_bytes(
                    self.loaded@[i],
                ),
    {
        assert forall|i: int|
            0 <= i < self.flushed() as int implies #[trigger] self.packed.bytes_at(i) == dec_bytes(
            self.loaded@[i],
        ) by {
            let bs = dec_bytes(self.loaded@[i]);
            assert(bs.len() == 16);
            assert(lane_stream(self.packed.lanes()[0])[i] == self.lane_hist(0)[i]);
            assert(lane_stream(self.packed.lanes()[1])[i] == self.lane_hist(1)[i]);
            assert(lane_stream(self.packed.lanes()[2])[i] == self.lane_hist(2)[i]);
            assert(lane_stream(self.packed.lanes()[3])[i] == self.lane_hist(3)[i]);
            assert(self.lane_hist(0)[i] == raw_of(self.loaded@[i], 0));
            assert(self.lane_hist(1)[i] == raw_of(self.loaded@[i], 1));
            assert(self.lane_hist(2)[i] == raw_of(self.loaded@[i], 2));
            assert(self.lane_hist(3)[i] == raw_of(self.loaded@[i], 3));
            lemma_join_split(bs);
        }
    }

    /// Flushes a trailing partial chunk, if any. Idempotent: with an empty
    /// cache it changes nothing. After it, every ingested decimal is
    /// covered by the block lists.
    pub fn finalize(&mut self)
        requires
            old(self).wf(),
        ensures
            final(self).wf(),
            final(self).history() == old(self).history(),
            final(self).trim_on() == old(self).trim_on(),
            final(self).pending() == 0,
            final(self).flushed() == old(self).flushed() + old(self).pending(),
            final(self).flushed() == final(self).history().len(),
            final(self).nblocks() == old(self).nblocks() + if old(self).pending() == 0 {
                0nat
            } else {
                1nat
            },
    {
        self.pack();
    }
}

impl Default for Packer {
    /// The same empty packer `new` creates.
    fn default() -> (r: Packer)
        ensures
            r.wf(),
            r.streaming(),
            r.history() == Seq::<Decimal>::empty(),
            r.flushed() == 0,
            r.pending() == 0,
            r.nblocks() == 0,
            r.trim_on(),
    {
        Packer::new()
    }
}

/// Encodes a whole sequence in one call: ingests every decimal in order and
/// flushes the trailing partial chunk. The result covers every input
/// position and holds one block per lane for every started chunk of 257.
pub fn pack(values: &[Decimal]) -> (r: PackedDecimals)
    ensures
        r.wf_shape(),
        r.count as nat == values@.len(),
        r.lane0@.len() == (values@.len() + 256) / 257,
        forall|i: int|
            0 <= i < values@.len() ==> #[trigger] r.bytes_at(i) == dec_bytes(values@[i]),
{
    let mut p = Packer::new();
    let mut i: usize = 0;
    while i < values.len()
        invariant
            i <= values@.len(),
            p.wf(),
            p.streaming(),
            p.history() == values@.take(i as int),
            p.pending() <= 256,
        decreases values@.len() - i,
    {
        proof {
            assert(values@.take(i as int).push(values@[i as int]) =~= values@.take(i + 1));
        }
        p.load_decimal(&values[i]);
        i = i + 1;
    }
    proof {
        assert(values@.take(values@.len() as int) =~= values@);
    }
    let ghost nb = p.nblocks();
    let ghost pend = p.pending();
    p.finalize();
    proof {
        assert(p.flushed() == values@.len());
        if pend == 0 {
            vstd::arithmetic::div_mod::lemma_fundamental_div_mod_converse(
                values@.len() as int + 256,
                257,
                nb as int,
                256,
            );
        } else {
            vstd::arithmetic::div_mod::lemma_fundamental_div_mod_converse(
                values@.len() as int + 256,
                257,
                nb as int + 1,
                pend as int - 1,
            );
        }
        p.lemma_bytes_at_match();
    }
    let packed = p.take_packed();
    packed
}

/// Delta minimality: a block whose lane values are all identical has bit
/// width zero and an empty payload. The first three premises are the shape
/// facts every block the packer builds carries.
pub proof fn lemma_constant_block_width_zero(b: Block)
    requires
        b.spec_deltas().len() == 256,
        b.spec_bits() as nat == blk_width(b.spec_deltas()),
        b.spec_vals().len() == (b.spec_bits() as nat) * 32,
        forall|i: int|
            0 <= i < b.lane_vals().len() ==> #[trigger] b.lane_vals()[i] == b.lane_vals()[0],
    ensures
        b.spec_bits() == 0,
        b.spec_vals() == Seq::<u8>::empty(),
{
    let h = b.spec_head();
    let d = b.spec_deltas();
    assert forall|i: int|
        0 <= i < xor_undelta(h, d).len() implies #[trigger] xor_undelta(h, d)[i] == xor_undelta(
        h,
        d,
    )[0] by {
        assert(b.lane_vals()[i] == b.lane_vals()[0]);
    }
    lemma_constant_lane_zero_deltas(h, d);
    lemma_blk_width_zero(d);
    assert(b.spec_vals() =~= Seq::<u8>::empty());
}

/// The round trip, stitched from the contracts of `pack` and `unpack`: any
/// stream that encodes a sequence decodes back to exactly that sequence.
pub proof fn lemma_pack_unpack_exact(p: PackedDecimals, values: Seq<Decimal>, decoded: Seq<Decimal>)
    requires
        p.count as nat == values.len(),
        forall|i: int| 0 <= i < values.len() ==> #[trigger] p.bytes_at(i) == dec_bytes(values[i]),
        decoded.len() == p.count,
        forall|i: int, d: Decimal|
            #![trigger dec_bytes(d), p.bytes_at(i)]
            0 <= i < p.count as int && dec_bytes(d) == p.bytes_at(i) ==> decoded[i] == d,
    ensures
        decoded == values,
{
    assert forall|i: int| 0 <= i < values.len() implies decoded[i] == values[i] by {
        assert(dec_bytes(values[i]) == p.bytes_at(i));
    }
    assert(decoded =~= values);
}

/// Decodes one lane's block list: 257 raw lane values per block, each block
/// contributing its head followed by the cumulative XOR of its deltas.
fn decode_lane(bp: &BitPacker8x, blocks: &Vec<Block>) -> (r: Vec<u32>)
    ensures
        r@ == lane_stream(blocks@),
        r@.len() == 257 * blocks@.len(),
{
    let mut out: Vec<u32> = Vec::new();
    let mut bi: usize = 0;
    while bi < blocks.len()
        invariant
            bi <= blocks@.len(),
            out@ == lane_stream(blocks@.take(bi as int)),
            out@.len() == 257 * bi,
        decreases blocks@.len() - bi,
    {
        let block = &blocks[bi];
        let ghost bspec = *block;
        proof {
            use_type_invariant(block);
            lemma_blk_width_fits(bspec.spec_deltas());
            crate::model::lemma_blk_width_le_32(bspec.spec_deltas());
        }
        let deltas = bp_decompress(bp, &block.vals, block.bits);
        proof {
            assert(packed_bytes(bspec.spec_deltas(), bspec.spec_bits() as nat)
                == bspec.spec_vals());
            assert(deltas@ == bspec.spec_deltas());
            lemma_xor_undelta_len(bspec.spec_head(), bspec.spec_deltas());
        }
        let mut running = block.head;
        out.push(running);
        proof {
            lemma_xor_undelta_first(bspec.spec_head(), bspec.spec_deltas().take(0));
            assert(bspec.spec_deltas().take(0) =~= Seq::<u32>::empty());
            assert(xor_undelta(bspec.spec_head(), bspec.spec_deltas().take(0)) =~= seq![
                bspec.spec_head(),
            ]);
            assert(out@ == lane_stream(blocks@.take(bi as int)) + xor_undelta(
                bspec.spec_head(),
                bspec.spec_deltas().take(0),
            ));
        }
        let mut j: usize = 0;
        while j < 256
            invariant
                j <= 256,
                deltas@ == bspec.spec_deltas(),
                deltas@.len() == 256,
                out@ == lane_stream(blocks@.take(bi as int)) + xor_undelta(
                    bspec.spec_head(),
                    bspec.spec_deltas().take(j as int),
                ),
                out@.len() == 257 * bi + j + 1,
                running == xor_undelta(bspec.spec_head(), bspec.spec_deltas().take(j as int)).last(),
            decreases 256 - j,
        {
            proof {
                let pre_take = bspec.spec_deltas().take(j as int);
                lemma_xor_undelta_len(bspec.spec_head(), pre_take);
                lemma_xor_undelta_push(bspec.spec_head(), pre_take, bspec.spec_deltas()[j as int]);
                assert(pre_take.push(bspec.spec_deltas()[j as int]) =~= bspec.spec_deltas().take(
                    j + 1,
                ));
            }
            running = running ^ deltas[j];
            out.push(running);
            j = j + 1;
        }
        proof {
            assert(bspec.spec_deltas().take(256) =~= bspec.spec_deltas());
            assert(blocks@.take(bi as int).push(blocks@[bi as int]) =~= blocks@.take(bi + 1));
            lemma_lane_stream_push(blocks@.take(bi as int), bspec);
            assert(out@ == lane_stream(blocks@.take(bi + 1)));
        }
        bi = bi + 1;
    }
    proof {
        assert(blocks@.take(blocks@.len() as int) =~= blocks@);
    }
    out
}

/// The stateless decoder: reconstructs each lane's raw values from its
/// block list and re-joins the four lanes into decimals, taking exactly
/// `count` leading positions and discarding any padding-derived tail.
/// A stream whose lane lists disagree in length, or whose count exceeds the
/// number of reconstructable positions, is rejected as corrupt.
pub fn unpack(values: &PackedDecimals) -> (r: Result<Vec<Decimal>, CodecError>)
    ensures
        r is Ok <==> values.wf_shape(),
        r is Err ==> r == Result::<Vec<Decimal>, CodecError>::Err(CodecError::CorruptStream),
        r is Ok ==> r.unwrap()@.len() == values.count,
        r is Ok ==> forall|i: int, d: Decimal|
            #![trigger dec_bytes(d), values.bytes_at(i)]
            0 <= i < values.count as int && dec_bytes(d) == values.bytes_at(i)
                ==> r.unwrap()@[i] == d,
{
    if !(values.lane1.len() == values.lane0.len() && values.lane2.len() == values.lane0.len()
        && values.lane3.len() == values.lane0.len()) {
        return Err(CodecError::CorruptStream);
    }
    if (values.count as u128) > 257u128 * (values.lane0.len() as u128) {
        return Err(CodecError::CorruptStream);
    }
    let bp = bp_new();
    let acc0 = decode_lane(&bp, &values.lane0);
    let acc1 = decode_lane(&bp, &values.lane1);
    let acc2 = decode_lane(&bp, &values.lane2);
    let acc3 = decode_lane(&bp, &values.lane3);
    let mut result: Vec<Decimal> = Vec::new();
    let mut i: usize = 0;
    while i < values.count
        invariant
            i <= values.count,
            values.wf_shape(),
            acc0@ == lane_stream(values.lanes()[0]),
            acc1@ == lane_stream(values.lanes()[1]),
            acc2@ == lane_stream(values.lanes()[2]),
            acc3@ == lane_stream(values.lanes()[3]),
            acc0@.len() == 257 * values.lane0@.len(),
            acc1@.len() == 257 * values.lane0@.len(),
            acc2@.len() == 257 * values.lane0@.len(),
            acc3@.len() == 257 * values.lane0@.len(),
            result@.len() == i,
            forall|j: int, d: Decimal|
                #![trigger dec_bytes(d), values.bytes_at(j)]
                0 <= j < i as int && dec_bytes(d) == values.bytes_at(j) ==> result@[j] == d,
        decreases values.count - i,
    {
        let lanes_arr = [acc0[i], acc1[i], acc2[i], acc3[i]];
        let bytes = unzip_u8(lanes_arr);
        let d = dec_deserialize(bytes);
        proof {
            assert(lanes_arr@ =~= seq![
                acc0@[i as int],
                acc1@[i as int],
                acc2@[i as int],
                acc3@[i as int],
            ]);
            assert(bytes@ == values.bytes_at(i as int));
        }
        result.push(d);
        i = i + 1;
    }
    Ok(result)
}

/// Packs one lane's delta buffer, padded with zeros to the full 256 slots,
/// at the minimal width the padded buffer needs.
fn flush_lane(bp: &BitPacker8x, head_val: u32, d: &Vec<u32>) -> (b: Block)
    requires
        d@.len() <= 256,
    ensures
        b.spec_head() == head_val,
        b.spec_deltas() == d@ + zero_deltas((256 - d@.len()) as nat),
        b.spec_deltas().len() == 256,
{
    let mut padded: Vec<u32> = Vec::new();
    let mut i: usize = 0;
    while i < d.len()
        invariant
            i <= d@.len(),
            d@.len() <= 256,
            padded@ == d@.take(i as int),
        decreases d@.len() - i,
    {
        padded.push(d[i]);
        proof {
            assert(padded@ =~= d@.take(i + 1));
        }
        i = i + 1;
    }
    proof {
        assert(padded@ =~= d@);
        assert(padded@ =~= d@ + zero_deltas(0));
    }
    while padded.len() < 256
        invariant
            d@.len() <= padded@.len() <= 256,
            padded@ == d@ + zero_deltas((padded@.len() - d@.len()) as nat),
        decreases 256 - padded@.len(),
    {
        padded.push(0u32);
        proof {
            assert(padded@ =~= d@ + zero_deltas((padded@.len() - d@.len()) as nat));
        }
    }
    let width = bp_num_bits(bp, &padded);
    proof {
        lemma_blk_width_fits(padded@);
    }
    let vals = bp_compress(bp, &padded, width);
    Block { bits: width, head: head_val, vals, deltas: Ghost(padded@) }
}

} // verus!
