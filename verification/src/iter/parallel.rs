//! The splittable producer for divide-and-conquer iteration: a cursor
//! that can divide its remaining key space into two disjoint halves.

use vstd::prelude::*;

verus! {

use crate::util::{bit64, pc64, average_ones, lemma_bit_bounds, lemma_split_mask,
lemma_aligned_or_u32, lemma_div_chain, lemma_pc_ge_one, lemma_pc_below_clear,
lemma_nonzero_has_bit};
use crate::BitSetLike;
use crate::iter::{BitIter, cursor_inv, in_rem, zone0, zone1, zone2, zone3, clear_lowest,
descend_idx, lemma_descend};
use vstd::std_specs::bits::{u64_trailing_zeros, axiom_u64_trailing_zeros};

/// A parallel iterator over a [`BitSetLike`] structure: the view
/// together with the number of layers that splitting may divide.
#[derive(Debug)]
pub struct BitParIter<T>(pub T, pub u8);

/// Allows splitting and internally iterating through a bit set.
///
/// The producer wraps a sequential cursor; [`BitProducer::split`]
/// divides the remaining key space into two disjoint halves that
/// together cover exactly what the producer held, so the halves can be
/// walked independently.
#[derive(Debug)]
pub struct BitProducer<T>(pub BitIter<T>, pub u8);

impl<T> BitParIter<T> {
    /// Creates a new `BitParIter`.  Usually one calls `par_iter` on a bit
    /// set instead.  By default all but the lowest layer are split.
    pub fn new(set: T) -> (r: Self)
        ensures
            r.0 == set,
            r.1 == 3u8,
    {
        BitParIter(set, 3)
    }

    /// Sets how many layers are split when forking; the value must lie
    /// in the range `[1, 3]`.
    pub fn layers_split(self, layers: u8) -> (r: Self)
        requires
            1 <= layers <= 3,
        ensures
            r.0 == self.0,
            r.1 == layers,
    {
        BitParIter(self.0, layers)
    }
}

/// At most one of the four mask words of the cursor is non-zero.  Fresh
/// cursors start this way, and splitting keeps it.
pub open spec fn lone_mask<T>(c: BitIter<T>) -> bool {
    forall|k1: int, k2: int|
        0 <= k1 < k2 <= 3 ==> !(#[trigger] c.masks@[k1] != 0 && #[trigger] c.masks@[k2] != 0)
}

/// Where and how a successful split divided the work: at one of the
/// layers the split may attempt, both halves keep a non-empty part of
/// the layer word, the parts are disjoint, their counts of set bits
/// differ by at most one (the lower half taking the rounding), every
/// attempted layer above is drained, and the upper half holds nothing
/// below the divided layer.
pub open spec fn split_evenly<T>(low: BitIter<T>, high: BitIter<T>, attempts: u8) -> bool {
    exists|level: int|
        {
            &&& 1 <= level <= 3
            &&& 4 - attempts <= level
            &&& (#[trigger] low.masks@[level]) != 0
            &&& high.masks@[level] != 0
            &&& low.masks@[level] & high.masks@[level] == 0
            &&& pc64(high.masks@[level]) <= pc64(low.masks@[level]) <= pc64(high.masks@[level])
                + 1
            &&& forall|k: int| level < k <= 3 ==> low.masks@[k] == 0 && high.masks@[k] == 0
            &&& forall|k: int| 0 <= k < level ==> high.masks@[k] == 0
        }
}

/// The two halves of a split at `level` partition what the producer
/// held: the lower half keeps the bits below the split position, the
/// upper half the rest, and nothing else changes hands.
proof fn lemma_split_partition<T: BitSetLike>(
    pre: BitIter<T>,
    low: BitIter<T>,
    high: BitIter<T>,
    level: int,
    p: u64,
)
    requires
        1 <= level <= 3,
        cursor_inv(pre),
        lone_mask(pre),
        pre.masks@[level] != 0,
        p < 64,
        low.set == pre.set,
        low.masks@ == pre.masks@.update(level, pre.masks@[level] & (((1u64 << p) - 1) as u64)),
        forall|k: int| 0 <= k <= 2 && k != level - 1 ==> low.prefix@[k] == pre.prefix@[k],
        low.prefix@[0] % 64 == 0 && low.prefix@[0] < 0x1000000,
        low.prefix@[1] % 64 == 0 && low.prefix@[1] < 0x40000,
        low.prefix@[2] % 64 == 0 && low.prefix@[2] < 0x1000,
        high.set == pre.set,
        high.masks@.len() == 4,
        high.masks@[level] == pre.masks@[level] & !(((1u64 << p) - 1) as u64),
        forall|k: int| 0 <= k <= 3 && k != level ==> high.masks@[k] == 0,
        forall|k: int| level <= k <= 2 ==> high.prefix@[k] == pre.prefix@[k],
        high.prefix@[0] % 64 == 0 && high.prefix@[0] < 0x1000000,
        high.prefix@[1] % 64 == 0 && high.prefix@[1] < 0x40000,
        high.prefix@[2] % 64 == 0 && high.prefix@[2] < 0x1000,
    ensures
        cursor_inv(low),
        cursor_inv(high),
        lone_mask(low),
        lone_mask(high),
        forall|j: int| in_rem(pre, j) <==> (in_rem(low, j) || in_rem(high, j)),
        forall|j: int| !(in_rem(low, j) && in_rem(high, j)),
{
    let m = pre.masks@[level];
    lemma_split_mask(m, p);
    lemma_bit_bounds(0u64);
    assert forall|k: int| 0 <= k <= 3 && k != level implies pre.masks@[k] == 0 by {}
    assert(cursor_inv(low));
    assert(cursor_inv(high));
    assert forall|j: int|
        (in_rem(pre, j) <==> (in_rem(low, j) || in_rem(high, j))) && !(in_rem(low, j) && in_rem(
            high,
            j,
        )) by {
        if 0 <= j < 0x1000000 {
            lemma_div_chain(j);
            if level == 3 {
                assert(!zone0(pre, j) && !zone1(pre, j) && !zone2(pre, j));
                assert(!zone0(low, j) && !zone1(low, j) && !zone2(low, j));
                assert(!zone0(high, j) && !zone1(high, j) && !zone2(high, j));
                assert(zone3(low, j) == (zone3(pre, j) && ((j / 0x40000) as u64) < p));
                assert(zone3(high, j) == (zone3(pre, j) && ((j / 0x40000) as u64) >= p));
            } else if level == 2 {
                assert(!zone0(pre, j) && !zone1(pre, j) && !zone3(pre, j));
                assert(!zone0(low, j) && !zone1(low, j) && !zone3(low, j));
                assert(!zone0(high, j) && !zone1(high, j) && !zone3(high, j));
                assert(zone2(low, j) == (zone2(pre, j) && (((j / 4096) % 64) as u64) < p));
                assert(zone2(high, j) == (zone2(pre, j) && (((j / 4096) % 64) as u64) >= p));
            } else {
                assert(!zone0(pre, j) && !zone2(pre, j) && !zone3(pre, j));
                assert(!zone0(low, j) && !zone2(low, j) && !zone3(low, j));
                assert(!zone0(high, j) && !zone2(high, j) && !zone3(high, j));
                assert(zone1(low, j) == (zone1(pre, j) && (((j / 64) % 64) as u64) < p));
                assert(zone1(high, j) == (zone1(pre, j) && (((j / 64) % 64) as u64) >= p));
            }
        }
    }
}

impl<T: BitSetLike + Copy> BitProducer<T> {
    /// Attempts to divide the remaining work in two; returns the
    /// (possibly descended) producer holding the lower half and, when a
    /// split was possible, a second producer holding the upper half.
    ///
    /// The split walks the layers from the top down through as many
    /// layers as the producer was configured with.  A layer whose mask
    /// holds at least two bits is divided at the position that splits
    /// its set bits most evenly; a layer with exactly one bit is
    /// descended through, and the next layer is tried.
    ///
    /// However the work was divided, the indices remaining in the two
    /// returned producers partition exactly the indices the original
    /// producer held, and no index stands in both.
    pub fn split(self) -> (r: (Self, Option<Self>))
        requires
            cursor_inv(self.0),
            lone_mask(self.0),
            self.1 <= 3,
        ensures
            r.0.0.set == self.0.set,
            r.0.1 == self.1,
            cursor_inv(r.0.0),
            lone_mask(r.0.0),
            match r.1 {
                Some(other) => {
                    &&& other.0.set == self.0.set
                    &&& other.1 == self.1
                    &&& cursor_inv(other.0)
                    &&& lone_mask(other.0)
                    &&& forall|j: int|
                        in_rem(self.0, j) <==> (in_rem(r.0.0, j) || in_rem(other.0, j))
                    &&& forall|j: int| !(in_rem(r.0.0, j) && in_rem(other.0, j))
                    &&& split_evenly(r.0.0, other.0, self.1)
                },
                None => {
                    &&& forall|j: int| in_rem(r.0.0, j) <==> in_rem(self.0, j)
                    &&& forall|k: int| 4 - self.1 <= k <= 3 ==> r.0.0.masks@[k] == 0
                },
            },
    {
        let mut this = self;
        let splits = this.1;
        let mut i: u8 = 0;
        while i < splits
            invariant
                this.0.set == self.0.set,
                this.1 == self.1,
                splits == self.1,
                splits <= 3,
                i <= splits,
                cursor_inv(this.0),
                lone_mask(this.0),
                forall|j: int| in_rem(this.0, j) <==> in_rem(self.0, j),
                forall|k: int| 3 - (i as int) < k <= 3 ==> this.0.masks@[k] == 0,
            decreases splits - i,
        {
            let level = 3 - i as usize;
            let m = this.0.masks[level];
            if m != 0 {
                let level_prefix: u32 = if level < 3 {
                    this.0.prefix[level]
                } else {
                    0
                };
                let first_bit: u32 = m.trailing_zeros();
                proof {
                    axiom_u64_trailing_zeros(m);
                    lemma_aligned_or_u32(level_prefix, first_bit);
                }
                match average_ones(m) {
                    Some(average_bit) => {
                        // divide the mask at the averaging position
                        let ghost pre = this.0;
                        proof {
                            assert(1u64 << average_bit >= 1u64) by (bit_vector)
                                requires
                                    average_bit < 64u64,
                            ;
                        }
                        let mask: u64 = (1u64 << average_bit) - 1;
                        let idx_avg: u32 = level_prefix | (average_bit as u32);
                        let idx_first: u32 = level_prefix | first_bit;
                        proof {
                            lemma_aligned_or_u32(level_prefix, average_bit as u32);
                            assert(idx_avg << 6u32 == idx_avg * 64 && idx_first << 6u32 == idx_first
                                * 64) by (bit_vector)
                                requires
                                    idx_avg < 0x40000u32,
                                    idx_first < 0x40000u32,
                            ;
                        }
                        let hm: [u64; 4] = if level == 3 {
                            [0u64, 0u64, 0u64, m & !mask]
                        } else if level == 2 {
                            [0u64, 0u64, m & !mask, 0u64]
                        } else {
                            [0u64, m & !mask, 0u64, 0u64]
                        };
                        let hp: [u32; 3] = if level == 3 {
                            [0u32, 0u32, idx_avg << 6u32]
                        } else if level == 2 {
                            [0u32, idx_avg << 6u32, this.0.prefix[2]]
                        } else {
                            [idx_avg << 6u32, this.0.prefix[1], this.0.prefix[2]]
                        };
                        let other = BitProducer(BitIter::new(this.0.set, hm, hp), splits);
                        this.0.masks[level] = m & mask;
                        this.0.prefix[level - 1] = idx_first << 6u32;
                        proof {
                            assert(this.0.masks@ == pre.masks@.update(
                                level as int,
                                pre.masks@[level as int] & (((1u64 << average_bit) - 1) as u64),
                            ));
                            lemma_split_partition(
                                pre,
                                this.0,
                                other.0,
                                level as int,
                                average_bit,
                            );
                            // both halves keep bits, and their counts
                            // differ by at most one
                            crate::util::lemma_pc_of_split(m, average_bit);
                            crate::util::lemma_pc_zero(64);
                            assert(this.0.masks@[level as int] != 0 && other.0.masks@[level as int]
                                != 0) by {
                                if m & mask == 0 {
                                    assert(pc64(0u64) == 0);
                                }
                                if m & !mask == 0 {
                                    assert(pc64(0u64) == 0);
                                }
                            }
                            assert(split_evenly(this.0, other.0, splits)) by {
                                let lv = level as int;
                                lemma_split_mask(m, average_bit);
                                assert(this.0.masks@[lv] == m & mask);
                                assert(other.0.masks@[lv] == m & !mask);
                                assert(this.0.masks@[lv] & other.0.masks@[lv] == 0);
                                assert(pc64(m & mask) == pc64(m) - pc64(m) / 2);
                                assert(pc64(m & !mask) == pc64(m) / 2);
                                assert(pc64(other.0.masks@[lv]) <= pc64(this.0.masks@[lv]) <= pc64(
                                    other.0.masks@[lv],
                                ) + 1);
                                assert(forall|k: int|
                                    lv < k <= 3 ==> this.0.masks@[k] == 0 && other.0.masks@[k]
                                        == 0);
                                assert(forall|k: int| 0 <= k < lv ==> other.0.masks@[k] == 0);
                            }
                        }
                        return (this, Some(other));
                    },
                    None => {
                        // a single bit: descend through it and try the
                        // next layer down
                        let ghost pre = this.0;
                        let idx: u32 = level_prefix | first_bit;
                        proof {
                            assert(idx << 6u32 == idx * 64) by (bit_vector)
                                requires
                                    idx < 0x40000u32,
                            ;
                        }
                        let w = this.0.set.get_from_layer(level - 1, idx as usize);
                        this.0.prefix[level - 1] = idx << 6u32;
                        this.0.masks[level] = 0;
                        this.0.masks[level - 1] = w;
                        proof {
                            // the mask held exactly one bit, so clearing
                            // its lowest bit empties it
                            let b = u64_trailing_zeros(m) as u64;
                            lemma_pc_ge_one(m, b);
                            lemma_pc_below_clear(m, b, 64);
                            assert(clear_lowest(m) == 0) by {
                                if clear_lowest(m) != 0 {
                                    lemma_nonzero_has_bit(clear_lowest(m));
                                    let bb = choose|bb: u64|
                                        bb < 64 && bit64(clear_lowest(m), bb);
                                    lemma_pc_ge_one(clear_lowest(m), bb);
                                }
                            }
                            assert(this.0.masks@ == pre.masks@.update(
                                level as int,
                                clear_lowest(pre.masks@[level as int]),
                            ).update(
                                level as int - 1,
                                crate::spec_from_layer(
                                    pre.set,
                                    level as int - 1,
                                    descend_idx(pre, level as int),
                                ),
                            ));
                            assert(this.0.prefix@ == pre.prefix@.update(
                                level as int - 1,
                                (descend_idx(pre, level as int) * 64) as u32,
                            ));
                            lemma_descend(pre, this.0, level as int);
                            assert(lone_mask(this.0)) by {
                                assert forall|k1: int, k2: int|
                                    0 <= k1 < k2 <= 3 implies !(this.0.masks@[k1] != 0
                                    && this.0.masks@[k2] != 0) by {
                                    if k2 == level - 1 || k1 == level - 1 {
                                        assert(pre.masks@[level as int] != 0);
                                    }
                                }
                            }
                        }
                    },
                }
            }
            i = i + 1;
        }
        (this, None)
    }
}

} // verus!
