//! Hierarchical bit sets: sets of 32-bit indices stored as a four-layer
//! bitmap, where each layer summarizes the one below it.  The layout makes
//! iteration over sparse index sets fast, because a zero summary bit lets a
//! whole range of the key space be skipped.
//!
//! Layer 0 is the membership bitmap proper: bit `i` is set iff index `i` is
//! in the set.  A bit of layer 1 is set iff the corresponding 64-bit word of
//! layer 0 is non-zero, and layers 2 and 3 summarize layers 1 and 2 the same
//! way.  Layer 3 is a single word, which bounds the index space at `64^4`.

use vstd::prelude::*;

pub mod iter;
pub mod ops;
pub mod util;

pub use crate::iter::BitIter;
pub use crate::iter::drain::DrainBitIter;
pub use crate::iter::parallel::{BitParIter, BitProducer};
pub use crate::ops::{BitSetAll, BitSetAnd, BitSetNot, BitSetOr, BitSetXor};

verus! {

use crate::util::{bit64, Index, lemma_bit_set_single, lemma_bit_clear_single, lemma_bit_test,
lemma_bit_bounds, lemma_div_chain, lemma_index_shifts, offsets};

broadcast use vstd::seq_lib::group_seq_properties;

/// The word of a layer at a given offset; offsets outside the stored
/// range read as zero.
pub open spec fn word_at(s: Seq<u64>, o: int) -> u64 {
    if 0 <= o < s.len() {
        s[o]
    } else {
        0u64
    }
}

/// A `GenericBitSet` is a simple set designed to track which indices are
/// placed into it, stored as four layers of 64-bit words.
///
/// A `BitSet` is limited by design to indices below `64^4`.
#[derive(Clone, Debug)]
pub struct GenericBitSet {
    /// The single top word; bit `k` summarizes word `k` of layer 2.
    pub layer3: u64,
    /// Each bit summarizes one word of layer 1, so one bit covers
    /// `64 * 64 * 64` indices.
    pub layer2: Vec<u64>,
    /// Each bit summarizes one word of layer 0, so one bit covers
    /// `64 * 64` indices.
    pub layer1: Vec<u64>,
    /// The membership bitmap itself: bit `i % 64` of word `i / 64` says
    /// whether index `i` is in the set.
    pub layer0: Vec<u64>,
}

/// A `BitSet` is a simple set designed to track which indices are placed
/// into it.
pub type BitSet = GenericBitSet;

impl GenericBitSet {
    /// The layer-0 word at offset `o`, zero outside the stored range.
    pub open spec fn l0(self, o: int) -> u64 {
        word_at(self.layer0@, o)
    }

    /// The layer-1 word at offset `o`, zero outside the stored range.
    pub open spec fn l1(self, o: int) -> u64 {
        word_at(self.layer1@, o)
    }

    /// The layer-2 word at offset `o`, zero outside the stored range.
    pub open spec fn l2(self, o: int) -> u64 {
        word_at(self.layer2@, o)
    }

    /// The single layer-3 word.
    pub open spec fn l3(self) -> u64 {
        self.layer3
    }

    /// The layer invariant: a bit of layer 1, 2 or 3 is set exactly when
    /// the word it summarizes one layer below is non-zero, and the layer
    /// lengths cover one another.
    pub open spec fn inv(self) -> bool {
        &&& self.layer0@.len() <= 0x40000
        &&& self.layer1@.len() <= 0x1000
        &&& self.layer2@.len() <= 64
        &&& self.layer0@.len() <= self.layer1@.len() * 64
        &&& self.layer1@.len() <= self.layer2@.len() * 64
        &&& forall|o: int|
            0 <= o < 0x40000 ==> ((#[trigger] self.l0(o)) != 0 <==> bit64(
                self.l1(o / 64),
                (o % 64) as u64,
            ))
        &&& forall|o: int|
            0 <= o < 0x1000 ==> ((#[trigger] self.l1(o)) != 0 <==> bit64(
                self.l2(o / 64),
                (o % 64) as u64,
            ))
        &&& forall|o: int| 0 <= o < 64 ==> ((#[trigger] self.l2(o)) != 0 <==> bit64(self.l3(), o as u64))
    }

    /// True iff index `i` is in the set: its bit in layer 0 is set.
    pub open spec fn has_index(self, i: int) -> bool {
        0 <= i && bit64(self.l0(i / 64), (i % 64) as u64)
    }

    /// Every member of a set lies below `64^4`.
    pub proof fn lemma_members_bounded(self)
        requires
            self.inv(),
        ensures
            forall|j: int| #[trigger] self.has_index(j) ==> 0 <= j < 0x1000000,
    {
        assert forall|j: int| #[trigger] self.has_index(j) implies 0 <= j < 0x1000000 by {
            if j >= 0x1000000 {
                lemma_div_chain(j);
                assert(j / 64 >= 0x40000);
                assert(self.l0(j / 64) == 0);
                lemma_bit_bounds(0u64);
            }
        }
    }

    /// Creates an empty `BitSet`.
    pub fn new() -> (r: Self)
        ensures
            r.inv(),
            r.layer0@.len() == 0,
            r.layer1@.len() == 0,
            r.layer2@.len() == 0,
            r.l3() == 0,
            forall|j: int| !r.has_index(j),
    {
        let r = GenericBitSet {
            layer3: 0u64,
            layer2: Vec::new(),
            layer1: Vec::new(),
            layer0: Vec::new(),
        };
        proof {
            lemma_bit_bounds(0u64);
        }
        r
    }

    /// Creates an empty `BitSet`, preallocated for indices up to `max`.
    pub fn with_capacity(max: Index) -> (r: Self)
        requires
            max < 0x1000000,
        ensures
            r.inv(),
            forall|j: int| !r.has_index(j),
            r.layer0@.len() > max as int / 64,
            r.layer1@.len() > max as int / 4096,
            r.layer2@.len() > max as int / 0x40000,
    {
        let mut value = Self::new();
        value.extend(max);
        value
    }

    /// Grows the three stored layers so that the rows of `id` are in range.
    fn extend(&mut self, id: Index)
        requires
            old(self).inv(),
            id < 0x1000000,
        ensures
            final(self).inv(),
            final(self).layer0@.len() > id as int / 64,
            final(self).layer1@.len() > id as int / 4096,
            final(self).layer2@.len() > id as int / 0x40000,
            final(self).layer0@.len() >= old(self).layer0@.len(),
            final(self).layer1@.len() >= old(self).layer1@.len(),
            final(self).layer2@.len() >= old(self).layer2@.len(),
            forall|o: int| final(self).l0(o) == old(self).l0(o),
            forall|o: int| final(self).l1(o) == old(self).l1(o),
            forall|o: int| final(self).l2(o) == old(self).l2(o),
            final(self).l3() == old(self).l3(),
            forall|j: int| final(self).has_index(j) == old(self).has_index(j),
    {
        let (p0, p1, p2) = offsets(id);
        proof {
            lemma_div_chain(id as int);
        }
        Self::fill_up(&mut self.layer2, p2);
        Self::fill_up(&mut self.layer1, p1);
        Self::fill_up(&mut self.layer0, p0);
        proof {
            let l0n = self.layer0@.len() as int;
            let l1n = self.layer1@.len() as int;
            let l2n = self.layer2@.len() as int;
            let b0 = old(self).layer0@.len() as int;
            let b1 = old(self).layer1@.len() as int;
            let b2 = old(self).layer2@.len() as int;
            assert(l0n <= l1n * 64) by (nonlinear_arith)
                requires
                    l0n == if b0 <= p0 {
                        p0 + 1
                    } else {
                        b0
                    },
                    l1n == if b1 <= p1 {
                        p1 + 1
                    } else {
                        b1
                    },
                    b0 <= b1 * 64,
                    p0 == id as int / 64,
                    p1 == (id as int / 64) / 64,
                    p0 >= 0,
            ;
            assert(l1n <= l2n * 64) by (nonlinear_arith)
                requires
                    l1n == if b1 <= p1 {
                        p1 + 1
                    } else {
                        b1
                    },
                    l2n == if b2 <= p2 {
                        p2 + 1
                    } else {
                        b2
                    },
                    b1 <= b2 * 64,
                    p1 == id as int / 4096,
                    p2 == (id as int / 4096) / 64,
                    p1 >= 0,
            ;
            assert forall|o: int| self.l0(o) == old(self).l0(o) by {
                assert(word_at(self.layer0@, o) == word_at(old(self).layer0@, o));
            }
            assert forall|o: int| self.l1(o) == old(self).l1(o) by {
                assert(word_at(self.layer1@, o) == word_at(old(self).layer1@, o));
            }
            assert forall|o: int| self.l2(o) == old(self).l2(o) by {
                assert(word_at(self.layer2@, o) == word_at(old(self).layer2@, o));
            }
            assert forall|o: int|
                0 <= o < 0x40000 implies ((#[trigger] self.l0(o)) != 0 <==> bit64(
                self.l1(o / 64),
                (o % 64) as u64,
            )) by {
                assert(self.l0(o) == old(self).l0(o));
                assert(self.l1(o / 64) == old(self).l1(o / 64));
            }
            assert forall|o: int|
                0 <= o < 0x1000 implies ((#[trigger] self.l1(o)) != 0 <==> bit64(
                self.l2(o / 64),
                (o % 64) as u64,
            )) by {
                assert(self.l1(o) == old(self).l1(o));
                assert(self.l2(o / 64) == old(self).l2(o / 64));
            }
            assert forall|o: int|
                0 <= o < 64 implies ((#[trigger] self.l2(o)) != 0 <==> bit64(self.l3(), o as u64))
                by {
                assert(self.l2(o) == old(self).l2(o));
            }
            assert forall|j: int| self.has_index(j) == old(self).has_index(j) by {
                if j >= 0 {
                    assert(self.l0(j / 64) == old(self).l0(j / 64));
                }
            }
        }
    }

    /// Grows the vector with zero words until `upper_index` is in range.
    fn fill_up(vec: &mut Vec<u64>, upper_index: usize)
        requires
            upper_index < 0x40000,
        ensures
            final(vec)@.len() == if old(vec)@.len() <= upper_index {
                upper_index + 1
            } else {
                old(vec)@.len() as int
            },
            forall|o: int| word_at(final(vec)@, o) == word_at(old(vec)@, o),
    {
        while vec.len() <= upper_index
            invariant
                upper_index < 0x40000,
                vec@.len() >= old(vec)@.len(),
                vec@.len() <= upper_index + 1 || vec@.len() == old(vec)@.len(),
                forall|o: int| 0 <= o < old(vec)@.len() ==> vec@[o] == old(vec)@[o],
                forall|o: int| old(vec)@.len() <= o < vec@.len() ==> vec@[o] == 0u64,
            decreases upper_index + 1 - vec@.len(),
        {
            vec.push(0u64);
        }
        proof {
            assert forall|o: int| word_at(vec@, o) == word_at(old(vec)@, o) by {
                if 0 <= o < old(vec)@.len() {
                } else if 0 <= o < vec@.len() {
                    assert(vec@[o] == 0u64);
                }
            }
        }
    }

    /// Sets the summary bits of the three upper layers for `id`; used when
    /// the layer-0 word of `id` was zero before the bit of `id` was set.
    fn add_slow(&mut self, id: Index)
        requires
            id < 0x1000000,
            old(self).layer1@.len() > id as int / 4096,
            old(self).layer2@.len() > id as int / 0x40000,
        ensures
            final(self).layer0 == old(self).layer0,
            final(self).layer1@ == old(self).layer1@.update(
                id as int / 4096,
                old(self).l1(id as int / 4096) | (1u64 << (((id as int / 64) % 64) as u64)),
            ),
            final(self).layer2@ == old(self).layer2@.update(
                id as int / 0x40000,
                old(self).l2(id as int / 0x40000) | (1u64 << (((id as int / 4096) % 64) as u64)),
            ),
            final(self).l3() == old(self).l3() | (1u64 << ((id as int / 0x40000) as u64)),
    {
        proof {
            lemma_index_shifts(id);
            lemma_div_chain(id as int);
        }
        let (_, p1, p2) = offsets(id);
        self.layer1[p1] = self.layer1[p1] | (1u64 << (((id >> 6) & 63) as u64));
        self.layer2[p2] = self.layer2[p2] | (1u64 << (((id >> 12) & 63) as u64));
        self.layer3 = self.layer3 | (1u64 << ((id >> 18) as u64));
    }

    /// Adds `id` to the `BitSet`.  Returns `true` if the value was
    /// already in the set.
    ///
    /// Afterwards `id` is a member, no other membership changes, and the
    /// layer invariant still holds; adding a present index changes nothing.
    pub fn add(&mut self, id: Index) -> (r: bool)
        requires
            old(self).inv(),
            id < 0x1000000,
        ensures
            final(self).inv(),
            r == old(self).has_index(id as int),
            final(self).has_index(id as int),
            forall|j: int|
                final(self).has_index(j) <==> (old(self).has_index(j) || j == id as int),
            old(self).has_index(id as int) ==> *final(self) == *old(self),
            final(self).layer0@.len() >= old(self).layer0@.len(),
            final(self).layer1@.len() >= old(self).layer1@.len(),
            final(self).layer2@.len() >= old(self).layer2@.len(),
            forall|o: int| o != id as int / 64 ==> final(self).l0(o) == old(self).l0(o),
            forall|o: int| o != id as int / 4096 ==> final(self).l1(o) == old(self).l1(o),
            forall|o: int| o != id as int / 0x40000 ==> final(self).l2(o) == old(self).l2(o),
            forall|b: u64|
                b < 64 && b != (id as int / 0x40000) as u64 ==> bit64(final(self).l3(), b) == bit64(
                    old(self).l3(),
                    b,
                ),
    {
        proof {
            lemma_index_shifts(id);
            lemma_div_chain(id as int);
        }
        let p0 = (id >> 6) as usize;
        let mask: u64 = 1u64 << ((id & 63) as u64);
        let ghost i = id as int;

        let ghost grew = p0 >= self.layer0@.len();
        if p0 >= self.layer0.len() {
            self.extend(id);
        }
        let ghost base = *self;
        proof {
            assert(base.inv());
            assert(i / 64 < base.layer0@.len());
            assert(i / 4096 < base.layer1@.len()) by (nonlinear_arith)
                requires
                    base.layer0@.len() <= base.layer1@.len() * 64,
                    i / 64 < base.layer0@.len(),
                    i / 4096 == (i / 64) / 64,
                    i >= 0,
            ;
            assert(i / 0x40000 < base.layer2@.len()) by (nonlinear_arith)
                requires
                    base.layer1@.len() <= base.layer2@.len() * 64,
                    i / 4096 < base.layer1@.len(),
                    i / 0x40000 == (i / 4096) / 64,
                    i >= 0,
            ;
            lemma_bit_test(base.l0(i / 64), (i % 64) as u64);
        }
        if self.layer0[p0] & mask != 0 {
            proof {
                // an index already present lay inside the stored range,
                // so no layer grew and nothing changed
                lemma_bit_bounds(base.l0(i / 64));
                if grew {
                    assert(old(self).l0(i / 64) == 0);
                    assert(base.l0(i / 64) == old(self).l0(i / 64));
                    assert(false);
                }
            }
            return true;
        }

        let old_word = self.layer0[p0];
        self.layer0[p0] = old_word | mask;
        proof {
            lemma_bit_set_single(old_word, (i % 64) as u64);
        }
        if old_word == 0 {
            self.add_slow(id);
            proof {
                self.proof_add_invariant(base, i);
                lemma_bit_set_single(base.l3(), (i / 0x40000) as u64);
            }
        } else {
            proof {
                assert forall|o: int|
                    0 <= o < 0x40000 implies ((#[trigger] self.l0(o)) != 0 <==> bit64(
                    self.l1(o / 64),
                    (o % 64) as u64,
                )) by {
                    assert(self.l1(o / 64) == base.l1(o / 64));
                    if o != i / 64 {
                        assert(self.l0(o) == base.l0(o));
                    } else {
                        lemma_bit_bounds(old_word);
                        assert(self.l0(o) != 0 && base.l0(o) != 0);
                    }
                }
                assert forall|o: int|
                    0 <= o < 0x1000 implies ((#[trigger] self.l1(o)) != 0 <==> bit64(
                    self.l2(o / 64),
                    (o % 64) as u64,
                )) by {
                    assert(self.l1(o) == base.l1(o));
                    assert(self.l2(o / 64) == base.l2(o / 64));
                }
                assert forall|o: int|
                    0 <= o < 64 implies ((#[trigger] self.l2(o)) != 0 <==> bit64(
                    self.l3(),
                    o as u64,
                )) by {
                    assert(self.l2(o) == base.l2(o));
                }
            }
        }
        proof {
            self.proof_add_members(*old(self), i);
        }
        false
    }

    /// After the bit of `i` was set in layer 0 and nothing else changed in
    /// layer 0, membership grew by exactly `i`.
    proof fn proof_add_members(self, pre: Self, i: int)
        requires
            0 <= i < 0x1000000,
            self.l0(i / 64) == pre.l0(i / 64) | (1u64 << ((i % 64) as u64)),
            forall|o: int| o != i / 64 ==> self.l0(o) == pre.l0(o),
        ensures
            forall|j: int| self.has_index(j) <==> (pre.has_index(j) || j == i),
            self.has_index(i),
    {
        lemma_bit_set_single(pre.l0(i / 64), ((i % 64)) as u64);
        lemma_div_chain(i);
        assert forall|j: int| self.has_index(j) <==> (pre.has_index(j) || j == i) by {
            if j >= 0 {
                lemma_div_chain(j);
                if j / 64 == i / 64 {
                    if j % 64 == i % 64 {
                        assert(j == 64 * (j / 64) + j % 64 && i == 64 * (i / 64) + i % 64);
                    }
                } else {
                    assert(self.l0(j / 64) == pre.l0(j / 64));
                }
            }
        }
    }

    /// The layer invariant holds again after `add_slow` set the three
    /// summary bits of `i` above a freshly non-zero layer-0 word.
    proof fn proof_add_invariant(self, pre: Self, i: int)
        requires
            0 <= i < 0x1000000,
            pre.inv(),
            pre.l0(i / 64) == 0,
            i / 64 < pre.layer0@.len(),
            i / 4096 < pre.layer1@.len(),
            i / 0x40000 < pre.layer2@.len(),
            self.layer0@ == pre.layer0@.update(
                i / 64,
                pre.l0(i / 64) | (1u64 << ((i % 64) as u64)),
            ),
            self.layer1@ == pre.layer1@.update(
                i / 4096,
                pre.l1(i / 4096) | (1u64 << (((i / 64) % 64) as u64)),
            ),
            self.layer2@ == pre.layer2@.update(
                i / 0x40000,
                pre.l2(i / 0x40000) | (1u64 << (((i / 4096) % 64) as u64)),
            ),
            self.l3() == pre.l3() | (1u64 << ((i / 0x40000) as u64)),
        ensures
            self.inv(),
    {
        lemma_div_chain(i);
        lemma_bit_set_single(pre.l0(i / 64), (i % 64) as u64);
        lemma_bit_set_single(pre.l1(i / 4096), ((i / 64) % 64) as u64);
        lemma_bit_set_single(pre.l2(i / 0x40000), ((i / 4096) % 64) as u64);
        lemma_bit_set_single(pre.l3(), (i / 0x40000) as u64);
        assert forall|o: int|
            0 <= o < 0x40000 implies ((#[trigger] self.l0(o)) != 0 <==> bit64(
            self.l1(o / 64),
            (o % 64) as u64,
        )) by {
            lemma_div_chain(o);
            if o == i / 64 {
                assert(self.l0(o) != 0);
                assert(bit64(self.l1(o / 64), (o % 64) as u64));
            } else if o / 64 == i / 4096 {
                assert(self.l0(o) == pre.l0(o));
                if o % 64 == (i / 64) % 64 {
                    assert(o == 64 * (o / 64) + o % 64 && i / 64 == 64 * (i / 4096) + (i / 64)
                        % 64);
                    assert(false);
                }
                assert(bit64(self.l1(o / 64), (o % 64) as u64) == bit64(
                    pre.l1(o / 64),
                    (o % 64) as u64,
                ));
            } else {
                assert(self.l0(o) == pre.l0(o));
                assert(self.l1(o / 64) == pre.l1(o / 64));
            }
        }
        assert forall|o: int|
            0 <= o < 0x1000 implies ((#[trigger] self.l1(o)) != 0 <==> bit64(
            self.l2(o / 64),
            (o % 64) as u64,
        )) by {
            lemma_div_chain(o);
            if o == i / 4096 {
                assert(self.l1(o) != 0);
                assert(bit64(self.l2(o / 64), (o % 64) as u64));
            } else if o / 64 == i / 0x40000 {
                assert(self.l1(o) == pre.l1(o));
                if o % 64 == (i / 4096) % 64 {
                    assert(o == 64 * (o / 64) + o % 64 && i / 4096 == 64 * (i / 0x40000) + (i
                        / 4096) % 64);
                    assert(false);
                }
                assert(bit64(self.l2(o / 64), (o % 64) as u64) == bit64(
                    pre.l2(o / 64),
                    (o % 64) as u64,
                ));
            } else {
                assert(self.l1(o) == pre.l1(o));
                assert(self.l2(o / 64) == pre.l2(o / 64));
            }
        }
        assert forall|o: int|
            0 <= o < 64 implies ((#[trigger] self.l2(o)) != 0 <==> bit64(self.l3(), o as u64)) by {
            if o == i / 0x40000 {
                assert(self.l2(o) != 0);
            } else {
                assert(self.l2(o) == pre.l2(o));
                assert(bit64(self.l3(), o as u64) == bit64(pre.l3(), o as u64));
            }
        }
    }

    /// Returns `true` if `id` is in the set.
    pub fn contains(&self, id: Index) -> (r: bool)
        ensures
            r == self.has_index(id as int),
    {
        proof {
            lemma_index_shifts(id);
            lemma_div_chain(id as int);
            lemma_bit_test(self.l0(id as int / 64), (id as int % 64) as u64);
            lemma_bit_bounds(0u64);
        }
        let p0 = (id >> 6) as usize;
        p0 < self.layer0.len() && (self.layer0[p0] & (1u64 << ((id & 63) as u64))) != 0
    }

    /// Completely wipes out the bit set.
    pub fn clear(&mut self)
        ensures
            final(self).inv(),
            final(self).layer0@.len() == 0,
            final(self).layer1@.len() == 0,
            final(self).layer2@.len() == 0,
            final(self).l3() == 0,
            forall|j: int| !final(self).has_index(j),
    {
        self.layer0.clear();
        self.layer1.clear();
        self.layer2.clear();
        self.layer3 = 0;
        proof {
            lemma_bit_bounds(0u64);
        }
    }

    /// Removes `id` from the set; returns `true` if the value was
    /// removed, and `false` if the value was not in the set to begin with.
    ///
    /// Afterwards `id` is not a member, no other membership changes, and
    /// the layer invariant still holds.
    pub fn remove(&mut self, id: Index) -> (r: bool)
        requires
            old(self).inv(),
        ensures
            final(self).inv(),
            r == old(self).has_index(id as int),
            !final(self).has_index(id as int),
            forall|j: int|
                final(self).has_index(j) <==> (old(self).has_index(j) && j != id as int),
            final(self).layer0@.len() == old(self).layer0@.len(),
            final(self).layer1@.len() == old(self).layer1@.len(),
            final(self).layer2@.len() == old(self).layer2@.len(),
            !old(self).has_index(id as int) ==> *final(self) == *old(self),
            forall|o: int| o != id as int / 64 ==> final(self).l0(o) == old(self).l0(o),
            forall|o: int| o != id as int / 4096 ==> final(self).l1(o) == old(self).l1(o),
            forall|o: int| o != id as int / 0x40000 ==> final(self).l2(o) == old(self).l2(o),
            forall|b: u64|
                b < 64 && b != (id as int / 0x40000) as u64 ==> bit64(final(self).l3(), b) == bit64(
                    old(self).l3(),
                    b,
                ),
    {
        proof {
            lemma_index_shifts(id);
            lemma_div_chain(id as int);
        }
        let (p0, p1, p2) = offsets(id);
        let ghost i = id as int;
        let ghost pre = *self;

        if p0 >= self.layer0.len() {
            proof {
                lemma_bit_bounds(0u64);
                assert(!pre.has_index(i));
            }
            return false;
        }

        proof {
            lemma_bit_test(pre.l0(i / 64), (i % 64) as u64);
        }
        if self.layer0[p0] & (1u64 << ((id & 63) as u64)) == 0 {
            proof {
                assert(!pre.has_index(i));
            }
            return false;
        }

        proof {
            // The summary chain of `id` is set on every layer, which also
            // shows that each row of `id` is inside the stored range.
            assert(i / 64 < 0x40000);
            assert(pre.l0(i / 64) != 0) by {
                lemma_bit_bounds(pre.l0(i / 64));
            }
            assert(bit64(pre.l1(i / 4096), ((i / 64) % 64) as u64));
            assert(pre.l1(i / 4096) != 0) by {
                lemma_bit_bounds(pre.l1(i / 4096));
            }
            assert(i / 4096 < pre.layer1@.len());
            assert(bit64(pre.l2(i / 0x40000), ((i / 4096) % 64) as u64));
            assert(pre.l2(i / 0x40000) != 0) by {
                lemma_bit_bounds(pre.l2(i / 0x40000));
            }
            assert(i / 0x40000 < pre.layer2@.len());
            assert(bit64(pre.l3(), (i / 0x40000) as u64));
        }

        let w0 = self.layer0[p0] & !(1u64 << ((id & 63) as u64));
        self.layer0[p0] = w0;
        proof {
            lemma_bit_clear_single(pre.l0(i / 64), (i % 64) as u64);
            self.proof_remove_members(pre, i);
        }
        if w0 != 0 {
            proof {
                self.proof_remove_depth0(pre, i);
            }
            return true;
        }

        let w1 = self.layer1[p1] & !(1u64 << (((id >> 6) & 63) as u64));
        self.layer1[p1] = w1;
        proof {
            lemma_bit_clear_single(pre.l1(i / 4096), ((i / 64) % 64) as u64);
        }
        if w1 != 0 {
            proof {
                self.proof_remove_depth1(pre, i);
            }
            return true;
        }

        let w2 = self.layer2[p2] & !(1u64 << (((id >> 12) & 63) as u64));
        self.layer2[p2] = w2;
        proof {
            lemma_bit_clear_single(pre.l2(i / 0x40000), ((i / 4096) % 64) as u64);
        }
        if w2 != 0 {
            proof {
                self.proof_remove_depth2(pre, i);
            }
            return true;
        }

        self.layer3 = self.layer3 & !(1u64 << ((id >> 18) as u64));
        proof {
            lemma_bit_clear_single(pre.l3(), (i / 0x40000) as u64);
            self.proof_remove_depth3(pre, i);
        }
        return true;
    }

    /// After the bit of `i` was cleared in layer 0 and nothing else changed
    /// in layer 0, membership shrank by exactly `i`.
    proof fn proof_remove_members(self, pre: Self, i: int)
        requires
            0 <= i < 0x1000000,
            self.l0(i / 64) == pre.l0(i / 64) & !(1u64 << ((i % 64) as u64)),
            forall|o: int| o != i / 64 ==> self.l0(o) == pre.l0(o),
        ensures
            forall|j: int| self.has_index(j) <==> (pre.has_index(j) && j != i),
            !self.has_index(i),
    {
        lemma_bit_clear_single(pre.l0(i / 64), (i % 64) as u64);
        lemma_div_chain(i);
        assert forall|j: int| self.has_index(j) <==> (pre.has_index(j) && j != i) by {
            if j >= 0 {
                lemma_div_chain(j);
                if j / 64 == i / 64 {
                    if j % 64 == i % 64 {
                        assert(j == 64 * (j / 64) + j % 64 && i == 64 * (i / 64) + i % 64);
                    }
                } else {
                    assert(self.l0(j / 64) == pre.l0(j / 64));
                }
            }
        }
    }

    /// The layer invariant after removal when the layer-0 word of `i`
    /// stays non-zero: no summary changes.
    proof fn proof_remove_depth0(self, pre: Self, i: int)
        requires
            0 <= i < 0x1000000,
            pre.inv(),
            i / 64 < pre.layer0@.len(),
            pre.l0(i / 64) != 0,
            self.layer0@ == pre.layer0@.update(
                i / 64,
                pre.l0(i / 64) & !(1u64 << ((i % 64) as u64)),
            ),
            self.l0(i / 64) != 0,
            self.layer1 == pre.layer1,
            self.layer2 == pre.layer2,
            self.l3() == pre.l3(),
        ensures
            self.inv(),
    {
        lemma_div_chain(i);
        assert forall|o: int|
            0 <= o < 0x40000 implies ((#[trigger] self.l0(o)) != 0 <==> bit64(
            self.l1(o / 64),
            (o % 64) as u64,
        )) by {
            assert(self.l1(o / 64) == pre.l1(o / 64));
            if o != i / 64 {
                assert(self.l0(o) == pre.l0(o));
            }
        }
        assert forall|o: int|
            0 <= o < 0x1000 implies ((#[trigger] self.l1(o)) != 0 <==> bit64(
            self.l2(o / 64),
            (o % 64) as u64,
        )) by {
            assert(self.l1(o) == pre.l1(o));
            assert(self.l2(o / 64) == pre.l2(o / 64));
        }
        assert forall|o: int|
            0 <= o < 64 implies ((#[trigger] self.l2(o)) != 0 <==> bit64(self.l3(), o as u64)) by {
            assert(self.l2(o) == pre.l2(o));
        }
    }

    /// The layer invariant after removal when the layer-0 word of `i`
    /// became zero but the layer-1 word stays non-zero.
    proof fn proof_remove_depth1(self, pre: Self, i: int)
        requires
            0 <= i < 0x1000000,
            pre.inv(),
            i / 64 < pre.layer0@.len(),
            i / 4096 < pre.layer1@.len(),
            pre.l1(i / 4096) != 0,
            self.layer0@ == pre.layer0@.update(
                i / 64,
                pre.l0(i / 64) & !(1u64 << ((i % 64) as u64)),
            ),
            self.l0(i / 64) == 0,
            self.layer1@ == pre.layer1@.update(
                i / 4096,
                pre.l1(i / 4096) & !(1u64 << (((i / 64) % 64) as u64)),
            ),
            self.l1(i / 4096) != 0,
            self.layer2 == pre.layer2,
            self.l3() == pre.l3(),
        ensures
            self.inv(),
    {
        lemma_div_chain(i);
        lemma_bit_clear_single(pre.l1(i / 4096), ((i / 64) % 64) as u64);
        self.proof_remove_layers01(pre, i);
        assert forall|o: int|
            0 <= o < 0x1000 implies ((#[trigger] self.l1(o)) != 0 <==> bit64(
            self.l2(o / 64),
            (o % 64) as u64,
        )) by {
            assert(self.l2(o / 64) == pre.l2(o / 64));
            if o != i / 4096 {
                assert(self.l1(o) == pre.l1(o));
            }
        }
        assert forall|o: int|
            0 <= o < 64 implies ((#[trigger] self.l2(o)) != 0 <==> bit64(self.l3(), o as u64)) by {
            assert(self.l2(o) == pre.l2(o));
        }
    }

    /// The shared part of the removal proofs: the first layer relation
    /// holds whenever the layer-0 word of `i` became zero and its layer-1
    /// summary bit was cleared.
    proof fn proof_remove_layers01(self, pre: Self, i: int)
        requires
            0 <= i < 0x1000000,
            pre.inv(),
            i / 64 < pre.layer0@.len(),
            i / 4096 < pre.layer1@.len(),
            self.layer0@ == pre.layer0@.update(
                i / 64,
                pre.l0(i / 64) & !(1u64 << ((i % 64) as u64)),
            ),
            self.l0(i / 64) == 0,
            self.layer1@ == pre.layer1@.update(
                i / 4096,
                pre.l1(i / 4096) & !(1u64 << (((i / 64) % 64) as u64)),
            ),
        ensures
            forall|o: int|
                0 <= o < 0x40000 ==> ((#[trigger] self.l0(o)) != 0 <==> bit64(
                    self.l1(o / 64),
                    (o % 64) as u64,
                )),
    {
        lemma_div_chain(i);
        lemma_bit_clear_single(pre.l1(i / 4096), ((i / 64) % 64) as u64);
        assert forall|o: int|
            0 <= o < 0x40000 implies ((#[trigger] self.l0(o)) != 0 <==> bit64(
            self.l1(o / 64),
            (o % 64) as u64,
        )) by {
            lemma_div_chain(o);
            if o == i / 64 {
                assert(!bit64(self.l1(o / 64), (o % 64) as u64));
            } else if o / 64 == i / 4096 {
                assert(self.l0(o) == pre.l0(o));
                if o % 64 == (i / 64) % 64 {
                    assert(o == 64 * (o / 64) + o % 64 && i / 64 == 64 * (i / 4096) + (i / 64)
                        % 64);
                    assert(false);
                }
                assert(bit64(self.l1(o / 64), (o % 64) as u64) == bit64(
                    pre.l1(o / 64),
                    (o % 64) as u64,
                ));
            } else {
                assert(self.l0(o) == pre.l0(o));
                assert(self.l1(o / 64) == pre.l1(o / 64));
            }
        }
    }

    /// The second layer relation when the layer-1 word of `i` became zero
    /// and its layer-2 summary bit was cleared.
    proof fn proof_remove_layers12(self, pre: Self, i: int)
        requires
            0 <= i < 0x1000000,
            pre.inv(),
            i / 4096 < pre.layer1@.len(),
            i / 0x40000 < pre.layer2@.len(),
            self.layer1@ == pre.layer1@.update(
                i / 4096,
                pre.l1(i / 4096) & !(1u64 << (((i / 64) % 64) as u64)),
            ),
            self.l1(i / 4096) == 0,
            self.layer2@ == pre.layer2@.update(
                i / 0x40000,
                pre.l2(i / 0x40000) & !(1u64 << (((i / 4096) % 64) as u64)),
            ),
        ensures
            forall|o: int|
                0 <= o < 0x1000 ==> ((#[trigger] self.l1(o)) != 0 <==> bit64(
                    self.l2(o / 64),
                    (o % 64) as u64,
                )),
    {
        lemma_div_chain(i);
        lemma_bit_clear_single(pre.l2(i / 0x40000), ((i / 4096) % 64) as u64);
        assert forall|o: int|
            0 <= o < 0x1000 implies ((#[trigger] self.l1(o)) != 0 <==> bit64(
            self.l2(o / 64),
            (o % 64) as u64,
        )) by {
            lemma_div_chain(o);
            if o == i / 4096 {
                assert(!bit64(self.l2(o / 64), (o % 64) as u64));
            } else if o / 64 == i / 0x40000 {
                assert(self.l1(o) == pre.l1(o));
                if o % 64 == (i / 4096) % 64 {
                    assert(o == 64 * (o / 64) + o % 64 && i / 4096 == 64 * (i / 0x40000) + (i
                        / 4096) % 64);
                    assert(false);
                }
                assert(bit64(self.l2(o / 64), (o % 64) as u64) == bit64(
                    pre.l2(o / 64),
                    (o % 64) as u64,
                ));
            } else {
                assert(self.l1(o) == pre.l1(o));
                assert(self.l2(o / 64) == pre.l2(o / 64));
            }
        }
    }

    /// The layer invariant after removal when the layer-1 word of `i`
    /// became zero but the layer-2 word stays non-zero.
    proof fn proof_remove_depth2(self, pre: Self, i: int)
        requires
            0 <= i < 0x1000000,
            pre.inv(),
            i / 64 < pre.layer0@.len(),
            i / 4096 < pre.layer1@.len(),
            i / 0x40000 < pre.layer2@.len(),
            self.layer0@ == pre.layer0@.update(
                i / 64,
                pre.l0(i / 64) & !(1u64 << ((i % 64) as u64)),
            ),
            self.l0(i / 64) == 0,
            self.layer1@ == pre.layer1@.update(
                i / 4096,
                pre.l1(i / 4096) & !(1u64 << (((i / 64) % 64) as u64)),
            ),
            self.l1(i / 4096) == 0,
            self.layer2@ == pre.layer2@.update(
                i / 0x40000,
                pre.l2(i / 0x40000) & !(1u64 << (((i / 4096) % 64) as u64)),
            ),
            self.l2(i / 0x40000) != 0,
            pre.l2(i / 0x40000) != 0,
            self.l3() == pre.l3(),
        ensures
            self.inv(),
    {
        lemma_div_chain(i);
        self.proof_remove_layers01(pre, i);
        self.proof_remove_layers12(pre, i);
        assert forall|o: int|
            0 <= o < 64 implies ((#[trigger] self.l2(o)) != 0 <==> bit64(self.l3(), o as u64)) by {
            if o != i / 0x40000 {
                assert(self.l2(o) == pre.l2(o));
            }
        }
    }

    /// The layer invariant after removal when even the layer-2 word of `i`
    /// became zero, so the layer-3 bit was cleared as well.
    proof fn proof_remove_depth3(self, pre: Self, i: int)
        requires
            0 <= i < 0x1000000,
            pre.inv(),
            i / 64 < pre.layer0@.len(),
            i / 4096 < pre.layer1@.len(),
            i / 0x40000 < pre.layer2@.len(),
            self.layer0@ == pre.layer0@.update(
                i / 64,
                pre.l0(i / 64) & !(1u64 << ((i % 64) as u64)),
            ),
            self.l0(i / 64) == 0,
            self.layer1@ == pre.layer1@.update(
                i / 4096,
                pre.l1(i / 4096) & !(1u64 << (((i / 64) % 64) as u64)),
            ),
            self.l1(i / 4096) == 0,
            self.layer2@ == pre.layer2@.update(
                i / 0x40000,
                pre.l2(i / 0x40000) & !(1u64 << (((i / 4096) % 64) as u64)),
            ),
            self.l2(i / 0x40000) == 0,
            self.l3() == pre.l3() & !(1u64 << ((i / 0x40000) as u64)),
        ensures
            self.inv(),
    {
        lemma_div_chain(i);
        self.proof_remove_layers01(pre, i);
        self.proof_remove_layers12(pre, i);
        lemma_bit_clear_single(pre.l3(), (i / 0x40000) as u64);
        assert forall|o: int|
            0 <= o < 64 implies ((#[trigger] self.l2(o)) != 0 <==> bit64(self.l3(), o as u64)) by {
            if o == i / 0x40000 {
                assert(!bit64(self.l3(), o as u64));
            } else {
                assert(self.l2(o) == pre.l2(o));
                assert(bit64(self.l3(), o as u64) == bit64(pre.l3(), o as u64));
            }
        }
    }
}

/// True iff the bit of index `i` is set in layer 0 of the view `s`.
pub open spec fn view_contains<S: BitSetLike>(s: S, i: int) -> bool {
    0 <= i && bit64(s.spec_layer0(i / 64), (i % 64) as u64)
}

/// The word of the view `s` at the given layer and offset.
pub open spec fn spec_from_layer<S: BitSetLike>(s: S, layer: int, o: int) -> u64 {
    if layer == 0 {
        s.spec_layer0(o)
    } else if layer == 1 {
        s.spec_layer1(o)
    } else if layer == 2 {
        s.spec_layer2(o)
    } else {
        s.spec_layer3()
    }
}

/// The summaries of the view cover everything below them: above a
/// non-zero word the summary bit is set.  Concrete sets satisfy this
/// exactly; algebraic wrappers may overapproximate, which still makes
/// the hierarchical descent find every member.
pub open spec fn summaries_complete<S: BitSetLike>(s: S) -> bool {
    &&& forall|o: int|
        0 <= o < 0x40000 ==> ((#[trigger] s.spec_layer0(o)) != 0 ==> bit64(
            s.spec_layer1(o / 64),
            (o % 64) as u64,
        ))
    &&& forall|o: int|
        0 <= o < 0x1000 ==> ((#[trigger] s.spec_layer1(o)) != 0 ==> bit64(
            s.spec_layer2(o / 64),
            (o % 64) as u64,
        ))
    &&& forall|o: int| 0 <= o < 64 ==> ((#[trigger] s.spec_layer2(o)) != 0 ==> bit64(s.spec_layer3(), o as u64))
}

/// A generic interface for hierarchical bit sets: four read-only layers,
/// each word of layers 1 to 3 summarizing one word below, and membership
/// given by layer 0.  The sequential iterator, the parallel producer and
/// the algebraic wrappers all work against this interface.
pub trait BitSetLike: Sized {
    /// The single top word.
    spec fn spec_layer3(&self) -> u64;

    /// The layer-2 word at offset `o`.
    spec fn spec_layer2(&self, o: int) -> u64;

    /// The layer-1 word at offset `o`.
    spec fn spec_layer1(&self, o: int) -> u64;

    /// The layer-0 word at offset `o`.
    spec fn spec_layer0(&self, o: int) -> u64;

    /// Return the word whose bits summarize the non-zero words of layer 2.
    fn layer3(&self) -> (r: u64)
        ensures
            r == self.spec_layer3(),
    ;

    /// Return the layer-2 word at offset `i`.
    fn layer2(&self, i: usize) -> (r: u64)
        ensures
            r == self.spec_layer2(i as int),
    ;

    /// Return the layer-1 word at offset `i`.
    fn layer1(&self, i: usize) -> (r: u64)
        ensures
            r == self.spec_layer1(i as int),
    ;

    /// Return the layer-0 word at offset `i`.
    fn layer0(&self, i: usize) -> (r: u64)
        ensures
            r == self.spec_layer0(i as int),
    ;

    /// Allows checking if a bit is contained in the bit set.
    fn contains(&self, i: Index) -> (r: bool)
        ensures
            r == bit64(self.spec_layer0(i as int / 64), (i as int % 64) as u64),
    ;

    /// Gets the word corresponding to layer and index.
    fn get_from_layer(&self, layer: usize, idx: usize) -> (r: u64)
        requires
            layer < 4,
        ensures
            r == if layer == 0 {
                self.spec_layer0(idx as int)
            } else if layer == 1 {
                self.spec_layer1(idx as int)
            } else if layer == 2 {
                self.spec_layer2(idx as int)
            } else {
                self.spec_layer3()
            },
    {
        match layer {
            0 => self.layer0(idx),
            1 => self.layer1(idx),
            2 => self.layer2(idx),
            _ => self.layer3(),
        }
    }

    /// Returns true if this `BitSetLike` contains nothing, and false otherwise.
    fn is_empty(&self) -> (r: bool)
        ensures
            r == (self.spec_layer3() == 0),
    {
        self.layer3() == 0
    }

    /// Create an iterator that will scan over the keyspace.
    fn iter(self) -> (r: BitIter<Self>)
        ensures
            r.set == self,
            r.masks@[0] == 0,
            r.masks@[1] == 0,
            r.masks@[2] == 0,
            r.masks@[3] == self.spec_layer3(),
            r.prefix@[0] == 0,
            r.prefix@[1] == 0,
            r.prefix@[2] == 0,
    {
        let layer3 = self.layer3();
        BitIter::new(self, [0u64, 0u64, 0u64, layer3], [0u32, 0u32, 0u32])
    }

    /// Create a parallel iterator that will scan over the keyspace.
    fn par_iter(self) -> (r: BitParIter<Self>)
        ensures
            r.0 == self,
            r.1 == 3u8,
    {
        BitParIter::new(self)
    }
}

/// An extension to [`BitSetLike`] which allows draining it: removing
/// single bits, and removing everything while iterating.
pub trait DrainableBitSet: BitSetLike {
    /// The well-formedness of the view that removal needs and preserves.
    spec fn drain_wf(&self) -> bool;

    /// Removes a bit from the bit set.
    ///
    /// Returns `true` if removal happened and `false` otherwise; exactly
    /// the bit of `i` is cleared.
    fn remove(&mut self, i: Index) -> (r: bool)
        requires
            old(self).drain_wf(),
        ensures
            final(self).drain_wf(),
            r == bit64(old(self).spec_layer0(i as int / 64), (i as int % 64) as u64),
            forall|o: int, b: u64|
                0 <= o && b < 64 ==> ((#[trigger] bit64(final(self).spec_layer0(o), b)) <==> (
                bit64(old(self).spec_layer0(o), b) && o * 64 + b != i as int)),
    ;

    /// Create a draining iterator that scans over the key space and
    /// clears it while doing so: afterwards the set holds no index below
    /// `64^4`, and the iterator hands out exactly the old members, in
    /// ascending order.
    fn drain(&mut self) -> (r: DrainBitIter)
        requires
            old(self).drain_wf(),
            forall|o: int|
                0 <= o < 0x40000 ==> ((#[trigger] old(self).spec_layer0(o)) != 0 ==> bit64(
                    old(self).spec_layer1(o / 64),
                    (o % 64) as u64,
                )),
            forall|o: int|
                0 <= o < 0x1000 ==> ((#[trigger] old(self).spec_layer1(o)) != 0 ==> bit64(
                    old(self).spec_layer2(o / 64),
                    (o % 64) as u64,
                )),
            forall|o: int|
                0 <= o < 64 ==> ((#[trigger] old(self).spec_layer2(o)) != 0 ==> bit64(
                    old(self).spec_layer3(),
                    o as u64,
                )),
        ensures
            final(self).drain_wf(),
            forall|o: int, b: u64|
                0 <= o < 0x40000 && b < 64 ==> !(#[trigger] bit64(final(self).spec_layer0(o), b)),
            forall|o: int, b: u64|
                o >= 0x40000 && b < 64 ==> (#[trigger] bit64(final(self).spec_layer0(o), b))
                    == bit64(old(self).spec_layer0(o), b),
            r.pos == 0,
            forall|k: int| 0 <= k < r.items@.len() ==> (#[trigger] r.items@[k]) < 0x1000000,
            forall|k1: int, k2: int| 0 <= k1 < k2 < r.items@.len() ==> r.items@[k1] < r.items@[k2],
            forall|o: int, b: u64|
                0 <= o < 0x40000 && b < 64 ==> ((#[trigger] bit64(old(self).spec_layer0(o), b))
                    <==> r.items@.contains((o * 64 + b) as u32)),
    ;
}

impl DrainableBitSet for GenericBitSet {
    open spec fn drain_wf(&self) -> bool {
        self.inv()
    }

    fn remove(&mut self, i: Index) -> (r: bool) {
        let r = self.remove(i);
        proof {
            assert forall|o: int, b: u64|
                0 <= o && b < 64 implies ((bit64(self.spec_layer0(o), b)) <==> (bit64(
                old(self).spec_layer0(o),
                b,
            ) && o * 64 + b != i as int)) by {
                let j = o * 64 + b as int;
                crate::iter::lemma_mul_div(o, b as int, 64);
                assert(self.has_index(j) <==> (old(self).has_index(j) && j != i as int));
            }
        }
        r
    }

    fn drain(&mut self) -> (r: DrainBitIter) {
        proof {
            self.lemma_inv_complete();
            assert(summaries_complete::<GenericBitSet>(*self));
        }
        let items = crate::iter::drain::collect_indices(&*self);
        let mut k: usize = 0;
        proof {
            self.lemma_members_bounded();
            assert(items@.subrange(0, 0) =~= Seq::<u32>::empty());
        }
        while k < items.len()
            invariant
                self.inv(),
                k <= items@.len(),
                forall|kk: int| 0 <= kk < items@.len() ==> 0 <= (#[trigger] items@[kk]) < 0x1000000,
                forall|j: int|
                    0 <= j < 0x1000000 ==> (old(self).has_index(j) <==> items@.contains(j as u32)),
                forall|j: int|
                    0 <= j < 0x1000000 ==> (self.has_index(j) <==> (old(self).has_index(j)
                        && !items@.subrange(0, k as int).contains(j as u32))),
                forall|j: int| j >= 0x1000000 ==> self.has_index(j) == old(self).has_index(j),
            decreases items@.len() - k,
        {
            let v = items[k];
            let ghost prefix_seq = items@.subrange(0, k as int);
            self.remove(v);
            k = k + 1;
            proof {
                assert(items@.subrange(0, k as int) =~= prefix_seq.push(items@[k - 1]));
                assert forall|j: int|
                    0 <= j < 0x1000000 implies (self.has_index(j) <==> (old(self).has_index(j)
                    && !items@.subrange(0, k as int).contains(j as u32))) by {
                    assert((j as u32 == v) == (j == v as int));
                    assert(items@.subrange(0, k as int).contains(j as u32) == (prefix_seq.contains(
                        j as u32,
                    ) || j == v as int));
                }
            }
        }
        proof {
            assert(items@.subrange(0, items@.len() as int) =~= items@);
            assert forall|o: int, b: u64|
                0 <= o < 0x40000 && b < 64 implies !(bit64(self.spec_layer0(o), b)) by {
                let j = o * 64 + b as int;
                crate::iter::lemma_mul_div(o, b as int, 64);
                assert(!self.has_index(j));
            }
            assert forall|o: int, b: u64|
                o >= 0x40000 && b < 64 implies bit64(self.spec_layer0(o), b) == bit64(
                old(self).spec_layer0(o),
                b,
            ) by {
                let j = o * 64 + b as int;
                crate::iter::lemma_mul_div(o, b as int, 64);
                assert(self.has_index(j) == old(self).has_index(j));
            }
            assert forall|o: int, b: u64|
                0 <= o < 0x40000 && b < 64 implies (bit64(old(self).spec_layer0(o), b)
                <==> items@.contains((o * 64 + b) as u32)) by {
                let j = o * 64 + b as int;
                crate::iter::lemma_mul_div(o, b as int, 64);
                assert(old(self).has_index(j) <==> items@.contains(j as u32));
            }
        }
        DrainBitIter { items, pos: 0 }
    }
}

impl BitSetLike for GenericBitSet {
    open spec fn spec_layer3(&self) -> u64 {
        self.l3()
    }

    open spec fn spec_layer2(&self, o: int) -> u64 {
        self.l2(o)
    }

    open spec fn spec_layer1(&self, o: int) -> u64 {
        self.l1(o)
    }

    open spec fn spec_layer0(&self, o: int) -> u64 {
        self.l0(o)
    }

    fn layer3(&self) -> u64 {
        self.layer3
    }

    fn layer2(&self, i: usize) -> u64 {
        if i < self.layer2.len() {
            self.layer2[i]
        } else {
            0
        }
    }

    fn layer1(&self, i: usize) -> u64 {
        if i < self.layer1.len() {
            self.layer1[i]
        } else {
            0
        }
    }

    fn layer0(&self, i: usize) -> u64 {
        if i < self.layer0.len() {
            self.layer0[i]
        } else {
            0
        }
    }

    fn contains(&self, i: Index) -> bool {
        self.contains(i)
    }
}

impl<'a, T: BitSetLike> BitSetLike for &'a T {
    open spec fn spec_layer3(&self) -> u64 {
        (**self).spec_layer3()
    }

    open spec fn spec_layer2(&self, o: int) -> u64 {
        (**self).spec_layer2(o)
    }

    open spec fn spec_layer1(&self, o: int) -> u64 {
        (**self).spec_layer1(o)
    }

    open spec fn spec_layer0(&self, o: int) -> u64 {
        (**self).spec_layer0(o)
    }

    fn layer3(&self) -> u64 {
        (**self).layer3()
    }

    fn layer2(&self, i: usize) -> u64 {
        (**self).layer2(i)
    }

    fn layer1(&self, i: usize) -> u64 {
        (**self).layer1(i)
    }

    fn layer0(&self, i: usize) -> u64 {
        (**self).layer0(i)
    }

    fn contains(&self, i: Index) -> bool {
        (**self).contains(i)
    }
}

impl GenericBitSet {
    /// A set that satisfies the layer invariant is a view with complete
    /// summaries, so iterating it reaches every member.
    pub proof fn lemma_inv_complete(self)
        requires
            self.inv(),
        ensures
            summaries_complete(self),
            forall|j: int| view_contains(self, j) == self.has_index(j),
    {
        assert forall|o: int|
            0 <= o < 0x40000 implies ((#[trigger] self.spec_layer0(o)) != 0 ==> bit64(
            self.spec_layer1(o / 64),
            (o % 64) as u64,
        )) by {
            assert(self.spec_layer0(o) == self.l0(o));
        }
        assert forall|o: int|
            0 <= o < 0x1000 implies ((#[trigger] self.spec_layer1(o)) != 0 ==> bit64(
            self.spec_layer2(o / 64),
            (o % 64) as u64,
        )) by {
            assert(self.spec_layer1(o) == self.l1(o));
        }
        assert forall|o: int|
            0 <= o < 64 implies ((#[trigger] self.spec_layer2(o)) != 0 ==> bit64(
            self.spec_layer3(),
            o as u64,
        )) by {
            assert(self.spec_layer2(o) == self.l2(o));
        }
    }

}

/// A borrowed view has the same members and the same summary
/// completeness as the view it borrows.
pub proof fn lemma_ref_transfer<S: BitSetLike>(s: &S)
    ensures
        summaries_complete::<&S>(s) == summaries_complete::<S>(*s),
        forall|j: int| #[trigger] view_contains::<&S>(s, j) == view_contains::<S>(*s, j),
{
    assert forall|j: int| #[trigger] view_contains::<&S>(s, j) == view_contains::<S>(*s, j) by {
        assert(<&S as BitSetLike>::spec_layer0(&s, j / 64) == (*s).spec_layer0(j / 64));
    }
    if summaries_complete::<&S>(s) {
        assert forall|o: int|
            0 <= o < 0x40000 implies ((#[trigger] (*s).spec_layer0(o)) != 0 ==> bit64(
            (*s).spec_layer1(o / 64),
            (o % 64) as u64,
        )) by {
            assert(<&S as BitSetLike>::spec_layer0(&s, o) == (*s).spec_layer0(o));
            assert(<&S as BitSetLike>::spec_layer1(&s, o / 64) == (*s).spec_layer1(o / 64));
        }
        assert forall|o: int|
            0 <= o < 0x1000 implies ((#[trigger] (*s).spec_layer1(o)) != 0 ==> bit64(
            (*s).spec_layer2(o / 64),
            (o % 64) as u64,
        )) by {
            assert(<&S as BitSetLike>::spec_layer1(&s, o) == (*s).spec_layer1(o));
            assert(<&S as BitSetLike>::spec_layer2(&s, o / 64) == (*s).spec_layer2(o / 64));
        }
        assert forall|o: int|
            0 <= o < 64 implies ((#[trigger] (*s).spec_layer2(o)) != 0 ==> bit64(
            (*s).spec_layer3(),
            o as u64,
        )) by {
            assert(<&S as BitSetLike>::spec_layer2(&s, o) == (*s).spec_layer2(o));
            assert(<&S as BitSetLike>::spec_layer3(&s) == (*s).spec_layer3());
        }
        assert(summaries_complete::<S>(*s));
    }
    if summaries_complete::<S>(*s) {
        assert forall|o: int|
            0 <= o < 0x40000 implies ((#[trigger] <&S as BitSetLike>::spec_layer0(&s, o)) != 0
            ==> bit64(<&S as BitSetLike>::spec_layer1(&s, o / 64), (o % 64) as u64)) by {
            assert(<&S as BitSetLike>::spec_layer0(&s, o) == (*s).spec_layer0(o));
            assert(<&S as BitSetLike>::spec_layer1(&s, o / 64) == (*s).spec_layer1(o / 64));
        }
        assert forall|o: int|
            0 <= o < 0x1000 implies ((#[trigger] <&S as BitSetLike>::spec_layer1(&s, o)) != 0
            ==> bit64(<&S as BitSetLike>::spec_layer2(&s, o / 64), (o % 64) as u64)) by {
            assert(<&S as BitSetLike>::spec_layer1(&s, o) == (*s).spec_layer1(o));
            assert(<&S as BitSetLike>::spec_layer2(&s, o / 64) == (*s).spec_layer2(o / 64));
        }
        assert forall|o: int|
            0 <= o < 64 implies ((#[trigger] <&S as BitSetLike>::spec_layer2(&s, o)) != 0 ==> bit64(
            <&S as BitSetLike>::spec_layer3(&s),
            o as u64,
        )) by {
            assert(<&S as BitSetLike>::spec_layer2(&s, o) == (*s).spec_layer2(o));
            assert(<&S as BitSetLike>::spec_layer3(&s) == (*s).spec_layer3());
        }
        assert(summaries_complete::<&S>(s));
    }
}

/// Adding an index that is already present changes no membership at
/// all: the set after such an `add` has exactly the members it had.
pub proof fn law_add_idempotent(pre: GenericBitSet, post: GenericBitSet, i: int)
    requires
        pre.has_index(i),
        forall|j: int| post.has_index(j) <==> (pre.has_index(j) || j == i),
    ensures
        forall|j: int| post.has_index(j) == pre.has_index(j),
{
}

/// Iteration agrees with membership: a fresh iterator over a
/// well-formed set has exactly the indices with `contains` left to
/// emit, each of which it then yields exactly once, in ascending order.
pub proof fn law_iteration_is_membership(s: &GenericBitSet, c: BitIter<&GenericBitSet>)
    requires
        s.inv(),
        c.set == s,
        c.masks@[0] == 0,
        c.masks@[1] == 0,
        c.masks@[2] == 0,
        c.masks@[3] == s.l3(),
        c.prefix@[0] == 0,
        c.prefix@[1] == 0,
        c.prefix@[2] == 0,
    ensures
        crate::iter::cursor_inv(c),
        forall|j: int| crate::iter::in_rem(c, j) <==> s.has_index(j),
{
    (*s).lemma_inv_complete();
    lemma_ref_transfer(s);
    crate::iter::lemma_fresh_cursor(c);
    (*s).lemma_members_bounded();
    assert forall|j: int| crate::iter::in_rem(c, j) <==> s.has_index(j) by {
        assert(view_contains::<&GenericBitSet>(c.set, j) == view_contains::<GenericBitSet>(*s, j));
    }
}

impl GenericBitSet {
    /// Returns `true` if all indices of `other` are contained in this set.
    pub fn contains_set<S: BitSetLike>(&self, other: &S) -> (r: bool)
        requires
            summaries_complete::<S>(*other),
        ensures
            r == (forall|j: int|
                0 <= j < 0x1000000 && view_contains::<S>(*other, j) ==> self.has_index(j)),
    {
        proof {
            lemma_ref_transfer(other);
        }
        let mut it = other.iter();
        proof {
            crate::iter::lemma_fresh_cursor(it);
        }
        loop
            invariant
                crate::iter::cursor_inv(it),
                it.set == other,
                forall|j: int|
                    crate::iter::in_rem(it, j) ==> (0 <= j < 0x1000000 && view_contains::<S>(
                        *other,
                        j,
                    )),
                forall|j: int|
                    0 <= j < 0x1000000 && view_contains::<S>(*other, j) && !crate::iter::in_rem(
                        it,
                        j,
                    ) ==> self.has_index(j),
            decreases
                    crate::util::pc64(it.masks@[3]),
                    crate::util::pc64(it.masks@[2]),
                    crate::util::pc64(it.masks@[1]),
                    crate::util::pc64(it.masks@[0]),
        {
            match it.next() {
                Some(v) => {
                    if !self.contains(v) {
                        proof {
                            assert((v as int) < 0x1000000 && view_contains::<S>(*other, v as int)
                                && !self.has_index(v as int));
                        }
                        return false;
                    }
                },
                None => {
                    return true;
                },
            }
        }
    }

    /// Returns the bottom layer of the bit set as a read-only slice of
    /// words.  Each bit of the slice stands for a single index.
    pub fn layer0_as_slice(&self) -> (r: &[u64])
        ensures
            r@ == self.layer0@,
    {
        self.layer0.as_slice()
    }

    /// Returns the second layer of the bit set as a read-only slice of
    /// words.  Each bit summarizes one word of layer 0, so one bit
    /// covers 64 indices.
    pub fn layer1_as_slice(&self) -> (r: &[u64])
        ensures
            r@ == self.layer1@,
    {
        self.layer1.as_slice()
    }

    /// Returns the third layer of the bit set as a read-only slice of
    /// words.  Each bit summarizes one word of layer 1, so one bit
    /// covers `64 * 64` indices.
    pub fn layer2_as_slice(&self) -> (r: &[u64])
        ensures
            r@ == self.layer2@,
    {
        self.layer2.as_slice()
    }
}

impl PartialEq for GenericBitSet {
    /// Two sets are equal exactly when all four layers agree word for
    /// word, including the stored layer lengths.
    fn eq(&self, rhv: &GenericBitSet) -> (r: bool) {
        if self.layer3 != rhv.layer3 {
            return false;
        }
        if self.layer2.len() != rhv.layer2.len() || self.layer1.len() != rhv.layer1.len()
            || self.layer0.len() != rhv.layer0.len() {
            return false;
        }
        let mut i: usize = 0;
        while i < self.layer2.len()
            invariant
                i <= self.layer2@.len(),
                self.layer2@.len() == rhv.layer2@.len(),
                forall|k: int| 0 <= k < i ==> self.layer2@[k] == rhv.layer2@[k],
            decreases self.layer2@.len() - i,
        {
            if self.layer2[i] != rhv.layer2[i] {
                return false;
            }
            i = i + 1;
        }
        let mut i: usize = 0;
        while i < self.layer1.len()
            invariant
                i <= self.layer1@.len(),
                self.layer1@.len() == rhv.layer1@.len(),
                forall|k: int| 0 <= k < i ==> self.layer1@[k] == rhv.layer1@[k],
            decreases self.layer1@.len() - i,
        {
            if self.layer1[i] != rhv.layer1[i] {
                return false;
            }
            i = i + 1;
        }
        let mut i: usize = 0;
        while i < self.layer0.len()
            invariant
                i <= self.layer0@.len(),
                self.layer0@.len() == rhv.layer0@.len(),
                forall|k: int| 0 <= k < i ==> self.layer0@[k] == rhv.layer0@[k],
            decreases self.layer0@.len() - i,
        {
            if self.layer0[i] != rhv.layer0[i] {
                return false;
            }
            i = i + 1;
        }
        proof {
            assert(self.layer2@ =~= rhv.layer2@);
            assert(self.layer1@ =~= rhv.layer1@);
            assert(self.layer0@ =~= rhv.layer0@);
        }
        true
    }
}

impl vstd::std_specs::cmp::PartialEqSpecImpl for GenericBitSet {
    open spec fn obeys_eq_spec() -> bool {
        true
    }

    open spec fn eq_spec(&self, other: &GenericBitSet) -> bool {
        &&& self.layer3 == other.layer3
        &&& self.layer2@ == other.layer2@
        &&& self.layer1@ == other.layer1@
        &&& self.layer0@ == other.layer0@
    }
}

impl Eq for GenericBitSet {

}

impl Default for GenericBitSet {
    /// An empty set.
    fn default() -> (r: Self)
        ensures
            r.inv(),
            forall|j: int| !r.has_index(j),
            r.layer0@.len() == 0,
            r.layer1@.len() == 0,
            r.layer2@.len() == 0,
            r.l3() == 0,
    {
        Self::new()
    }
}

} // verus!
