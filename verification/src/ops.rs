//! Lazy set-algebra wrappers over layer views, and the in-place algebra
//! on the concrete set.
//!
//! The wrappers allocate nothing: each one computes its layer words from
//! its operands on demand, and satisfies the same layer interface, so
//! wrappers nest freely and iterate like concrete sets.

use vstd::prelude::*;

verus! {

use crate::util::{bit64, Index, lemma_bitwise_ops, lemma_bit_bounds};
use crate::{BitSetLike, DrainableBitSet, GenericBitSet, view_contains, summaries_complete,
lemma_ref_transfer};
use crate::iter::{cursor_inv, in_rem, lemma_fresh_cursor};

broadcast use vstd::seq_lib::group_seq_properties;

/// `BitSetAnd` takes two layer views and intersects their masks,
/// a new virtual set that represents the intersection of the two.
#[derive(Debug, Clone, Copy)]
pub struct BitSetAnd<A, B>(pub A, pub B);

/// `BitSetOr` takes two layer views and merges their masks,
/// a new virtual set that represents the union of the two.
#[derive(Debug, Clone, Copy)]
pub struct BitSetOr<A, B>(pub A, pub B);

/// `BitSetNot` takes a layer view and produces the inverted virtual set.
/// The upper layers of the inversion carry no information, so iterating
/// it alone walks the whole key space; it is meant to stand inside an
/// intersection, which bounds the walk.
#[derive(Debug, Clone, Copy)]
pub struct BitSetNot<A>(pub A);

/// `BitSetXor` takes two layer views and produces the virtual set of the
/// indices that lie in exactly one of the two.
#[derive(Debug, Clone, Copy)]
pub struct BitSetXor<A, B>(pub A, pub B);

/// `BitSetAll` is a virtual set with every bit set.
#[derive(Debug, Clone, Copy)]
pub struct BitSetAll {}

impl<A, B> BitSetAnd<A, B> {
    /// The intersection of the two views.
    pub fn new(a: A, b: B) -> (r: Self)
        ensures
            r.0 == a,
            r.1 == b,
    {
        BitSetAnd(a, b)
    }
}

impl<A, B> BitSetOr<A, B> {
    /// The union of the two views.
    pub fn new(a: A, b: B) -> (r: Self)
        ensures
            r.0 == a,
            r.1 == b,
    {
        BitSetOr(a, b)
    }
}

impl<A> BitSetNot<A> {
    /// The complement of the view.
    pub fn new(a: A) -> (r: Self)
        ensures
            r.0 == a,
    {
        BitSetNot(a)
    }
}

impl<A, B> BitSetXor<A, B> {
    /// The symmetric difference of the two views.
    pub fn new(a: A, b: B) -> (r: Self)
        ensures
            r.0 == a,
            r.1 == b,
    {
        BitSetXor(a, b)
    }
}

impl BitSetAll {
    /// The view that contains every index.
    pub fn new() -> (r: Self) {
        BitSetAll {  }
    }
}

impl<A: BitSetLike, B: BitSetLike> BitSetLike for BitSetAnd<A, B> {
    open spec fn spec_layer3(&self) -> u64 {
        self.0.spec_layer3() & self.1.spec_layer3()
    }

    open spec fn spec_layer2(&self, o: int) -> u64 {
        self.0.spec_layer2(o) & self.1.spec_layer2(o)
    }

    open spec fn spec_layer1(&self, o: int) -> u64 {
        self.0.spec_layer1(o) & self.1.spec_layer1(o)
    }

    open spec fn spec_layer0(&self, o: int) -> u64 {
        self.0.spec_layer0(o) & self.1.spec_layer0(o)
    }

    fn layer3(&self) -> u64 {
        self.0.layer3() & self.1.layer3()
    }

    fn layer2(&self, i: usize) -> u64 {
        self.0.layer2(i) & self.1.layer2(i)
    }

    fn layer1(&self, i: usize) -> u64 {
        self.0.layer1(i) & self.1.layer1(i)
    }

    fn layer0(&self, i: usize) -> u64 {
        self.0.layer0(i) & self.1.layer0(i)
    }

    fn contains(&self, i: Index) -> (r: bool)
    {
        proof {
            lemma_bitwise_ops(
                self.0.spec_layer0(i as int / 64),
                self.1.spec_layer0(i as int / 64),
            );
        }
        self.0.contains(i) && self.1.contains(i)
    }
}

impl<A: BitSetLike, B: BitSetLike> BitSetLike for BitSetOr<A, B> {
    open spec fn spec_layer3(&self) -> u64 {
        self.0.spec_layer3() | self.1.spec_layer3()
    }

    open spec fn spec_layer2(&self, o: int) -> u64 {
        self.0.spec_layer2(o) | self.1.spec_layer2(o)
    }

    open spec fn spec_layer1(&self, o: int) -> u64 {
        self.0.spec_layer1(o) | self.1.spec_layer1(o)
    }

    open spec fn spec_layer0(&self, o: int) -> u64 {
        self.0.spec_layer0(o) | self.1.spec_layer0(o)
    }

    fn layer3(&self) -> u64 {
        self.0.layer3() | self.1.layer3()
    }

    fn layer2(&self, i: usize) -> u64 {
        self.0.layer2(i) | self.1.layer2(i)
    }

    fn layer1(&self, i: usize) -> u64 {
        self.0.layer1(i) | self.1.layer1(i)
    }

    fn layer0(&self, i: usize) -> u64 {
        self.0.layer0(i) | self.1.layer0(i)
    }

    fn contains(&self, i: Index) -> (r: bool)
    {
        proof {
            lemma_bitwise_ops(
                self.0.spec_layer0(i as int / 64),
                self.1.spec_layer0(i as int / 64),
            );
        }
        self.0.contains(i) || self.1.contains(i)
    }
}

impl<A: BitSetLike> BitSetLike for BitSetNot<A> {
    open spec fn spec_layer3(&self) -> u64 {
        0xffff_ffff_ffff_ffffu64
    }

    open spec fn spec_layer2(&self, o: int) -> u64 {
        0xffff_ffff_ffff_ffffu64
    }

    open spec fn spec_layer1(&self, o: int) -> u64 {
        0xffff_ffff_ffff_ffffu64
    }

    open spec fn spec_layer0(&self, o: int) -> u64 {
        !self.0.spec_layer0(o)
    }

    fn layer3(&self) -> u64 {
        0xffff_ffff_ffff_ffffu64
    }

    fn layer2(&self, _i: usize) -> u64 {
        0xffff_ffff_ffff_ffffu64
    }

    fn layer1(&self, _i: usize) -> u64 {
        0xffff_ffff_ffff_ffffu64
    }

    fn layer0(&self, i: usize) -> u64 {
        !self.0.layer0(i)
    }

    fn contains(&self, i: Index) -> (r: bool)
    {
        proof {
            lemma_bitwise_ops(self.0.spec_layer0(i as int / 64), 0u64);
        }
        !self.0.contains(i)
    }
}

impl<A: BitSetLike, B: BitSetLike> BitSetLike for BitSetXor<A, B> {
    open spec fn spec_layer3(&self) -> u64 {
        self.0.spec_layer3() | self.1.spec_layer3()
    }

    open spec fn spec_layer2(&self, o: int) -> u64 {
        self.0.spec_layer2(o) | self.1.spec_layer2(o)
    }

    open spec fn spec_layer1(&self, o: int) -> u64 {
        self.0.spec_layer1(o) | self.1.spec_layer1(o)
    }

    open spec fn spec_layer0(&self, o: int) -> u64 {
        self.0.spec_layer0(o) ^ self.1.spec_layer0(o)
    }

    fn layer3(&self) -> u64 {
        self.0.layer3() | self.1.layer3()
    }

    fn layer2(&self, i: usize) -> u64 {
        self.0.layer2(i) | self.1.layer2(i)
    }

    fn layer1(&self, i: usize) -> u64 {
        self.0.layer1(i) | self.1.layer1(i)
    }

    fn layer0(&self, i: usize) -> (r: u64)
    {
        let a = self.0.layer0(i);
        let b = self.1.layer0(i);
        proof {
            lemma_bitwise_ops(a, b);
        }
        (a | b) & !(a & b)
    }

    fn contains(&self, i: Index) -> (r: bool)
    {
        proof {
            lemma_bitwise_ops(
                self.0.spec_layer0(i as int / 64),
                self.1.spec_layer0(i as int / 64),
            );
        }
        self.0.contains(i) != self.1.contains(i)
    }
}

impl BitSetLike for BitSetAll {
    open spec fn spec_layer3(&self) -> u64 {
        0xffff_ffff_ffff_ffffu64
    }

    open spec fn spec_layer2(&self, o: int) -> u64 {
        0xffff_ffff_ffff_ffffu64
    }

    open spec fn spec_layer1(&self, o: int) -> u64 {
        0xffff_ffff_ffff_ffffu64
    }

    open spec fn spec_layer0(&self, o: int) -> u64 {
        0xffff_ffff_ffff_ffffu64
    }

    fn layer3(&self) -> u64 {
        0xffff_ffff_ffff_ffffu64
    }

    fn layer2(&self, _i: usize) -> u64 {
        0xffff_ffff_ffff_ffffu64
    }

    fn layer1(&self, _i: usize) -> u64 {
        0xffff_ffff_ffff_ffffu64
    }

    fn layer0(&self, _i: usize) -> u64 {
        0xffff_ffff_ffff_ffffu64
    }

    fn contains(&self, _i: Index) -> (r: bool)
    {
        proof {
            lemma_bitwise_ops(0u64, 0u64);
        }
        true
    }
}

impl<A: DrainableBitSet, B: DrainableBitSet> DrainableBitSet for BitSetAnd<A, B> {
    open spec fn drain_wf(&self) -> bool {
        self.0.drain_wf() && self.1.drain_wf()
    }

    fn drain(&mut self) -> (r: crate::iter::drain::DrainBitIter) {
        proof {
            assert(summaries_complete::<BitSetAnd<A, B>>(*self));
        }
        let items = crate::iter::drain::collect_indices(&*self);
        let mut k: usize = 0;
        proof {
            assert(items@.subrange(0, 0) =~= Seq::<u32>::empty());
        }
        while k < items.len()
            invariant
                self.drain_wf(),
                k <= items@.len(),
                forall|kk: int| 0 <= kk < items@.len() ==> 0 <= (#[trigger] items@[kk]) < 0x1000000,
                forall|j: int|
                    0 <= j < 0x1000000 ==> ((#[trigger] view_contains::<BitSetAnd<A, B>>(*old(self), j))
                        <==> items@.contains(j as u32)),
                forall|o: int, b: u64|
                    0 <= o < 0x40000 && b < 64 ==> ((#[trigger] bit64(self.spec_layer0(o), b))
                        <==> (bit64(old(self).spec_layer0(o), b) && !items@.subrange(
                        0,
                        k as int,
                    ).contains((o * 64 + b) as u32))),
                forall|o: int, b: u64|
                    o >= 0x40000 && b < 64 ==> (#[trigger] bit64(self.spec_layer0(o), b)) == bit64(
                        old(self).spec_layer0(o),
                        b,
                    ),
            decreases items@.len() - k,
        {
            let v = items[k];
            let ghost head = *self;
            let ghost prefix_seq = items@.subrange(0, k as int);
            let present = self.contains(v);
            if present {
                self.0.remove(v);
                self.1.remove(v);
            }
            k = k + 1;
            proof {
                assert(items@.subrange(0, k as int) =~= prefix_seq.push(items@[k - 1]));
                crate::iter::lemma_mul_div(v as int / 64, v as int % 64, 64);
                assert forall|o: int, b: u64|
                    0 <= o < 0x40000 && b < 64 implies ((bit64(self.spec_layer0(o), b)) <==> (
                bit64(old(self).spec_layer0(o), b) && !items@.subrange(0, k as int).contains((o
                    * 64 + b) as u32))) by {
                    crate::iter::lemma_mul_div(o, b as int, 64);
                    lemma_bitwise_ops(self.0.spec_layer0(o), self.1.spec_layer0(o));
                    lemma_bitwise_ops(head.0.spec_layer0(o), head.1.spec_layer0(o));
                    if present {
                        assert(bit64(self.0.spec_layer0(o), b) <==> (bit64(
                            head.0.spec_layer0(o),
                            b,
                        ) && o * 64 + b != v as int));
                        assert(bit64(self.1.spec_layer0(o), b) <==> (bit64(
                            head.1.spec_layer0(o),
                            b,
                        ) && o * 64 + b != v as int));
                    } else {
                        if o * 64 + b == v as int {
                            assert(o == v as int / 64 && b as int == v as int % 64);
                            assert(!bit64(head.spec_layer0(o), b));
                        }
                    }
                    assert(bit64(head.spec_layer0(o), b) == (bit64(old(self).spec_layer0(o), b)
                        && !prefix_seq.contains((o * 64 + b) as u32)));
                    assert(((o * 64 + b) as u32 == v) == (o * 64 + b == v as int));
                    assert(items@.subrange(0, k as int).contains((o * 64 + b) as u32) == (
                    prefix_seq.contains((o * 64 + b) as u32) || o * 64 + b == v as int));
                }
                assert forall|o: int, b: u64|
                    o >= 0x40000 && b < 64 implies (bit64(self.spec_layer0(o), b)) == bit64(
                    old(self).spec_layer0(o),
                    b,
                ) by {
                    lemma_bitwise_ops(self.0.spec_layer0(o), self.1.spec_layer0(o));
                    lemma_bitwise_ops(head.0.spec_layer0(o), head.1.spec_layer0(o));
                    assert(bit64(head.spec_layer0(o), b) == bit64(old(self).spec_layer0(o), b));
                    if present {
                        assert(bit64(self.0.spec_layer0(o), b) <==> (bit64(
                            head.0.spec_layer0(o),
                            b,
                        ) && o * 64 + b != v as int));
                        assert(bit64(self.1.spec_layer0(o), b) <==> (bit64(
                            head.1.spec_layer0(o),
                            b,
                        ) && o * 64 + b != v as int));
                    }
                }
            }
        }
        proof {
            assert(items@.subrange(0, items@.len() as int) =~= items@);
            assert forall|o: int, b: u64|
                0 <= o < 0x40000 && b < 64 implies ((bit64(old(self).spec_layer0(o), b))
                <==> items@.contains((o * 64 + b) as u32)) by {
                crate::iter::lemma_mul_div(o, b as int, 64);
                assert(view_contains::<BitSetAnd<A, B>>(*old(self), o * 64 + b) == bit64(
                    old(self).spec_layer0(o),
                    b,
                ));
            }
            assert forall|o: int, b: u64|
                0 <= o < 0x40000 && b < 64 implies !(bit64(self.spec_layer0(o), b)) by {
                crate::iter::lemma_mul_div(o, b as int, 64);
                if bit64(old(self).spec_layer0(o), b) {
                    assert(view_contains::<BitSetAnd<A, B>>(*old(self), o * 64 + b));
                    assert(items@.contains((o * 64 + b) as u32));
                }
            }
        }
        crate::iter::drain::DrainBitIter { items, pos: 0 }
    }

    fn remove(&mut self, i: Index) -> (r: bool) {
        let present = self.contains(i);
        if present {
            self.0.remove(i);
            self.1.remove(i);
            proof {
                assert forall|o: int, b: u64|
                    0 <= o && b < 64 implies ((bit64(self.spec_layer0(o), b)) <==> (bit64(
                    old(self).spec_layer0(o),
                    b,
                ) && o * 64 + b != i as int)) by {
                    assert(bit64(self.0.spec_layer0(o), b) <==> (bit64(
                        old(self).0.spec_layer0(o),
                        b,
                    ) && o * 64 + b != i as int));
                    assert(bit64(self.1.spec_layer0(o), b) <==> (bit64(
                        old(self).1.spec_layer0(o),
                        b,
                    ) && o * 64 + b != i as int));
                    lemma_bitwise_ops(self.0.spec_layer0(o), self.1.spec_layer0(o));
                    lemma_bitwise_ops(old(self).0.spec_layer0(o), old(self).1.spec_layer0(o));
                }
            }
            true
        } else {
            proof {
                crate::iter::lemma_mul_div(i as int / 64, i as int % 64, 64);
                assert forall|o: int, b: u64|
                    0 <= o && b < 64 implies ((bit64(self.spec_layer0(o), b)) <==> (bit64(
                    old(self).spec_layer0(o),
                    b,
                ) && o * 64 + b != i as int)) by {
                    lemma_bitwise_ops(self.0.spec_layer0(o), self.1.spec_layer0(o));
                    if o * 64 + b == i as int {
                        crate::iter::lemma_mul_div(o, b as int, 64);
                        assert(o == i as int / 64 && b as int == i as int % 64);
                        assert(!bit64(self.spec_layer0(o), b));
                    }
                }
            }
            false
        }
    }
}

impl<A: DrainableBitSet, B: DrainableBitSet> DrainableBitSet for BitSetOr<A, B> {
    open spec fn drain_wf(&self) -> bool {
        self.0.drain_wf() && self.1.drain_wf()
    }

    fn drain(&mut self) -> (r: crate::iter::drain::DrainBitIter) {
        proof {
            assert(summaries_complete::<BitSetOr<A, B>>(*self));
        }
        let items = crate::iter::drain::collect_indices(&*self);
        let mut k: usize = 0;
        proof {
            assert(items@.subrange(0, 0) =~= Seq::<u32>::empty());
        }
        while k < items.len()
            invariant
                self.drain_wf(),
                k <= items@.len(),
                forall|kk: int| 0 <= kk < items@.len() ==> 0 <= (#[trigger] items@[kk]) < 0x1000000,
                forall|j: int|
                    0 <= j < 0x1000000 ==> ((#[trigger] view_contains::<BitSetOr<A, B>>(*old(self), j))
                        <==> items@.contains(j as u32)),
                forall|o: int, b: u64|
                    0 <= o < 0x40000 && b < 64 ==> ((#[trigger] bit64(self.spec_layer0(o), b))
                        <==> (bit64(old(self).spec_layer0(o), b) && !items@.subrange(
                        0,
                        k as int,
                    ).contains((o * 64 + b) as u32))),
                forall|o: int, b: u64|
                    o >= 0x40000 && b < 64 ==> (#[trigger] bit64(self.spec_layer0(o), b)) == bit64(
                        old(self).spec_layer0(o),
                        b,
                    ),
            decreases items@.len() - k,
        {
            let v = items[k];
            let ghost head = *self;
            let ghost prefix_seq = items@.subrange(0, k as int);
            let present = self.contains(v);
            if present {
                self.0.remove(v);
                self.1.remove(v);
            }
            k = k + 1;
            proof {
                assert(items@.subrange(0, k as int) =~= prefix_seq.push(items@[k - 1]));
                crate::iter::lemma_mul_div(v as int / 64, v as int % 64, 64);
                assert forall|o: int, b: u64|
                    0 <= o < 0x40000 && b < 64 implies ((bit64(self.spec_layer0(o), b)) <==> (
                bit64(old(self).spec_layer0(o), b) && !items@.subrange(0, k as int).contains((o
                    * 64 + b) as u32))) by {
                    crate::iter::lemma_mul_div(o, b as int, 64);
                    lemma_bitwise_ops(self.0.spec_layer0(o), self.1.spec_layer0(o));
                    lemma_bitwise_ops(head.0.spec_layer0(o), head.1.spec_layer0(o));
                    if present {
                        assert(bit64(self.0.spec_layer0(o), b) <==> (bit64(
                            head.0.spec_layer0(o),
                            b,
                        ) && o * 64 + b != v as int));
                        assert(bit64(self.1.spec_layer0(o), b) <==> (bit64(
                            head.1.spec_layer0(o),
                            b,
                        ) && o * 64 + b != v as int));
                    } else {
                        if o * 64 + b == v as int {
                            assert(o == v as int / 64 && b as int == v as int % 64);
                            assert(!bit64(head.spec_layer0(o), b));
                        }
                    }
                    assert(bit64(head.spec_layer0(o), b) == (bit64(old(self).spec_layer0(o), b)
                        && !prefix_seq.contains((o * 64 + b) as u32)));
                    assert(((o * 64 + b) as u32 == v) == (o * 64 + b == v as int));
                    assert(items@.subrange(0, k as int).contains((o * 64 + b) as u32) == (
                    prefix_seq.contains((o * 64 + b) as u32) || o * 64 + b == v as int));
                }
                assert forall|o: int, b: u64|
                    o >= 0x40000 && b < 64 implies (bit64(self.spec_layer0(o), b)) == bit64(
                    old(self).spec_layer0(o),
                    b,
                ) by {
                    lemma_bitwise_ops(self.0.spec_layer0(o), self.1.spec_layer0(o));
                    lemma_bitwise_ops(head.0.spec_layer0(o), head.1.spec_layer0(o));
                    assert(bit64(head.spec_layer0(o), b) == bit64(old(self).spec_layer0(o), b));
                    if present {
                        assert(bit64(self.0.spec_layer0(o), b) <==> (bit64(
                            head.0.spec_layer0(o),
                            b,
                        ) && o * 64 + b != v as int));
                        assert(bit64(self.1.spec_layer0(o), b) <==> (bit64(
                            head.1.spec_layer0(o),
                            b,
                        ) && o * 64 + b != v as int));
                    }
                }
            }
        }
        proof {
            assert(items@.subrange(0, items@.len() as int) =~= items@);
            assert forall|o: int, b: u64|
                0 <= o < 0x40000 && b < 64 implies ((bit64(old(self).spec_layer0(o), b))
                <==> items@.contains((o * 64 + b) as u32)) by {
                crate::iter::lemma_mul_div(o, b as int, 64);
                assert(view_contains::<BitSetOr<A, B>>(*old(self), o * 64 + b) == bit64(
                    old(self).spec_layer0(o),
                    b,
                ));
            }
            assert forall|o: int, b: u64|
                0 <= o < 0x40000 && b < 64 implies !(bit64(self.spec_layer0(o), b)) by {
                crate::iter::lemma_mul_div(o, b as int, 64);
                if bit64(old(self).spec_layer0(o), b) {
                    assert(view_contains::<BitSetOr<A, B>>(*old(self), o * 64 + b));
                    assert(items@.contains((o * 64 + b) as u32));
                }
            }
        }
        crate::iter::drain::DrainBitIter { items, pos: 0 }
    }

    fn remove(&mut self, i: Index) -> (r: bool) {
        let present = self.contains(i);
        if present {
            self.0.remove(i);
            self.1.remove(i);
            proof {
                assert forall|o: int, b: u64|
                    0 <= o && b < 64 implies ((bit64(self.spec_layer0(o), b)) <==> (bit64(
                    old(self).spec_layer0(o),
                    b,
                ) && o * 64 + b != i as int)) by {
                    assert(bit64(self.0.spec_layer0(o), b) <==> (bit64(
                        old(self).0.spec_layer0(o),
                        b,
                    ) && o * 64 + b != i as int));
                    assert(bit64(self.1.spec_layer0(o), b) <==> (bit64(
                        old(self).1.spec_layer0(o),
                        b,
                    ) && o * 64 + b != i as int));
                    lemma_bitwise_ops(self.0.spec_layer0(o), self.1.spec_layer0(o));
                    lemma_bitwise_ops(old(self).0.spec_layer0(o), old(self).1.spec_layer0(o));
                }
            }
            true
        } else {
            proof {
                crate::iter::lemma_mul_div(i as int / 64, i as int % 64, 64);
                assert forall|o: int, b: u64|
                    0 <= o && b < 64 implies ((bit64(self.spec_layer0(o), b)) <==> (bit64(
                    old(self).spec_layer0(o),
                    b,
                ) && o * 64 + b != i as int)) by {
                    lemma_bitwise_ops(self.0.spec_layer0(o), self.1.spec_layer0(o));
                    if o * 64 + b == i as int {
                        crate::iter::lemma_mul_div(o, b as int, 64);
                        assert(o == i as int / 64 && b as int == i as int % 64);
                        assert(!bit64(self.spec_layer0(o), b));
                    }
                }
            }
            false
        }
    }
}

/// Intersecting two views with complete summaries gives a view with
/// complete summaries.
pub proof fn lemma_and_complete<A: BitSetLike, B: BitSetLike>(s: BitSetAnd<A, B>)
    requires
        summaries_complete(s.0),
        summaries_complete(s.1),
    ensures
        summaries_complete(s),
{
    assert forall|o: int|
        0 <= o < 0x40000 implies ((#[trigger] s.spec_layer0(o)) != 0 ==> bit64(
        s.spec_layer1(o / 64),
        (o % 64) as u64,
    )) by {
        if s.spec_layer0(o) != 0 {
            crate::util::lemma_nonzero_has_bit(s.spec_layer0(o));
            lemma_bitwise_ops(s.0.spec_layer0(o), s.1.spec_layer0(o));
            lemma_bit_bounds(s.0.spec_layer0(o));
            lemma_bit_bounds(s.1.spec_layer0(o));
            lemma_bitwise_ops(s.0.spec_layer1(o / 64), s.1.spec_layer1(o / 64));
        }
    }
    assert forall|o: int|
        0 <= o < 0x1000 implies ((#[trigger] s.spec_layer1(o)) != 0 ==> bit64(
        s.spec_layer2(o / 64),
        (o % 64) as u64,
    )) by {
        if s.spec_layer1(o) != 0 {
            crate::util::lemma_nonzero_has_bit(s.spec_layer1(o));
            lemma_bitwise_ops(s.0.spec_layer1(o), s.1.spec_layer1(o));
            lemma_bit_bounds(s.0.spec_layer1(o));
            lemma_bit_bounds(s.1.spec_layer1(o));
            lemma_bitwise_ops(s.0.spec_layer2(o / 64), s.1.spec_layer2(o / 64));
        }
    }
    assert forall|o: int|
        0 <= o < 64 implies ((#[trigger] s.spec_layer2(o)) != 0 ==> bit64(
        s.spec_layer3(),
        o as u64,
    )) by {
        if s.spec_layer2(o) != 0 {
            crate::util::lemma_nonzero_has_bit(s.spec_layer2(o));
            lemma_bitwise_ops(s.0.spec_layer2(o), s.1.spec_layer2(o));
            lemma_bit_bounds(s.0.spec_layer2(o));
            lemma_bit_bounds(s.1.spec_layer2(o));
            lemma_bitwise_ops(s.0.spec_layer3(), s.1.spec_layer3());
        }
    }
}

/// Joining two views with complete summaries gives a view with
/// complete summaries.
pub proof fn lemma_or_complete<A: BitSetLike, B: BitSetLike>(s: BitSetOr<A, B>)
    requires
        summaries_complete(s.0),
        summaries_complete(s.1),
    ensures
        summaries_complete(s),
{
    assert forall|o: int|
        0 <= o < 0x40000 implies ((#[trigger] s.spec_layer0(o)) != 0 ==> bit64(
        s.spec_layer1(o / 64),
        (o % 64) as u64,
    )) by {
        if s.spec_layer0(o) != 0 {
            crate::util::lemma_nonzero_has_bit(s.spec_layer0(o));
            lemma_bitwise_ops(s.0.spec_layer0(o), s.1.spec_layer0(o));
            lemma_bit_bounds(s.0.spec_layer0(o));
            lemma_bit_bounds(s.1.spec_layer0(o));
            lemma_bitwise_ops(s.0.spec_layer1(o / 64), s.1.spec_layer1(o / 64));
        }
    }
    assert forall|o: int|
        0 <= o < 0x1000 implies ((#[trigger] s.spec_layer1(o)) != 0 ==> bit64(
        s.spec_layer2(o / 64),
        (o % 64) as u64,
    )) by {
        if s.spec_layer1(o) != 0 {
            crate::util::lemma_nonzero_has_bit(s.spec_layer1(o));
            lemma_bitwise_ops(s.0.spec_layer1(o), s.1.spec_layer1(o));
            lemma_bit_bounds(s.0.spec_layer1(o));
            lemma_bit_bounds(s.1.spec_layer1(o));
            lemma_bitwise_ops(s.0.spec_layer2(o / 64), s.1.spec_layer2(o / 64));
        }
    }
    assert forall|o: int|
        0 <= o < 64 implies ((#[trigger] s.spec_layer2(o)) != 0 ==> bit64(
        s.spec_layer3(),
        o as u64,
    )) by {
        if s.spec_layer2(o) != 0 {
            crate::util::lemma_nonzero_has_bit(s.spec_layer2(o));
            lemma_bitwise_ops(s.0.spec_layer2(o), s.1.spec_layer2(o));
            lemma_bit_bounds(s.0.spec_layer2(o));
            lemma_bit_bounds(s.1.spec_layer2(o));
            lemma_bitwise_ops(s.0.spec_layer3(), s.1.spec_layer3());
        }
    }
}

/// The symmetric difference of two views with complete summaries is a
/// view with complete summaries.
pub proof fn lemma_xor_complete<A: BitSetLike, B: BitSetLike>(s: BitSetXor<A, B>)
    requires
        summaries_complete(s.0),
        summaries_complete(s.1),
    ensures
        summaries_complete(s),
{
    assert forall|o: int|
        0 <= o < 0x40000 implies ((#[trigger] s.spec_layer0(o)) != 0 ==> bit64(
        s.spec_layer1(o / 64),
        (o % 64) as u64,
    )) by {
        if s.spec_layer0(o) != 0 {
            crate::util::lemma_nonzero_has_bit(s.spec_layer0(o));
            lemma_bitwise_ops(s.0.spec_layer0(o), s.1.spec_layer0(o));
            lemma_bit_bounds(s.0.spec_layer0(o));
            lemma_bit_bounds(s.1.spec_layer0(o));
            lemma_bitwise_ops(s.0.spec_layer1(o / 64), s.1.spec_layer1(o / 64));
        }
    }
    assert forall|o: int|
        0 <= o < 0x1000 implies ((#[trigger] s.spec_layer1(o)) != 0 ==> bit64(
        s.spec_layer2(o / 64),
        (o % 64) as u64,
    )) by {
        if s.spec_layer1(o) != 0 {
            crate::util::lemma_nonzero_has_bit(s.spec_layer1(o));
            lemma_bitwise_ops(s.0.spec_layer1(o), s.1.spec_layer1(o));
            lemma_bit_bounds(s.0.spec_layer1(o));
            lemma_bit_bounds(s.1.spec_layer1(o));
            lemma_bitwise_ops(s.0.spec_layer2(o / 64), s.1.spec_layer2(o / 64));
        }
    }
    assert forall|o: int|
        0 <= o < 64 implies ((#[trigger] s.spec_layer2(o)) != 0 ==> bit64(
        s.spec_layer3(),
        o as u64,
    )) by {
        if s.spec_layer2(o) != 0 {
            crate::util::lemma_nonzero_has_bit(s.spec_layer2(o));
            lemma_bitwise_ops(s.0.spec_layer2(o), s.1.spec_layer2(o));
            lemma_bit_bounds(s.0.spec_layer2(o));
            lemma_bit_bounds(s.1.spec_layer2(o));
            lemma_bitwise_ops(s.0.spec_layer3(), s.1.spec_layer3());
        }
    }
}

/// An inverted view has complete summaries: its upper layers claim
/// everything.
pub proof fn lemma_not_complete<A: BitSetLike>(s: BitSetNot<A>)
    ensures
        summaries_complete(s),
{
    lemma_bitwise_ops(0u64, 0u64);
}

/// The all-ones view has complete summaries.
pub proof fn lemma_all_complete(s: BitSetAll)
    ensures
        summaries_complete(s),
{
    lemma_bitwise_ops(0u64, 0u64);
}

/// Intersection is commutative, elementwise over indices.
pub proof fn law_and_commutes<A: BitSetLike, B: BitSetLike>(a: A, b: B)
    ensures
        forall|i: int|
            #[trigger] view_contains(BitSetAnd(a, b), i) == view_contains(BitSetAnd(b, a), i),
{
    assert forall|i: int|
        #[trigger] view_contains(BitSetAnd(a, b), i) == view_contains(BitSetAnd(b, a), i) by {
        lemma_bitwise_ops(a.spec_layer0(i / 64), b.spec_layer0(i / 64));
    }
}

/// Union is commutative, elementwise over indices.
pub proof fn law_or_commutes<A: BitSetLike, B: BitSetLike>(a: A, b: B)
    ensures
        forall|i: int|
            #[trigger] view_contains(BitSetOr(a, b), i) == view_contains(BitSetOr(b, a), i),
{
    assert forall|i: int|
        #[trigger] view_contains(BitSetOr(a, b), i) == view_contains(BitSetOr(b, a), i) by {
        lemma_bitwise_ops(a.spec_layer0(i / 64), b.spec_layer0(i / 64));
    }
}

/// Symmetric difference is commutative, elementwise over indices.
pub proof fn law_xor_commutes<A: BitSetLike, B: BitSetLike>(a: A, b: B)
    ensures
        forall|i: int|
            #[trigger] view_contains(BitSetXor(a, b), i) == view_contains(BitSetXor(b, a), i),
{
    assert forall|i: int|
        #[trigger] view_contains(BitSetXor(a, b), i) == view_contains(BitSetXor(b, a), i) by {
        lemma_bitwise_ops(a.spec_layer0(i / 64), b.spec_layer0(i / 64));
    }
}

/// De Morgan restricted to intersection: the complement of an
/// intersection includes the union of the complements, in index terms.
pub proof fn law_de_morgan_and<A: BitSetLike, B: BitSetLike>(a: A, b: B)
    ensures
        forall|i: int|
            #[trigger] view_contains(BitSetOr(BitSetNot(a), BitSetNot(b)), i) ==> view_contains(
                BitSetNot(BitSetAnd(a, b)),
                i,
            ),
{
    assert forall|i: int|
        #[trigger] view_contains(BitSetOr(BitSetNot(a), BitSetNot(b)), i) implies view_contains(
        BitSetNot(BitSetAnd(a, b)),
        i,
    ) by {
        lemma_bitwise_ops(a.spec_layer0(i / 64), b.spec_layer0(i / 64));
        lemma_bitwise_ops(!a.spec_layer0(i / 64), !b.spec_layer0(i / 64));
    }
}

impl GenericBitSet {
    /// `self |= other`: adds every member of `other` to `self`, walking
    /// `other` hierarchically so empty regions cost nothing.
    ///
    /// Afterwards the members of `self` are exactly the union of the old
    /// members and the members of `other`, and the layer invariant holds.
    pub fn bitor_assign<B: BitSetLike>(&mut self, other: &B)
        requires
            old(self).inv(),
            summaries_complete::<B>(*other),
        ensures
            final(self).inv(),
            forall|j: int|
                final(self).has_index(j) <==> (old(self).has_index(j) || (0 <= j < 0x1000000
                    && view_contains::<B>(*other, j))),
            (forall|j: int|
                0 <= j < 0x1000000 && view_contains::<B>(*other, j) ==> old(self).has_index(j))
                ==> *final(self) == *old(self),
    {
        proof {
            lemma_ref_transfer(other);
        }
        let mut it = other.iter();
        proof {
            lemma_fresh_cursor(it);
        }
        loop
            invariant
                self.inv(),
                cursor_inv(it),
                it.set == other,
                forall|j: int|
                    in_rem(it, j) ==> (0 <= j < 0x1000000 && view_contains::<B>(*other, j)),
                forall|j: int|
                    self.has_index(j) <==> (old(self).has_index(j) || (0 <= j < 0x1000000
                        && view_contains::<B>(*other, j) && !in_rem(it, j))),
                (forall|j: int|
                    0 <= j < 0x1000000 && view_contains::<B>(*other, j) ==> old(self).has_index(
                        j,
                    )) ==> *self == *old(self),
            decreases
                    crate::util::pc64(it.masks@[3]),
                    crate::util::pc64(it.masks@[2]),
                    crate::util::pc64(it.masks@[1]),
                    crate::util::pc64(it.masks@[0]),
        {
            match it.next() {
                Some(v) => {
                    let ghost at_head = *self;
                    self.add(v);
                    proof {
                        // an operand inside the set adds nothing back
                        if forall|j: int|
                            0 <= j < 0x1000000 && view_contains::<B>(*other, j) ==> old(
                                self,
                            ).has_index(j) {
                            assert(view_contains::<B>(*other, v as int));
                            assert(at_head.has_index(v as int));
                        }
                    }
                },
                None => {
                    return ;
                },
            }
        }
    }

    /// `self ^= other`: flips the membership of every member of `other`.
    ///
    /// Afterwards an index is a member of `self` exactly when it was a
    /// member of exactly one of the old `self` and `other`.
    pub fn bitxor_assign<B: BitSetLike>(&mut self, other: &B)
        requires
            old(self).inv(),
            summaries_complete::<B>(*other),
        ensures
            final(self).inv(),
            forall|j: int|
                final(self).has_index(j) <==> (old(self).has_index(j) != (0 <= j < 0x1000000
                    && view_contains::<B>(*other, j))),
    {
        proof {
            lemma_ref_transfer(other);
        }
        let mut it = other.iter();
        proof {
            lemma_fresh_cursor(it);
        }
        loop
            invariant
                self.inv(),
                cursor_inv(it),
                it.set == other,
                forall|j: int|
                    in_rem(it, j) ==> (0 <= j < 0x1000000 && view_contains::<B>(*other, j)),
                forall|j: int|
                    self.has_index(j) <==> (old(self).has_index(j) != (0 <= j < 0x1000000
                        && view_contains::<B>(*other, j) && !in_rem(it, j))),
            decreases
                    crate::util::pc64(it.masks@[3]),
                    crate::util::pc64(it.masks@[2]),
                    crate::util::pc64(it.masks@[1]),
                    crate::util::pc64(it.masks@[0]),
        {
            match it.next() {
                Some(v) => {
                    if self.contains(v) {
                        self.remove(v);
                    } else {
                        self.add(v);
                    }
                },
                None => {
                    return ;
                },
            }
        }
    }

    /// The members of the set, as a vector in ascending order.
    fn to_index_vec(&self) -> (r: Vec<u32>)
        requires
            self.inv(),
        ensures
            forall|k1: int, k2: int| 0 <= k1 < k2 < r@.len() ==> r@[k1] < r@[k2],
            forall|k: int| 0 <= k < r@.len() ==> self.has_index(#[trigger] r@[k] as int),
            forall|j: int| #[trigger] self.has_index(j) ==> r@.contains(j as u32),
    {
        proof {
            self.lemma_inv_complete();
            crate::lemma_ref_transfer(&*self);
            self.lemma_members_bounded();
        }
        let mut items: Vec<u32> = Vec::new();
        let mut it = self.iter();
        proof {
            lemma_fresh_cursor(it);
        }
        loop
            invariant
                self.inv(),
                cursor_inv(it),
                it.set == self,
                forall|k1: int, k2: int| 0 <= k1 < k2 < items@.len() ==> items@[k1] < items@[k2],
                forall|k: int|
                    0 <= k < items@.len() ==> self.has_index(#[trigger] items@[k] as int),
                forall|k: int, j: int|
                    0 <= k < items@.len() && in_rem(it, j) ==> items@[k] < j,
                forall|j: int|
                    0 <= j < 0x1000000 ==> (self.has_index(j) <==> (items@.contains(j as u32)
                        || in_rem(it, j))),
            decreases
                    crate::util::pc64(it.masks@[3]),
                    crate::util::pc64(it.masks@[2]),
                    crate::util::pc64(it.masks@[1]),
                    crate::util::pc64(it.masks@[0]),
        {
            let ghost pre_items = items@;
            match it.next() {
                Some(v) => {
                    items.push(v);
                    proof {
                        assert forall|j: int|
                            0 <= j < 0x1000000 && self.has_index(j) implies (items@.contains(
                            j as u32,
                        ) || in_rem(it, j)) by {
                            if pre_items.contains(j as u32) {
                                let k = choose|k: int|
                                    0 <= k < pre_items.len() && pre_items[k] == j as u32;
                                assert(items@[k] == j as u32);
                            } else if j == v as int {
                                assert(items@[items@.len() - 1] == v);
                            }
                        }
                        assert forall|j: int|
                            items@.contains(j as u32) && 0 <= j < 0x1000000 implies self.has_index(
                            j,
                        ) by {
                            let k = choose|k: int|
                                0 <= k < items@.len() && items@[k] == j as u32;
                            if k < items@.len() - 1 {
                                assert(pre_items[k] == j as u32);
                            }
                        }
                    }
                },
                None => {
                    proof {
                        self.lemma_members_bounded();
                        assert forall|j: int| #[trigger]
                            self.has_index(j) implies items@.contains(j as u32) by {
                            assert(0 <= j < 0x1000000);
                        }
                    }
                    return items;
                },
            }
        }
    }

    /// `self &= other`: keeps only the members that `other` also has.
    ///
    /// Afterwards the members of `self` are exactly the intersection of
    /// the old members with the members of `other`.
    pub fn bitand_assign<B: BitSetLike>(&mut self, other: &B)
        requires
            old(self).inv(),
        ensures
            final(self).inv(),
            forall|j: int|
                final(self).has_index(j) <==> (old(self).has_index(j) && view_contains::<B>(
                    *other,
                    j,
                )),
            (forall|j: int| old(self).has_index(j) ==> view_contains::<B>(*other, j))
                ==> *final(self) == *old(self),
    {
        let items = self.to_index_vec();
        let mut k: usize = 0;
        proof {
            self.lemma_members_bounded();
            assert(items@.subrange(0, 0) =~= Seq::<u32>::empty());
        }
        while k < items.len()
            invariant
                self.inv(),
                k <= items@.len(),
                forall|kk: int|
                    0 <= kk < items@.len() ==> old(self).has_index(#[trigger] items@[kk] as int),
                forall|j: int| #[trigger] old(self).has_index(j) ==> items@.contains(j as u32),
                forall|j: int| #[trigger] old(self).has_index(j) ==> 0 <= j < 0x1000000,
                forall|j: int|
                    self.has_index(j) <==> (old(self).has_index(j) && (view_contains::<B>(
                        *other,
                        j,
                    ) || !items@.subrange(0, k as int).contains(j as u32))),
                (forall|j: int| old(self).has_index(j) ==> view_contains::<B>(*other, j))
                    ==> *self == *old(self),
            decreases items@.len() - k,
        {
            let ghost head = *self;
            let v = items[k];
            let ghost prefix = items@.subrange(0, k as int);
            let keep = other.contains(v);
            proof {
                // when the set is a subset of the operand, every item is
                // kept and nothing is touched
                if forall|j: int| old(self).has_index(j) ==> view_contains::<B>(*other, j) {
                    assert(old(self).has_index(items@[k as int] as int));
                    assert(view_contains::<B>(*other, v as int));
                    assert(keep);
                }
            }
            if !keep {
                self.remove(v);
            }
            k = k + 1;
            proof {
                assert(items@.subrange(0, k as int) =~= prefix.push(items@[k - 1]));
                assert forall|j: int|
                    self.has_index(j) <==> (old(self).has_index(j) && (view_contains::<B>(
                    *other,
                    j,
                ) || !items@.subrange(0, k as int).contains(j as u32))) by {
                    if old(self).has_index(j) {
                        assert(0 <= j < 0x1000000);
                        assert((j as u32 == v) == (j == v as int));
                        assert(items@.subrange(0, k as int).contains(j as u32) == (
                        prefix.contains(j as u32) || j == v as int));
                    } else {
                        assert(!head.has_index(j));
                        assert(!self.has_index(j));
                    }
                }
            }
        }
        proof {
            assert(items@.subrange(0, items@.len() as int) =~= items@);
            assert forall|j: int|
                final(self).has_index(j) <==> (old(self).has_index(j) && view_contains::<B>(
                *other,
                j,
            )) by {
                if old(self).has_index(j) && !view_contains::<B>(*other, j) {
                    assert(items@.contains(j as u32));
                }
            }
        }
    }
}

/// Combining a set with an equally-membered operand by symmetric
/// difference leaves it empty.
pub proof fn law_xor_self(pre: GenericBitSet, post: GenericBitSet)
    requires
        pre.inv(),
        forall|j: int|
            post.has_index(j) <==> (pre.has_index(j) != (0 <= j < 0x1000000 && pre.has_index(j))),
    ensures
        forall|j: int| !post.has_index(j),
{
    pre.lemma_members_bounded();
}

/// Combining a set with an equally-membered operand by union leaves its
/// members unchanged.
pub proof fn law_or_self(pre: GenericBitSet, post: GenericBitSet)
    requires
        pre.inv(),
        forall|j: int|
            post.has_index(j) <==> (pre.has_index(j) || (0 <= j < 0x1000000 && pre.has_index(j))),
    ensures
        forall|j: int| post.has_index(j) == pre.has_index(j),
{
}

/// Combining a set with an equally-membered operand by intersection
/// leaves its members unchanged.
pub proof fn law_and_self(pre: GenericBitSet, post: GenericBitSet)
    requires
        pre.inv(),
        forall|j: int| post.has_index(j) <==> (pre.has_index(j) && pre.has_index(j)),
    ensures
        forall|j: int| post.has_index(j) == pre.has_index(j),
{
}

/// Adding the members of `other` in place gives the same members as the
/// lazy union wrapper over the original operands.
pub proof fn law_or_assign_matches_wrapper<B: BitSetLike>(
    pre: GenericBitSet,
    post: GenericBitSet,
    other: B,
)
    requires
        forall|j: int|
            post.has_index(j) <==> (pre.has_index(j) || (0 <= j < 0x1000000 && view_contains(
                other,
                j,
            ))),
    ensures
        forall|j: int|
            0 <= j < 0x1000000 ==> (post.has_index(j) == view_contains(BitSetOr(pre, other), j)),
{
    assert forall|j: int|
        0 <= j < 0x1000000 implies (post.has_index(j) == view_contains(
        BitSetOr(pre, other),
        j,
    )) by {
        lemma_bitwise_ops(pre.spec_layer0(j / 64), other.spec_layer0(j / 64));
        assert(pre.spec_layer0(j / 64) == pre.l0(j / 64));
    }
}

} // verus!
