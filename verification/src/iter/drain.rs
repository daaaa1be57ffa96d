//! A draining iterator: it hands out the indices of a set in ascending
//! order and leaves the set empty of every index it hands out.

use vstd::prelude::*;

verus! {

use crate::util::{bit64, pc64};
use crate::{BitSetLike, DrainableBitSet, view_contains, summaries_complete, lemma_ref_transfer};
use crate::iter::{BitIter, cursor_inv, in_rem, lemma_fresh_cursor};

broadcast use vstd::seq_lib::group_seq_properties;

/// A draining iterator over a [`DrainableBitSet`] structure.  It holds
/// the drained indices in ascending order and hands them out one by one.
pub struct DrainBitIter {
    /// The drained indices, ascending.
    pub items: Vec<u32>,
    /// How many of them were already handed out.
    pub pos: usize,
}

/// The members of the view below `64^4`, as a vector in ascending order.
pub(crate) fn collect_indices<T: BitSetLike>(set: &T) -> (r: Vec<u32>)
    requires
        summaries_complete::<T>(*set),
    ensures
        forall|k1: int, k2: int| 0 <= k1 < k2 < r@.len() ==> r@[k1] < r@[k2],
        forall|k: int| 0 <= k < r@.len() ==> 0 <= (#[trigger] r@[k]) < 0x1000000,
        forall|k: int| 0 <= k < r@.len() ==> view_contains::<T>(*set, #[trigger] r@[k] as int),
        forall|j: int|
            0 <= j < 0x1000000 ==> (view_contains::<T>(*set, j) <==> r@.contains(j as u32)),
{
    proof {
        lemma_ref_transfer(set);
    }
    let mut items: Vec<u32> = Vec::new();
    let mut it = set.iter();
    proof {
        lemma_fresh_cursor(it);
    }
    loop
        invariant
            cursor_inv(it),
            it.set == set,
            summaries_complete::<T>(*set),
            forall|k1: int, k2: int| 0 <= k1 < k2 < items@.len() ==> items@[k1] < items@[k2],
            forall|k: int| 0 <= k < items@.len() ==> 0 <= (#[trigger] items@[k]) < 0x1000000,
            forall|k: int|
                0 <= k < items@.len() ==> view_contains::<T>(*set, #[trigger] items@[k] as int),
            forall|k: int, j: int| 0 <= k < items@.len() && in_rem(it, j) ==> items@[k] < j,
            forall|j: int|
                0 <= j < 0x1000000 ==> (view_contains::<T>(*set, j) <==> (items@.contains(j as u32)
                    || in_rem(it, j))),
        decreases
                pc64(it.masks@[3]),
                pc64(it.masks@[2]),
                pc64(it.masks@[1]),
                pc64(it.masks@[0]),
    {
        let ghost pre_items = items@;
        match it.next() {
            Some(v) => {
                items.push(v);
                proof {
                    assert forall|j: int|
                        0 <= j < 0x1000000 && view_contains::<T>(*set, j) implies (items@.contains(
                        j as u32,
                    ) || in_rem(it, j)) by {
                        if pre_items.contains(j as u32) {
                            let k = choose|k: int|
                                0 <= k < pre_items.len() && pre_items[k] == j as u32;
                            assert(items@[k] == j as u32);
                        } else if j == v as int {
                            assert(items@[items@.len() - 1] == v);
                        }
                    }
                    assert forall|j: int|
                        0 <= j < 0x1000000 && items@.contains(j as u32) implies view_contains::<T>(
                        *set,
                        j,
                    ) by {
                        let k = choose|k: int| 0 <= k < items@.len() && items@[k] == j as u32;
                        if k < items@.len() - 1 {
                            assert(pre_items[k] == j as u32);
                        }
                    }
                }
            },
            None => {
                return items;
            },
        }
    }
}

impl DrainBitIter {
    /// Creates a new `DrainBitIter` over the whole key space of `set`,
    /// removing every member below `64^4` from it.  Usually one calls
    /// `drain` on a bit set instead, which passes the fresh cursor.
    pub fn new<T: DrainableBitSet>(set: &mut T, masks: [u64; 4], prefix: [u32; 3]) -> (r:
        DrainBitIter)
        requires
            old(set).drain_wf(),
            summaries_complete::<T>(*old(set)),
            masks@[0] == 0,
            masks@[1] == 0,
            masks@[2] == 0,
            masks@[3] == old(set).spec_layer3(),
            prefix@[0] == 0,
            prefix@[1] == 0,
            prefix@[2] == 0,
        ensures
            final(set).drain_wf(),
            forall|j: int| 0 <= j < 0x1000000 ==> !(#[trigger] view_contains::<T>(*final(set), j)),
            forall|j: int|
                j >= 0x1000000 ==> (#[trigger] view_contains::<T>(*final(set), j))
                    == view_contains::<T>(*old(set), j),
            r.pos == 0,
            forall|k: int| 0 <= k < r.items@.len() ==> (#[trigger] r.items@[k]) < 0x1000000,
            forall|k1: int, k2: int| 0 <= k1 < k2 < r.items@.len() ==> r.items@[k1] < r.items@[k2],
            forall|j: int|
                0 <= j < 0x1000000 ==> ((#[trigger] view_contains::<T>(*old(set), j))
                    <==> r.items@.contains(j as u32)),
    {
        let items = collect_indices(&*set);
        let mut k: usize = 0;
        proof {
            assert(items@.subrange(0, 0) =~= Seq::<u32>::empty());
        }
        while k < items.len()
            invariant
                set.drain_wf(),
                k <= items@.len(),
                forall|kk: int| 0 <= kk < items@.len() ==> 0 <= (#[trigger] items@[kk]) < 0x1000000,
                forall|j: int|
                    0 <= j < 0x1000000 ==> ((#[trigger] view_contains::<T>(*old(set), j))
                        <==> items@.contains(j as u32)),
                forall|j: int|
                    0 <= j < 0x1000000 ==> ((#[trigger] view_contains::<T>(*set, j)) <==> (
                    view_contains::<T>(*old(set), j) && !items@.subrange(0, k as int).contains(
                        j as u32,
                    ))),
                forall|j: int|
                    j >= 0x1000000 ==> (#[trigger] view_contains::<T>(*set, j))
                        == view_contains::<T>(*old(set), j),
            decreases items@.len() - k,
        {
            let v = items[k];
            let ghost head = *set;
            let ghost prefix_seq = items@.subrange(0, k as int);
            set.remove(v);
            k = k + 1;
            proof {
                assert(items@.subrange(0, k as int) =~= prefix_seq.push(items@[k - 1]));
                assert forall|j: int|
                    0 <= j < 0x1000000 implies ((view_contains::<T>(*set, j)) <==> (
                view_contains::<T>(*old(set), j) && !items@.subrange(0, k as int).contains(
                    j as u32,
                ))) by {
                    crate::util::lemma_div_chain(j);
                    crate::iter::lemma_mul_div(j / 64, j % 64, 64);
                    assert(bit64(set.spec_layer0(j / 64), (j % 64) as u64) <==> (bit64(
                        head.spec_layer0(j / 64),
                        (j % 64) as u64,
                    ) && (j / 64) * 64 + (j % 64) != v as int));
                    assert((j / 64) * 64 + (j % 64) == j);
                    assert(view_contains::<T>(head, j) == (view_contains::<T>(*old(set), j)
                        && !prefix_seq.contains(j as u32)));
                    assert((j as u32 == v) == (j == v as int));
                    assert(items@.subrange(0, k as int).contains(j as u32) == (prefix_seq.contains(
                        j as u32,
                    ) || j == v as int));
                }
                assert forall|j: int|
                    j >= 0x1000000 implies (view_contains::<T>(*set, j)) == view_contains::<T>(
                    *old(set),
                    j,
                ) by {
                    crate::util::lemma_div_chain(j);
                    crate::iter::lemma_mul_div(j / 64, j % 64, 64);
                    assert(bit64(set.spec_layer0(j / 64), (j % 64) as u64) <==> (bit64(
                        head.spec_layer0(j / 64),
                        (j % 64) as u64,
                    ) && (j / 64) * 64 + (j % 64) != v as int));
                    assert((j / 64) * 64 + (j % 64) == j);
                    assert(view_contains::<T>(head, j) == view_contains::<T>(*old(set), j));
                }
            }
        }
        proof {
            assert(items@.subrange(0, items@.len() as int) =~= items@);
        }
        DrainBitIter { items, pos: 0 }
    }

    /// The next drained index, in ascending order; `None` once every
    /// drained index was handed out.
    pub fn next(&mut self) -> (r: Option<u32>)
        ensures
            final(self).items == old(self).items,
            old(self).pos < old(self).items@.len() ==> r == Some(
                old(self).items@[old(self).pos as int],
            ) && final(self).pos == old(self).pos + 1,
            old(self).pos >= old(self).items@.len() ==> r is None && *final(self) == *old(self),
    {
        if self.pos < self.items.len() {
            let v = self.items[self.pos];
            self.pos = self.pos + 1;
            Some(v)
        } else {
            None
        }
    }
}

} // verus!
