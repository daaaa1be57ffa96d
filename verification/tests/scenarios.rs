//! End-to-end checks: membership, the algebraic wrappers, the in-place
//! algebra, draining, equality, and the boundary indices of the key
//! space.

use hibitset::util::{offsets, Row};
use hibitset::{
    BitIter, BitSet, BitSetAll, BitSetAnd, BitSetLike, BitSetNot, BitSetOr, BitSetXor,
    DrainableBitSet,
};

/// Walks an iterator to the end and collects everything it yields.
fn all_indices<T: BitSetLike>(mut it: BitIter<T>) -> Vec<u32> {
    let mut out: Vec<u32> = Vec::new();
    while let Some(v) = it.next() {
        out.push(v);
    }
    out
}

fn set_of(indices: &[u32]) -> BitSet {
    let mut s = BitSet::new();
    for &i in indices {
        s.add(i);
    }
    s
}

#[test]
fn add_contains_iterate() {
    let mut bitset = BitSet::new();
    bitset.add(1);
    bitset.add(3);
    bitset.add(5);
    bitset.add(15);
    bitset.add(200);
    bitset.add(50001);
    assert!(bitset.add(1));
    assert!(bitset.contains(200));
    assert_eq!(all_indices(bitset.iter()), vec![1, 3, 5, 15, 200, 50001]);
}

#[test]
fn wrapper_and() {
    let s = set_of(&[1, 3, 5, 15, 200, 50001]);
    let t = set_of(&[1, 3, 50000, 50001]);
    assert_eq!(all_indices(BitSetAnd::new(&s, &t).iter()), vec![1, 3, 50001]);
}

#[test]
fn wrapper_or() {
    let s = set_of(&[1, 3, 5, 15, 200, 50001]);
    let t = set_of(&[1, 3, 50000, 50001]);
    assert_eq!(
        all_indices(BitSetOr::new(&s, &t).iter()),
        vec![1, 3, 5, 15, 200, 50000, 50001]
    );
}

#[test]
fn wrapper_xor() {
    let s = set_of(&[1, 3, 5, 15, 200, 50001]);
    let t = set_of(&[1, 3, 50000, 50001]);
    assert_eq!(
        all_indices(BitSetXor::new(&s, &t).iter()),
        vec![5, 15, 200, 50000]
    );
}

#[test]
fn xor() {
    let bitset = set_of(&[2, 3, 50000]);
    let other = set_of(&[1, 3, 50000, 50001]);
    let xor = BitSetXor::new(&bitset, &other);
    assert_eq!(all_indices(xor.iter()), vec![1, 2, 50001]);
}

#[test]
fn wrapper_not_and_all() {
    let s = set_of(&[0, 2, 4]);
    let not = BitSetNot::new(&s);
    assert!(!not.contains(0));
    assert!(not.contains(1));
    let all = BitSetAll::new();
    assert!(all.contains(0));
    assert!(all.contains(16777215));
    // intersecting with everything changes nothing
    assert_eq!(all_indices(BitSetAnd::new(&s, all).iter()), vec![0, 2, 4]);
}

#[test]
fn commutativity_on_values() {
    let s = set_of(&[1, 64, 4096, 262144]);
    let t = set_of(&[1, 65, 4096, 500000]);
    assert_eq!(
        all_indices(BitSetAnd::new(&s, &t).iter()),
        all_indices(BitSetAnd::new(&t, &s).iter())
    );
    assert_eq!(
        all_indices(BitSetOr::new(&s, &t).iter()),
        all_indices(BitSetOr::new(&t, &s).iter())
    );
    assert_eq!(
        all_indices(BitSetXor::new(&s, &t).iter()),
        all_indices(BitSetXor::new(&t, &s).iter())
    );
}

#[test]
fn de_morgan_on_values() {
    let s = set_of(&[1, 2, 3]);
    let t = set_of(&[2, 3, 4]);
    // every index outside both sets lies outside the intersection
    let lhs = BitSetNot::new(BitSetAnd::new(&s, &t));
    let rhs = BitSetOr::new(BitSetNot::new(&s), BitSetNot::new(&t));
    for i in 0..16 {
        if rhs.contains(i) {
            assert!(lhs.contains(i));
        }
    }
}

#[test]
fn or_assign() {
    let mut s = set_of(&[1, 3, 5, 15, 200, 50001]);
    let t = set_of(&[1, 3, 50000, 50001]);
    s.bitor_assign(&t);
    assert_eq!(all_indices(s.iter()), vec![1, 3, 5, 15, 200, 50000, 50001]);
}

#[test]
fn and_assign() {
    let mut s = set_of(&[1, 3, 5, 15, 200, 50001]);
    let t = set_of(&[1, 3, 50000, 50001]);
    s.bitand_assign(&t);
    assert_eq!(all_indices(s.iter()), vec![1, 3, 50001]);
}

#[test]
fn and_assign_specific() {
    let mut s = set_of(&[0, 4096, (4096 + 1) * 64]);
    let t = set_of(&[4096, (4096 + 2) * 64]);
    s.bitand_assign(&t);
    assert_eq!(all_indices(s.iter()), vec![4096]);
}

#[test]
fn xor_assign() {
    let mut s = set_of(&[1, 3, 5, 15, 200, 50001]);
    let t = set_of(&[1, 3, 50000, 50001]);
    s.bitxor_assign(&t);
    assert_eq!(all_indices(s.iter()), vec![5, 15, 200, 50000]);
}

#[test]
fn self_algebra() {
    let s = set_of(&[7, 77, 777, 7777, 77777, 777777]);
    let members = all_indices((&s).iter());

    // union and intersection with an equal set leave every word untouched
    let mut a = s.clone();
    a.bitor_assign(&s);
    assert_eq!(all_indices((&a).iter()), members);
    assert!(a == s);

    let mut b = s.clone();
    b.bitand_assign(&s);
    assert_eq!(all_indices((&b).iter()), members);
    assert!(b == s);

    let mut c = s.clone();
    c.bitxor_assign(&s);
    assert_eq!(all_indices((&c).iter()), Vec::<u32>::new());
}

#[test]
fn add_present_is_noop() {
    let s = set_of(&[9, 900, 90000]);
    let mut t = s.clone();
    assert!(t.add(900));
    // word for word unchanged, including the stored lengths
    assert!(t == s);
}

#[test]
fn remove_absent_is_noop() {
    let s = set_of(&[9, 900, 90000]);
    let mut t = s.clone();
    assert!(!t.remove(901));
    assert!(!t.remove(16777215));
    assert!(t == s);
}

#[test]
fn boundary_indices() {
    let mut s = BitSet::new();
    s.add(0);
    s.add(16777215);
    assert_eq!(all_indices((&s).iter()), vec![0, 16777215]);
    assert!(s.remove(0));
    assert!(s.remove(16777215));
    assert_eq!(all_indices(s.iter()), Vec::<u32>::new());
}

#[test]
fn highest_summary_bit() {
    // one index whose layer-3 bit is the highest
    let mut s = BitSet::new();
    s.add(63 * 64 * 64 * 64);
    assert_eq!(all_indices(s.iter()), vec![63 * 64 * 64 * 64]);
}

#[test]
fn clusters_in_word_terms() {
    // clusters scaled by the real word width
    let mut s = BitSet::new();
    for x in 0..8u32 {
        for y in 0..8u32 {
            for z in 0..8u32 {
                s.add(3 * x * 4096 + 3 * y * 64 + 2 * z);
            }
        }
    }
    assert_eq!(all_indices(s.iter()).len(), 512);
}

#[test]
fn clear_empties_everything() {
    let mut s = set_of(&[1, 100, 10000, 1000000]);
    s.clear();
    assert!(!s.contains(1));
    assert_eq!(all_indices((&s).iter()), Vec::<u32>::new());
    assert!(s.layer0_as_slice().is_empty());
    assert!(s.layer1_as_slice().is_empty());
    assert!(s.layer2_as_slice().is_empty());
}

#[test]
fn drain_leaves_empty() {
    let mut s = BitSet::new();
    for i in 0..100_000 {
        s.add(i);
    }
    let mut drained = 0;
    let mut it = s.drain();
    while let Some(_) = it.next() {
        drained += 1;
    }
    assert_eq!(drained, 100_000);
    assert_eq!(all_indices((&s).iter()), Vec::<u32>::new());
    // every stored word of every layer reads zero
    for &w in s.layer0_as_slice() {
        assert_eq!(w, 0);
    }
    for &w in s.layer1_as_slice() {
        assert_eq!(w, 0);
    }
    for &w in s.layer2_as_slice() {
        assert_eq!(w, 0);
    }
}

#[test]
fn drain_yields_ascending_members() {
    let mut s = set_of(&[5, 1, 300, 70000]);
    let mut it = s.drain();
    assert_eq!(it.next(), Some(1));
    assert_eq!(it.next(), Some(5));
    assert_eq!(it.next(), Some(300));
    assert_eq!(it.next(), Some(70000));
    assert_eq!(it.next(), None);
    assert!(!s.contains(300));
}

#[test]
fn contains_set() {
    let s = set_of(&[1, 2, 3, 1000, 100000]);
    let sub = set_of(&[2, 1000]);
    let not_sub = set_of(&[2, 4]);
    assert!(s.contains_set(&sub));
    assert!(!s.contains_set(&not_sub));
}

#[test]
fn equality_is_word_for_word() {
    let a = set_of(&[1, 5000]);
    let b = set_of(&[1, 5000]);
    assert!(a == b);
    let c = set_of(&[1, 5001]);
    assert!(a != c);
    // a set grown further is not equal, even with the same members
    let mut d = BitSet::with_capacity(1_000_000);
    d.add(1);
    d.add(5000);
    assert!(a != d);
    // removal keeps the grown words, so emptied sets of different
    // history may differ as well
    let mut e = set_of(&[1, 5000]);
    e.add(100000);
    e.remove(100000);
    assert!(a != e);
}

#[test]
fn with_capacity_starts_empty() {
    let s = BitSet::with_capacity(16777215);
    assert_eq!(all_indices((&s).iter()), Vec::<u32>::new());
    assert!(!s.contains(0));
}

#[test]
fn layer_slices_reflect_members() {
    let index: u32 = 12345;
    let mut bitset = BitSet::new();
    bitset.add(index);

    let slice = bitset.layer0_as_slice();
    assert_eq!(slice[(index / 64) as usize], 1u64 << (index % 64));

    let slice = bitset.layer1_as_slice();
    let bit = index / 64;
    assert_eq!(slice[(bit / 64) as usize], 1u64 << (bit % 64));

    let slice = bitset.layer2_as_slice();
    let bit = index / 4096;
    assert_eq!(slice[(bit / 64) as usize], 1u64 << (bit % 64));
}

#[test]
fn row_offset_mask() {
    let i: u32 = 12345;
    assert_eq!(i.offset(6), (12345 / 64) as usize);
    assert_eq!(i.row(0), (12345 % 64) as u64);
    assert_eq!(i.row(6), ((12345 / 64) % 64) as u64);
    assert_eq!(i.mask(0), 1u64 << (12345 % 64));
    assert_eq!(offsets(i), (12345 / 64, 12345 / 4096, 0));
}

#[test]
fn iterator_contains() {
    let s = set_of(&[8, 9]);
    let it = (&s).iter();
    assert!(it.contains(8));
    assert!(!it.contains(10));
}

#[test]
fn is_empty_tracks_top_word() {
    let mut s = BitSet::new();
    assert!(BitSetLike::is_empty(&s));
    s.add(123);
    assert!(!BitSetLike::is_empty(&s));
    s.remove(123);
    assert!(BitSetLike::is_empty(&s));
}

#[test]
fn or_assign_matches_wrapper() {
    let s = set_of(&[1, 70, 5000]);
    let t = set_of(&[2, 70, 60000]);
    let mut merged = s.clone();
    merged.bitor_assign(&t);
    assert_eq!(
        all_indices(merged.iter()),
        all_indices(BitSetOr::new(&s, &t).iter())
    );
}
