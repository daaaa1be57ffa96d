//! Checks of the splittable producer: driving a full divide-and-conquer
//! split tree must yield exactly the members of the set, and the split
//! tree must have the expected shape.

use hibitset::{BitParIter, BitProducer, BitSet, BitSetAnd, BitSetLike};

use rand::{weak_rng, Rng};
use std::collections::HashSet;
use std::mem::size_of;

/// Splits the producer as far as it goes and collects everything the
/// leaves yield, as a full divide-and-conquer driver would.
fn drive_producer<T: BitSetLike + Copy>(p: BitProducer<T>, out: &mut Vec<u32>) {
    let (a, b) = p.split();
    match b {
        Some(other) => {
            drive_producer(a, out);
            drive_producer(other, out);
        }
        None => {
            let mut it = a.0;
            while let Some(v) = it.next() {
                out.push(v);
            }
        }
    }
}

/// Consumes a parallel iterator by splitting to exhaustion, returning
/// every index produced across all leaves.
fn par_collect<T: BitSetLike + Copy>(p: BitParIter<T>) -> Vec<u32> {
    let BitParIter(set, splits) = p;
    let mut out: Vec<u32> = Vec::new();
    drive_producer(BitProducer(set.iter(), splits), &mut out);
    out
}

#[test]
fn par_iter_one() {
    let layers = 2;
    let bits = (size_of::<usize>() as f32).log2() as usize;
    let limit = bits * (layers + 1);
    let max_size = 2 << (limit - 1);

    let step = 5000;
    let tests = max_size / step;
    for n in 0..tests {
        let n = n * step;
        let mut set = BitSet::new();
        set.add(n);
        assert_eq!(par_collect((&set).par_iter()).len(), 1);
    }
    let mut set = BitSet::new();
    set.add(max_size - 1);
    assert_eq!(par_collect((&set).par_iter()).len(), 1);
}

#[test]
fn par_iter_random_add() {
    let layers = 2;
    let bits = (size_of::<usize>() as f32).log2() as usize;
    let limit = bits * (layers + 1);
    let max_size = 2 << (limit - 1);

    let mut set = BitSet::new();
    let mut check_set = HashSet::new();
    let mut rng = weak_rng();
    let max_added = max_size / 10;
    for _ in 0..max_added {
        let index = rng.gen_range(0, max_added);
        set.add(index);
        check_set.insert(index);
    }
    let mut check_set = check_set;
    let mut missing_set = HashSet::new();
    for n in par_collect((&set).par_iter()) {
        if !check_set.remove(&n) {
            missing_set.insert(n);
        }
    }
    if !check_set.is_empty() && !missing_set.is_empty() {
        panic!(
            "There were values that didn't get iterated: {:?}
            There were values that got iterated, but that shouldn't be: {:?}",
            check_set, missing_set
        );
    }
    if !check_set.is_empty() {
        panic!("There were values that didn't get iterated: {:?}", check_set);
    }
    if !missing_set.is_empty() {
        panic!(
            "There were values that got iterated, but that shouldn't be: {:?}",
            missing_set
        );
    }
}

#[test]
fn par_iter_odd_even() {
    let mut odd = BitSet::new();
    let mut even = BitSet::new();
    for i in 0..100_000 {
        if i % 2 == 1 {
            odd.add(i);
        } else {
            even.add(i);
        }
    }

    assert_eq!(par_collect((&odd).par_iter()).len(), 50_000);
    assert_eq!(par_collect((&even).par_iter()).len(), 50_000);
    assert_eq!(par_collect(BitSetAnd::new(&odd, &even).par_iter()).len(), 0);
}

#[test]
fn par_iter_clusters() {
    let bits = (size_of::<usize>() as f32).log2() as usize;
    let mut set = BitSet::new();
    let mut check_set = HashSet::new();
    for x in 0..8 {
        let x = (x * 3) << (bits * 2); // scale to the last slot
        for y in 0..8 {
            let y = (y * 3) << bits;
            for z in 0..8 {
                let z = z * 2;
                let index = x + y + z;
                set.add(index);
                check_set.insert(index);
            }
        }
    }
    let mut check_set = check_set;
    let mut missing_set = HashSet::new();
    for n in par_collect((&set).par_iter()) {
        if !check_set.remove(&n) {
            missing_set.insert(n);
        }
    }
    if !check_set.is_empty() && !missing_set.is_empty() {
        panic!(
            "There were values that didn't get iterated: {:?}
            There were values that got iterated, but that shouldn't be: {:?}",
            check_set, missing_set
        );
    }
    if !check_set.is_empty() {
        panic!("There were values that didn't get iterated: {:?}", check_set);
    }
    if !missing_set.is_empty() {
        panic!(
            "There were values that got iterated, but that shouldn't be: {:?}",
            missing_set
        );
    }
}

/// Visits the split tree: with depth left, a node must keep splitting
/// the given number of times before descending; at depth zero it must
/// not split at all.
fn visit<T: BitSetLike + Copy>(us: BitProducer<T>, d: usize, i: usize, trail: String, c: &mut usize) {
    let mut us = us;
    if d == 0 {
        assert!(us.split().1.is_none(), "{}", trail);
        *c += 1;
    } else {
        for j in 1..(i + 1) {
            let (new_us, them) = us.split();
            us = new_us;
            let them = them.expect(&trail);
            let mut trail = trail.clone();
            trail.push_str(&i.to_string());
            visit(them, d, i - j, trail, c);
        }
        let mut trail = trail;
        trail.push_str("u");
        visit(us, d - 1, 6, trail, c);
    }
}

fn test_splitting(split_levels: u8) {
    let usize_bits = size_of::<usize>() * 8;
    let layers = 3;

    let mut c = BitSet::new();
    for i in 0..(usize_bits.pow(layers) * 2) {
        assert!(!c.add(i as u32));
    }

    let us = BitProducer((&c).iter(), split_levels);
    let (us, them) = us.split();

    let mut count = 0;
    visit(us, split_levels as usize - 1, 6, "u".to_owned(), &mut count);
    visit(
        them.expect("Splitting top level"),
        split_levels as usize - 1,
        6,
        "t".to_owned(),
        &mut count,
    );
    assert_eq!(usize_bits.pow(split_levels as u32 - 1) * 2, count);
}

#[test]
fn max_3_splitting_of_two_top_bits() {
    test_splitting(3);
}

#[test]
fn max_2_splitting_of_two_top_bits() {
    test_splitting(2);
}

#[test]
fn max_1_splitting_of_two_top_bits() {
    test_splitting(1);
}
