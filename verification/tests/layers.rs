//! Checks of the container and the sequential iterator, with the sizes
//! derived the same way the historical suite derived them.

use hibitset::{BitIter, BitSet, BitSetAnd, BitSetLike, BitSetNot};
use rand::{weak_rng, Rng};
use std::mem::size_of;

/// Walks an iterator to the end, collecting at most `limit` indices.
fn take_indices<T: BitSetLike>(mut it: BitIter<T>, limit: usize) -> Vec<u32> {
    let mut out: Vec<u32> = Vec::new();
    while out.len() < limit {
        match it.next() {
            Some(v) => out.push(v),
            None => break,
        }
    }
    out
}

/// Walks an iterator to the end and counts what it yields.
fn count_indices<T: BitSetLike>(mut it: BitIter<T>) -> usize {
    let mut n = 0;
    while let Some(_) = it.next() {
        n += 1;
    }
    n
}

#[test]
fn insert() {
    let layers = 2;
    let bits = (size_of::<usize>() as f32).log2() as usize;
    let limit = bits * (layers + 1);
    let max_size = 2 << (limit - 1);

    let step = 1000;
    let tests = max_size / step;

    let mut c = BitSet::new();
    for n in 0..tests {
        let n = n * step;
        assert!(!c.add(n));
        assert!(c.add(n));
    }

    for n in 0..tests {
        let n = n * step;
        assert!(c.contains(n));
    }
}

#[test]
fn insert_large() {
    let layers = 2;
    let bits = (size_of::<usize>() as f32).log2() as usize;
    let limit = bits * (layers + 1);
    let max_size = 2 << (limit - 1);

    let step = 10;
    let tests = max_size / step;

    let mut c = BitSet::new();
    for n in 0..tests {
        let n = n * step;
        assert!(!c.add(n));
        assert!(c.add(n));
    }

    for n in 0..tests {
        let n = n * step;
        assert!(c.contains(n));
    }
}

#[test]
fn remove() {
    let layers = 2;
    let bits = (size_of::<usize>() as f32).log2() as usize;
    let limit = bits * (layers + 1);
    let max_size = 2 << (limit - 1);

    let step = 1000;
    let tests = max_size / step;

    let mut c = BitSet::new();
    for n in 0..tests {
        let n = n * step;
        assert!(!c.add(n));
    }

    for n in 0..tests {
        let n = n * step;
        assert!(c.contains(n));
        assert!(c.remove(n));
        assert!(!c.contains(n));
        assert!(!c.remove(n));
    }
}

#[test]
fn iter() {
    let mut c = BitSet::new();
    for i in 0..100_000 {
        c.add(i);
    }

    let mut count = 0;
    let mut idx = 0;
    let mut it = c.iter();
    while let Some(i) = it.next() {
        count += 1;
        assert_eq!(idx, i as usize);
        idx += 1;
    }
    assert_eq!(count, 100_000);
}

#[test]
fn iter_odd_even() {
    let mut odd = BitSet::new();
    let mut even = BitSet::new();
    for i in 0..100_000 {
        if i % 2 == 1 {
            odd.add(i);
        } else {
            even.add(i);
        }
    }

    assert_eq!(count_indices((&odd).iter()), 50_000);
    assert_eq!(count_indices((&even).iter()), 50_000);
    assert_eq!(count_indices(BitSetAnd::new(&odd, &even).iter()), 0);
}

#[test]
fn iter_random_add() {
    let mut set = BitSet::new();
    let mut rng = weak_rng();
    let max_added = 1_048_576 / 10;
    let mut added = 0;
    for _ in 0..max_added {
        let index = rng.gen_range(0, max_added);
        if !set.add(index) {
            added += 1;
        }
    }
    assert_eq!(count_indices(set.iter()), added as usize);
}

#[test]
fn iter_clusters() {
    let bits = (size_of::<usize>() as f32).log2() as usize;
    let mut set = BitSet::new();
    for x in 0..8 {
        let x = (x * 3) << (bits * 2); // scale to the last slot
        for y in 0..8 {
            let y = (y * 3) << bits;
            for z in 0..8 {
                let z = z * 2;
                set.add(x + y + z);
            }
        }
    }
    assert_eq!(count_indices(set.iter()), 8usize.pow(3));
}

#[test]
fn not() {
    let mut c = BitSet::new();
    for i in 0..10_000 {
        if i % 2 == 1 {
            c.add(i);
        }
    }
    let d = BitSetNot::new(c);
    let taken = take_indices(d.iter(), 5_000);
    for (idx, &i) in taken.iter().enumerate() {
        assert_eq!(idx * 2, i as usize);
    }
}
