//! Checks of the average-ones bit trick: the returned position splits
//! the set bits of a word into halves, rounding the low side up.

use hibitset::util::{average_ones_u32, average_ones_u64};

/// The next value after `state` whose number of set bits is even.
fn next_even_parity_u32(state: u32) -> Option<u32> {
    let mut cur = state;
    if cur == u32::max_value() {
        return None;
    }
    cur += 1;
    while cur.count_ones() & 1 != 0 {
        if cur == u32::max_value() {
            return None;
        }
        cur += 1;
    }
    Some(cur)
}

/// The next value after `state` whose number of set bits is odd.
fn next_odd_parity_u32(state: u32) -> Option<u32> {
    let mut cur = state;
    if cur == u32::max_value() {
        return None;
    }
    cur += 1;
    while cur.count_ones() & 1 == 0 {
        if cur == u32::max_value() {
            return None;
        }
        cur += 1;
    }
    Some(cur)
}

/// The next value after `state` whose number of set bits is even.
fn next_even_parity_u64(state: u64) -> Option<u64> {
    let mut cur = state;
    if cur == u64::max_value() {
        return None;
    }
    cur += 1;
    while cur.count_ones() & 1 != 0 {
        if cur == u64::max_value() {
            return None;
        }
        cur += 1;
    }
    Some(cur)
}

/// The next value after `state` whose number of set bits is odd.
fn next_odd_parity_u64(state: u64) -> Option<u64> {
    let mut cur = state;
    if cur == u64::max_value() {
        return None;
    }
    cur += 1;
    while cur.count_ones() & 1 == 0 {
        if cur == u64::max_value() {
            return None;
        }
        cur += 1;
    }
    Some(cur)
}

#[test]
fn parity_0_average_ones_u32() {
    let steps = 1000;
    for i in 0..steps {
        let pos = i * (u32::max_value() / steps);
        let mut state = pos;
        let mut taken = 0;
        while taken < steps {
            match next_even_parity_u32(state) {
                Some(i) => {
                    state = i;
                    let mask = (1u32 << average_ones_u32(i).unwrap_or(31)) - 1;
                    assert_eq!((i & mask).count_ones(), (i & !mask).count_ones(), "{:x}", i);
                }
                None => break,
            }
            taken += 1;
        }
    }
}

#[test]
fn parity_1_average_ones_u32() {
    let steps = 1000;
    for i in 0..steps {
        let pos = i * (u32::max_value() / steps);
        let mut state = pos;
        let mut taken = 0;
        while taken < steps {
            match next_odd_parity_u32(state) {
                Some(i) => {
                    state = i;
                    let mask = (1u32 << average_ones_u32(i).unwrap_or(31)) - 1;
                    let a = (i & mask).count_ones();
                    let b = (i & !mask).count_ones();
                    if a < b {
                        assert_eq!(a + 1, b, "{:x}", i);
                    } else if b < a {
                        assert_eq!(a, b + 1, "{:x}", i);
                    } else {
                        panic!("Odd parity shouldn't split in exactly half");
                    }
                }
                None => break,
            }
            taken += 1;
        }
    }
}

#[test]
fn empty_average_ones_u32() {
    assert_eq!(None, average_ones_u32(0));
}

#[test]
fn singleton_average_ones_u32() {
    for i in 0..32 {
        assert_eq!(None, average_ones_u32(1 << i), "{:x}", i);
    }
}

#[test]
fn parity_0_average_ones_u64() {
    let steps = 1000;
    for i in 0..steps {
        let pos = i * (u64::max_value() / steps);
        let mut state = pos;
        let mut taken = 0;
        while taken < steps {
            match next_even_parity_u64(state) {
                Some(i) => {
                    state = i;
                    let mask = (1u64 << average_ones_u64(i).unwrap_or(63)) - 1;
                    assert_eq!((i & mask).count_ones(), (i & !mask).count_ones(), "{:x}", i);
                }
                None => break,
            }
            taken += 1;
        }
    }
}

#[test]
fn parity_1_average_ones_u64() {
    let steps = 1000;
    for i in 0..steps {
        let pos = i * (u64::max_value() / steps);
        let mut state = pos;
        let mut taken = 0;
        while taken < steps {
            match next_odd_parity_u64(state) {
                Some(i) => {
                    state = i;
                    let mask = (1u64 << average_ones_u64(i).unwrap_or(63)) - 1;
                    let a = (i & mask).count_ones();
                    let b = (i & !mask).count_ones();
                    if a < b {
                        assert_eq!(a + 1, b, "{:x}", i);
                    } else if b < a {
                        assert_eq!(a, b + 1, "{:x}", i);
                    } else {
                        panic!("Odd parity shouldn't split in exactly half");
                    }
                }
                None => break,
            }
            taken += 1;
        }
    }
}

#[test]
fn empty_average_ones_u64() {
    assert_eq!(None, average_ones_u64(0));
}

#[test]
fn singleton_average_ones_u64() {
    for i in 0..64 {
        assert_eq!(None, average_ones_u64(1 << i), "{:x}", i);
    }
}

#[test]
fn average_ones_agree_u32_u64() {
    let steps = 1000;
    for i in 0..steps {
        let pos = i * (u32::max_value() / steps);
        for i in pos..steps {
            assert_eq!(
                average_ones_u32(i),
                average_ones_u64(i as u64).map(|n| n as u32),
                "{:x}",
                i
            );
        }
    }
}

#[test]
fn specific_values() {
    assert_eq!(Some(4), average_ones_u32(0b10110));
    assert_eq!(Some(5), average_ones_u32(0b100010));
    assert_eq!(None, average_ones_u32(0));
    assert_eq!(None, average_ones_u32(1));

    assert_eq!(Some(4), average_ones_u64(0b10110));
    assert_eq!(Some(5), average_ones_u64(0b100010));
    assert_eq!(None, average_ones_u64(0));
    assert_eq!(None, average_ones_u64(1));
}
