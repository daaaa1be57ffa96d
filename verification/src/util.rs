use vstd::prelude::*;

verus! {

use vstd::arithmetic::power2::pow2;
use vstd::bits::lemma_u32_shr_is_div;

/// Type used for indexing.
pub type Index = u32;

/// Amount of layers in the hierarchical bit set.
pub const LAYERS: usize = 4;

/// True iff bit `b` of the word `w` is set.  For `b >= 64` the result is false.
pub open spec fn bit64(w: u64, b: u64) -> bool {
    (w >> b) & 1u64 == 1u64
}

/// True iff bit `b` of the 32-bit word `w` is set.  For `b >= 32` the result is false.
pub open spec fn bit32(w: u32, b: u32) -> bool {
    (w >> b) & 1u32 == 1u32
}

/// Number of set bits of `w` among the bit positions `[0, k)`.
pub open spec fn pc_below(w: u64, k: nat) -> nat
    decreases k,
{
    if k == 0 {
        0
    } else {
        pc_below(w, (k - 1) as nat) + (if bit64(w, (k - 1) as u64) {
            1nat
        } else {
            0nat
        })
    }
}

/// Number of set bits of the word `w`.
pub open spec fn pc64(w: u64) -> nat {
    pc_below(w, 64)
}

/// Number of set bits of the 32-bit word `w` among the bit positions `[0, k)`.
pub open spec fn pc_below32(w: u32, k: nat) -> nat
    decreases k,
{
    if k == 0 {
        0
    } else {
        pc_below32(w, (k - 1) as nat) + (if bit32(w, (k - 1) as u32) {
            1nat
        } else {
            0nat
        })
    }
}

/// Number of set bits of the 32-bit word `w`.
pub open spec fn pc32(w: u32) -> nat {
    pc_below32(w, 32)
}

pub proof fn lemma_pc_below_le(w: u64, k: nat)
    ensures
        pc_below(w, k) <= k,
    decreases k,
{
    if k > 0 {
        lemma_pc_below_le(w, (k - 1) as nat);
    }
}

pub proof fn lemma_pc_below32_le(w: u32, k: nat)
    ensures
        pc_below32(w, k) <= k,
    decreases k,
{
    if k > 0 {
        lemma_pc_below32_le(w, (k - 1) as nat);
    }
}

/// Clearing a set bit lowers the count of every window that holds it.
pub proof fn lemma_pc_below_clear(w: u64, b: u64, k: nat)
    requires
        b < 64,
        bit64(w, b),
    ensures
        b < k <= 64 ==> pc_below(w & !(1u64 << b), k) + 1 == pc_below(w, k),
        k <= b ==> pc_below(w & !(1u64 << b), k) == pc_below(w, k),
    decreases k,
{
    lemma_bit_clear_single(w, b);
    if k > 0 {
        lemma_pc_below_clear(w, b, (k - 1) as nat);
    }
}

/// The all-zero word has no set bits to count.
pub proof fn lemma_pc_zero(k: nat)
    ensures
        pc_below(0u64, k) == 0,
    decreases k,
{
    if k > 0 {
        lemma_pc_zero((k - 1) as nat);
        lemma_bit_bounds(0u64);
    }
}

/// Counting is monotone in the window.
pub proof fn lemma_pc_mono(w: u64, lo: nat, k: nat)
    requires
        lo <= k,
    ensures
        pc_below(w, lo) <= pc_below(w, k),
    decreases k,
{
    if k > lo {
        lemma_pc_mono(w, lo, (k - 1) as nat);
    }
}

/// Two words with the same bits on a window have the same count there.
pub proof fn lemma_pc_window(v: u64, w: u64, lo: nat, k: nat)
    requires
        lo <= k <= 64,
        forall|j: u64| lo <= j < k ==> #[trigger] bit64(v, j) == bit64(w, j),
    ensures
        pc_below(v, k) - pc_below(v, lo) == pc_below(w, k) - pc_below(w, lo),
    decreases k,
{
    if k > lo {
        lemma_pc_window(v, w, lo, (k - 1) as nat);
        assert(bit64(v, (k - 1) as u64) == bit64(w, (k - 1) as u64));
    }
}

/// Splitting a word at a bit position splits its count of set bits.
pub proof fn lemma_pc_of_split(w: u64, p: u64)
    requires
        p < 64,
    ensures
        pc64(w & (((1u64 << p) - 1) as u64)) == pc_below(w, p as nat),
        pc64(w & !(((1u64 << p) - 1) as u64)) == pc64(w) - pc_below(w, p as nat),
    decreases p,
{
    let low = w & (((1u64 << p) - 1) as u64);
    let high = w & !(((1u64 << p) - 1) as u64);
    lemma_split_mask(w, p);
    lemma_bit_bounds(0u64);
    lemma_bit_bounds(low);
    lemma_bit_bounds(high);
    lemma_pc_zero(p as nat);
    lemma_pc_zero(64);
    lemma_pc_mono(w, p as nat, 64);
    lemma_pc_window(low, w, 0, p as nat);
    lemma_pc_window(low, 0u64, p as nat, 64);
    lemma_pc_window(high, 0u64, 0, p as nat);
    lemma_pc_window(high, w, p as nat, 64);
}

/// A word with a set bit counts at least one.
pub proof fn lemma_pc_ge_one(w: u64, b: u64)
    requires
        b < 64,
        bit64(w, b),
    ensures
        pc64(w) >= 1,
{
    lemma_pc_below_clear(w, b, 64);
}

/// Basic facts about setting one bit of a word.
pub proof fn lemma_bit_set_single(w: u64, b: u64)
    by (bit_vector)
    requires
        b < 64,
    ensures
        forall|j: u64| j < 64 ==> #[trigger] bit64(w | (1u64 << b), j) == (bit64(w, j) || j == b),
        w | (1u64 << b) != 0u64,
{
}

/// Basic facts about clearing one bit of a word.
pub proof fn lemma_bit_clear_single(w: u64, b: u64)
    by (bit_vector)
    requires
        b < 64,
    ensures
        forall|j: u64| j < 64 ==> #[trigger] bit64(w & !(1u64 << b), j) == (bit64(w, j) && j != b),
{
}

/// Testing one bit with a mask agrees with [`bit64`].
pub proof fn lemma_bit_test(w: u64, b: u64)
    by (bit_vector)
    requires
        b < 64,
    ensures
        (w & (1u64 << b) != 0) == bit64(w, b),
{
}

/// A word with a set bit is not zero, and bits above the width never read as set.
pub proof fn lemma_bit_bounds(w: u64)
    by (bit_vector)
    ensures
        forall|j: u64| bit64(w, j) ==> j < 64,
        forall|j: u64| j < 64 && #[trigger] bit64(w, j) ==> w != 0u64,
        forall|j: u64| !bit64(0u64, j),
{
}

/// A word other than zero has a set bit, namely its lowest one.
pub proof fn lemma_nonzero_has_bit(w: u64)
    requires
        w != 0,
    ensures
        exists|j: u64| j < 64 && bit64(w, j),
{
    vstd::std_specs::bits::axiom_u64_trailing_zeros(w);
    let t = vstd::std_specs::bits::u64_trailing_zeros(w) as u64;
    assert(bit64(w, t));
}

/// Bitwise `and`, `or` and `not` act on every bit position separately.
pub proof fn lemma_bitwise_ops(v: u64, w: u64)
    by (bit_vector)
    ensures
        forall|j: u64| j < 64 ==> #[trigger] bit64(v & w, j) == (bit64(v, j) && bit64(w, j)),
        forall|j: u64| j < 64 ==> #[trigger] bit64(v | w, j) == (bit64(v, j) || bit64(w, j)),
        forall|j: u64| j < 64 ==> #[trigger] bit64(v ^ w, j) == (bit64(v, j) != bit64(w, j)),
        forall|j: u64| j < 64 ==> #[trigger] bit64(!v, j) == !bit64(v, j),
        forall|j: u64| j < 64 ==> bit64(0xffff_ffff_ffff_ffffu64, j),
        0u64 & v == 0u64,
        v & 0u64 == 0u64,
        0u64 | v == v,
        v | 0u64 == v,
        0u64 ^ v == v,
        v ^ 0u64 == v,
        v & w == w & v,
        v | w == w | v,
        v ^ w == w ^ v,
        !(v & w) == !v | !w,
        (v | w) & !(v & w) == v ^ w,
{
}

/// Splitting a word at a bit position splits its set bits.
pub proof fn lemma_split_mask(w: u64, a: u64)
    by (bit_vector)
    requires
        a < 64,
    ensures
        forall|j: u64| j < 64 ==> #[trigger] bit64(w & (((1u64 << a) - 1) as u64), j) == (bit64(
            w,
            j,
        ) && j < a),
        forall|j: u64| j < 64 ==> #[trigger] bit64(w & !(((1u64 << a) - 1) as u64), j) == (bit64(
            w,
            j,
        ) && j >= a),
        (w & (((1u64 << a) - 1) as u64)) | (w & !(((1u64 << a) - 1) as u64)) == w,
        (w & (((1u64 << a) - 1) as u64)) & (w & !(((1u64 << a) - 1) as u64)) == 0u64,
{
}

/// For an aligned base, `or` with a small value is addition.
pub proof fn lemma_aligned_or_u32(p: u32, b: u32)
    by (bit_vector)
    requires
        p % 64 == 0,
        b < 64,
    ensures
        p | b == p + b,
        (p | b) as int % 64 == b,
        (p | b) as int / 64 == p as int / 64,
{
}

/// The quotient-remainder view of the offsets of neighbouring layers.
pub proof fn lemma_div_chain(i: int)
    by (nonlinear_arith)
    requires
        i >= 0,
    ensures
        i / 64 / 64 == i / 4096,
        i / 4096 / 64 == i / 0x40000,
        i / 64 / 4096 == i / 0x40000,
        i / 64 == 64 * (i / 4096) + (i / 64) % 64,
        i / 4096 == 64 * (i / 0x40000) + (i / 4096) % 64,
        i == 64 * (i / 64) + i % 64,
        0 <= i % 64 < 64,
        0 <= (i / 64) % 64 < 64,
        0 <= (i / 4096) % 64 < 64,
{
}

/// The layer shifts of a 32-bit index, as divisions.
pub proof fn lemma_index_shifts(x: u32)
    by (bit_vector)
    ensures
        x >> 6u32 == x / 64,
        x >> 12u32 == x / 4096,
        x >> 18u32 == x / 0x40000,
        x & 63u32 == x % 64,
        (x >> 6u32) & 63u32 == (x / 64) % 64,
        (x >> 12u32) & 63u32 == (x / 4096) % 64,
        x < 0x1000000 ==> x / 0x40000 < 64,
{
}

/// Location of the bit of an index inside one layer row.
pub trait Row: Sized + Copy {
    /// Position of the bit inside the row that holds it, `(self / 2^shift) % 64`.
    fn row(self, shift: u32) -> (r: u64)
        requires
            shift < 32,
        ensures
            r == (self.as_nat() / pow2(shift as nat)) % 64,
    ;

    /// Offset of the row that holds the bit, `self / 2^shift`.
    fn offset(self, shift: u32) -> (r: usize)
        requires
            shift < 32,
        ensures
            r == self.as_nat() / pow2(shift as nat),
    ;

    /// The value the index is mapped to inside the row.
    fn mask(self, shift: u32) -> (r: u64)
        requires
            shift < 32,
        ensures
            r == 1u64 << (((self.as_nat() / pow2(shift as nat)) % 64) as u64),
    ;

    /// The index as a natural number.
    spec fn as_nat(self) -> nat;
}

impl Row for Index {
    fn row(self, shift: u32) -> (r: u64) {
        proof {
            lemma_u32_shr_is_div(self, shift);
            assert((self >> shift) & 63u32 == (self >> shift) % 64) by (bit_vector);
        }
        ((self >> shift) & 63) as u64
    }

    fn offset(self, shift: u32) -> (r: usize) {
        proof {
            lemma_u32_shr_is_div(self, shift);
        }
        (self >> shift) as usize
    }

    fn mask(self, shift: u32) -> (r: u64) {
        let r = self.row(shift);
        1u64 << r
    }

    open spec fn as_nat(self) -> nat {
        self as nat
    }
}

/// Offsets of the rows of an index at the three lowest layers,
/// in `(layer 0, layer 1, layer 2)` order.
pub fn offsets(bit: Index) -> (r: (usize, usize, usize))
    ensures
        r.0 == bit as int / 64,
        r.1 == bit as int / 4096,
        r.2 == bit as int / 0x40000,
{
    proof {
        lemma_index_shifts(bit);
    }
    ((bit >> 6) as usize, (bit >> 12) as usize, (bit >> 18) as usize)
}

/// Finds the highest bit that splits the set bits of the word into
/// halves, rounding the low half up.
///
/// Returns `None` if the word has only one or zero set bits.  Otherwise
/// the returned position `p` is itself a set bit, the bits at `[p, 64)`
/// are half of all set bits rounded down, and the bits at `[0, p)` are
/// the other half: the two counts differ by at most one, and exactly one
/// when the total is odd.
pub fn average_ones_u64(n: u64) -> (r: Option<u64>)
    ensures
        pc64(n) >= 2 <==> r is Some,
        r matches Some(p) ==> p < 64 && bit64(n, p) && pc64(n) - pc_below(n, p as nat) == pc64(n)
            / 2 && pc_below(n, p as nat) == pc64(n) - pc64(n) / 2,
        r matches Some(p) ==> (if pc64(n) % 2 == 0 {
            pc_below(n, p as nat) == pc64(n) - pc_below(n, p as nat)
        } else {
            pc_below(n, p as nat) == pc64(n) - pc_below(n, p as nat) + 1
        }),
{
    let mut count: u32 = 0;
    let mut k: u32 = 0;
    while k < 64
        invariant
            k <= 64,
            count == pc_below(n, k as nat),
        decreases 64 - k,
    {
        proof {
            lemma_pc_below_le(n, k as nat);
        }
        if (n >> (k as u64)) & 1u64 == 1u64 {
            count = count + 1;
        }
        k = k + 1;
    }
    if count <= 1 {
        return None;
    }
    let m: u32 = count / 2;
    let mut high: u32 = 0;
    let mut p: u32 = 64;
    while p > 0
        invariant
            p <= 64,
            count == pc64(n),
            count >= 2,
            m == count / 2,
            m >= 1,
            high == pc64(n) - pc_below(n, p as nat),
            high < m,
        decreases p,
    {
        p = p - 1;
        proof {
            lemma_pc_below_le(n, p as nat);
        }
        if (n >> (p as u64)) & 1u64 == 1u64 {
            high = high + 1;
            if high == m {
                return Some(p as u64);
            }
        }
    }
    assert(false);
    None
}

/// The 32-bit variant of [`average_ones_u64`]; the two agree on every
/// value representable in both widths.
pub fn average_ones_u32(n: u32) -> (r: Option<u32>)
    ensures
        pc32(n) >= 2 <==> r is Some,
        r matches Some(p) ==> p < 32 && bit32(n, p) && pc32(n) - pc_below32(n, p as nat) == pc32(n)
            / 2 && pc_below32(n, p as nat) == pc32(n) - pc32(n) / 2,
        r matches Some(p) ==> (if pc32(n) % 2 == 0 {
            pc_below32(n, p as nat) == pc32(n) - pc_below32(n, p as nat)
        } else {
            pc_below32(n, p as nat) == pc32(n) - pc_below32(n, p as nat) + 1
        }),
{
    let mut count: u32 = 0;
    let mut k: u32 = 0;
    while k < 32
        invariant
            k <= 32,
            count == pc_below32(n, k as nat),
        decreases 32 - k,
    {
        proof {
            lemma_pc_below32_le(n, k as nat);
        }
        if (n >> k) & 1u32 == 1u32 {
            count = count + 1;
        }
        k = k + 1;
    }
    if count <= 1 {
        return None;
    }
    let m: u32 = count / 2;
    let mut high: u32 = 0;
    let mut p: u32 = 32;
    while p > 0
        invariant
            p <= 32,
            count == pc32(n),
            count >= 2,
            m == count / 2,
            m >= 1,
            high == pc32(n) - pc_below32(n, p as nat),
            high < m,
        decreases p,
    {
        p = p - 1;
        proof {
            lemma_pc_below32_le(n, p as nat);
        }
        if (n >> p) & 1u32 == 1u32 {
            high = high + 1;
            if high == m {
                return Some(p);
            }
        }
    }
    assert(false);
    None
}

/// Finds the highest bit that splits the set bits of a word to
/// half, rounding up; `None` when the word has one or zero set bits.
pub fn average_ones(n: u64) -> (r: Option<u64>)
    ensures
        pc64(n) >= 2 <==> r is Some,
        r matches Some(p) ==> p < 64 && bit64(n, p) && pc64(n) - pc_below(n, p as nat) == pc64(n)
            / 2 && pc_below(n, p as nat) == pc64(n) - pc64(n) / 2,
        r matches Some(p) ==> (if pc64(n) % 2 == 0 {
            pc_below(n, p as nat) == pc64(n) - pc_below(n, p as nat)
        } else {
            pc_below(n, p as nat) == pc64(n) - pc_below(n, p as nat) + 1
        }),
{
    average_ones_u64(n)
}

} // verus!
