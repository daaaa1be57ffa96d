//! The sequential iterator over a layer view: a cursor of four mask words
//! and three prefixes that descends the hierarchy and emits the set
//! indices in ascending order.

use vstd::prelude::*;

pub mod drain;
pub mod parallel;

verus! {

use crate::util::{bit64, pc64, Index, lemma_bit_bounds, lemma_bit_clear_single,
lemma_aligned_or_u32, lemma_div_chain, lemma_pc_below_clear};
use crate::{BitSetLike, view_contains, spec_from_layer, summaries_complete};
use vstd::std_specs::bits::{u64_trailing_zeros, axiom_u64_trailing_zeros};

/// An iterator over a [`BitSetLike`] structure.
///
/// The cursor keeps one mask word per layer, holding the bits that are
/// still to be visited there, and for each of the three lower layers the
/// prefix of the index range that its mask word came from.
#[derive(Debug, Clone)]
pub struct BitIter<T> {
    /// The layer view being iterated.
    pub set: T,
    /// The unvisited bits, one word per layer.
    pub masks: [u64; 4],
    /// The index prefixes of the words the three lower masks were read from.
    pub prefix: [u32; 3],
}

/// What one step of the descent reports: the layer word was empty, the
/// cursor descended one layer, or an index is ready.
pub(crate) enum State {
    Empty,
    Continue,
    Value(Index),
}

/// The three prefixes are row-aligned and within the key space.
pub open spec fn prefix_bounds<T>(c: BitIter<T>) -> bool {
    &&& c.prefix@[0] % 64 == 0 && c.prefix@[0] < 0x1000000
    &&& c.prefix@[1] % 64 == 0 && c.prefix@[1] < 0x40000
    &&& c.prefix@[2] % 64 == 0 && c.prefix@[2] < 0x1000
}

/// The cursor invariant: prefixes are in range, and whenever a lower
/// layer is still being walked, every unvisited bit of a higher layer
/// lies strictly beyond the rows the lower layers are walking.  This is
/// what makes the emitted indices ascend.
pub open spec fn cursor_inv<T: BitSetLike>(c: BitIter<T>) -> bool {
    let m0 = c.masks@[0];
    let m1 = c.masks@[1];
    let m2 = c.masks@[2];
    let m3 = c.masks@[3];
    let p0 = c.prefix@[0] as int;
    let p1 = c.prefix@[1] as int;
    let p2 = c.prefix@[2] as int;
    &&& prefix_bounds(c)
    &&& (m0 != 0 ==> forall|b: u64| b < 64 && #[trigger] bit64(m1, b) ==> p0 / 64 < p1 + b)
    &&& (m1 != 0 ==> forall|b: u64| b < 64 && #[trigger] bit64(m2, b) ==> p1 / 64 < p2 + b)
    &&& (m0 != 0 ==> forall|b: u64| b < 64 && #[trigger] bit64(m2, b) ==> p0 / 4096 < p2 + b)
    &&& (m2 != 0 ==> forall|b: u64| b < 64 && #[trigger] bit64(m3, b) ==> p2 / 64 < b)
    &&& (m1 != 0 ==> forall|b: u64| b < 64 && #[trigger] bit64(m3, b) ==> p1 / 4096 < b)
    &&& (m0 != 0 ==> forall|b: u64| b < 64 && #[trigger] bit64(m3, b) ==> p0 / 0x40000 < b)
}

/// Index `i` will still come out of the layer-0 mask.
pub open spec fn zone0<T: BitSetLike>(c: BitIter<T>, i: int) -> bool {
    i / 64 == c.prefix@[0] as int / 64 && bit64(c.masks@[0], (i % 64) as u64)
}

/// Index `i` will still come out of a descent from the layer-1 mask.
pub open spec fn zone1<T: BitSetLike>(c: BitIter<T>, i: int) -> bool {
    &&& i / 4096 == c.prefix@[1] as int / 64
    &&& bit64(c.masks@[1], ((i / 64) % 64) as u64)
    &&& bit64(c.set.spec_layer0(i / 64), (i % 64) as u64)
}

/// Index `i` will still come out of a descent from the layer-2 mask.
pub open spec fn zone2<T: BitSetLike>(c: BitIter<T>, i: int) -> bool {
    &&& i / 0x40000 == c.prefix@[2] as int / 64
    &&& bit64(c.masks@[2], ((i / 4096) % 64) as u64)
    &&& bit64(c.set.spec_layer1(i / 4096), ((i / 64) % 64) as u64)
    &&& bit64(c.set.spec_layer0(i / 64), (i % 64) as u64)
}

/// Index `i` will still come out of a descent from the layer-3 mask.
pub open spec fn zone3<T: BitSetLike>(c: BitIter<T>, i: int) -> bool {
    &&& bit64(c.masks@[3], (i / 0x40000) as u64)
    &&& bit64(c.set.spec_layer2(i / 0x40000), ((i / 4096) % 64) as u64)
    &&& bit64(c.set.spec_layer1(i / 4096), ((i / 64) % 64) as u64)
    &&& bit64(c.set.spec_layer0(i / 64), (i % 64) as u64)
}

/// The indices the cursor has yet to emit.
pub open spec fn in_rem<T: BitSetLike>(c: BitIter<T>, i: int) -> bool {
    &&& 0 <= i < 0x1000000
    &&& (zone0(c, i) || zone1(c, i) || zone2(c, i) || zone3(c, i))
}

/// The word with the lowest set bit of `m` cleared.
pub open spec fn clear_lowest(m: u64) -> u64 {
    m & !(1u64 << (u64_trailing_zeros(m) as u64))
}

/// The row index that a descent at `level` loads: the prefix there joined
/// with the lowest unvisited bit.
pub open spec fn descend_idx<T>(c: BitIter<T>, level: int) -> int {
    (if level < 3 {
        c.prefix@[level] as int
    } else {
        0
    }) + u64_trailing_zeros(c.masks@[level]) as int
}

/// The next index the cursor emits when its layer-0 mask is non-empty.
pub open spec fn emit_value<T>(c: BitIter<T>) -> int {
    c.prefix@[0] as int + u64_trailing_zeros(c.masks@[0]) as int
}

/// The mask words of `c` hold fewer bits than those of `d`, compared
/// from the top layer down; every step of the cursor shrinks this
/// order, which bounds the work of iteration.
pub open spec fn lex_lt<T>(c: BitIter<T>, d: BitIter<T>) -> bool {
    ||| pc64(c.masks@[3]) < pc64(d.masks@[3])
    ||| (pc64(c.masks@[3]) == pc64(d.masks@[3]) && pc64(c.masks@[2]) < pc64(d.masks@[2]))
    ||| (pc64(c.masks@[3]) == pc64(d.masks@[3]) && pc64(c.masks@[2]) == pc64(d.masks@[2]) && pc64(
        c.masks@[1],
    ) < pc64(d.masks@[1]))
    ||| (pc64(c.masks@[3]) == pc64(d.masks@[3]) && pc64(c.masks@[2]) == pc64(d.masks@[2]) && pc64(
        c.masks@[1],
    ) == pc64(d.masks@[1]) && pc64(c.masks@[0]) < pc64(d.masks@[0]))
}

/// `(d*q + r) / d == q` for remainders inside one row.
pub proof fn lemma_mul_div(q: int, r: int, d: int)
    by (nonlinear_arith)
    requires
        d > 0,
        0 <= r < d,
    ensures
        (d * q + r) / d == q,
        (d * q + r) % d == r,
{
}

/// A fresh cursor over a view with complete summaries has exactly the
/// view's members below `64^4` left to emit.
pub proof fn lemma_fresh_cursor<T: BitSetLike>(c: BitIter<T>)
    requires
        c.masks@[0] == 0,
        c.masks@[1] == 0,
        c.masks@[2] == 0,
        c.masks@[3] == c.set.spec_layer3(),
        c.prefix@[0] == 0,
        c.prefix@[1] == 0,
        c.prefix@[2] == 0,
    ensures
        cursor_inv(c),
        summaries_complete(c.set) ==> forall|j: int|
            in_rem(c, j) <==> (0 <= j < 0x1000000 && view_contains(c.set, j)),
{
    lemma_bit_bounds(0u64);
    if summaries_complete(c.set) {
        assert forall|j: int|
            in_rem(c, j) <==> (0 <= j < 0x1000000 && view_contains(c.set, j)) by {
            if 0 <= j < 0x1000000 {
                lemma_div_chain(j);
                assert(!zone0(c, j) && !zone1(c, j) && !zone2(c, j));
                if view_contains(c.set, j) {
                    lemma_bit_bounds(c.set.spec_layer0(j / 64));
                    assert(c.set.spec_layer0(j / 64) != 0);
                    assert(bit64(c.set.spec_layer1(j / 4096), ((j / 64) % 64) as u64));
                    lemma_bit_bounds(c.set.spec_layer1(j / 4096));
                    assert(bit64(c.set.spec_layer2(j / 0x40000), ((j / 4096) % 64) as u64));
                    lemma_bit_bounds(c.set.spec_layer2(j / 0x40000));
                    assert(bit64(c.set.spec_layer3(), (j / 0x40000) as u64));
                    assert(zone3(c, j));
                }
            }
        }
    }
}

/// A cursor whose four masks are empty has nothing left to emit.
pub proof fn lemma_exhausted<T: BitSetLike>(c: BitIter<T>)
    requires
        c.masks@[0] == 0,
        c.masks@[1] == 0,
        c.masks@[2] == 0,
        c.masks@[3] == 0,
    ensures
        forall|j: int| !in_rem(c, j),
{
    lemma_bit_bounds(0u64);
}

/// Emitting from the layer-0 mask: the emitted index was remaining, was
/// the least remaining index, and exactly it has been removed.
pub proof fn lemma_emit<T: BitSetLike>(pre: BitIter<T>, post: BitIter<T>)
    requires
        cursor_inv(pre),
        pre.masks@[0] != 0,
        post.set == pre.set,
        post.masks@ == pre.masks@.update(0, clear_lowest(pre.masks@[0])),
        post.prefix@ == pre.prefix@,
    ensures
        cursor_inv(post),
        0 <= emit_value(pre) < 0x1000000,
        in_rem(pre, emit_value(pre)),
        forall|j: int| in_rem(post, j) <==> (in_rem(pre, j) && j != emit_value(pre)),
        forall|j: int| in_rem(pre, j) ==> emit_value(pre) <= j,
        pc64(post.masks@[0]) < pc64(pre.masks@[0]),
{
    let m0 = pre.masks@[0];
    let b = u64_trailing_zeros(m0) as u64;
    let p0 = pre.prefix@[0] as int;
    let v = emit_value(pre);
    axiom_u64_trailing_zeros(m0);
    lemma_bit_clear_single(m0, b);
    lemma_pc_below_clear(m0, b, 64);
    lemma_mul_div(p0 / 64, b as int, 64);
    assert(p0 == 64 * (p0 / 64)) by {
        lemma_div_chain(p0);
    }
    assert(v / 64 == p0 / 64 && v % 64 == b as int);
    assert(in_rem(pre, v)) by {
        assert(zone0(pre, v));
    }
    // the bits above the masks in play only move strictly upward
    assert(cursor_inv(post)) by {
        lemma_bit_bounds(post.masks@[0]);
    }
    assert forall|j: int| in_rem(post, j) <==> (in_rem(pre, j) && j != v) by {
        if 0 <= j < 0x1000000 {
            lemma_div_chain(j);
            assert(zone1(post, j) == zone1(pre, j));
            assert(zone2(post, j) == zone2(pre, j));
            assert(zone3(post, j) == zone3(pre, j));
            if j / 64 == p0 / 64 {
                assert(j == 64 * (j / 64) + j % 64);
                assert(zone0(post, j) == (zone0(pre, j) && j % 64 != b as int));
                if j != v && j % 64 == b as int {
                    assert(j == 64 * (p0 / 64) + b as int && v == 64 * (p0 / 64) + b as int);
                }
                if zone1(pre, j) {
                    // zone 1 rows lie strictly above the current row
                    assert(bit64(pre.masks@[1], ((j / 64) % 64) as u64));
                    assert(p0 / 64 < pre.prefix@[1] as int + (j / 64) % 64);
                    assert(j / 4096 == pre.prefix@[1] as int / 64);
                    assert(j / 64 == 64 * (j / 4096) + (j / 64) % 64);
                    assert(pre.prefix@[1] as int == 64 * (pre.prefix@[1] as int / 64)) by {
                        lemma_div_chain(pre.prefix@[1] as int);
                    }
                    assert(false);
                }
                if zone2(pre, j) {
                    assert(bit64(pre.masks@[2], ((j / 4096) % 64) as u64));
                    assert(p0 / 4096 < pre.prefix@[2] as int + (j / 4096) % 64);
                    assert(j / 0x40000 == pre.prefix@[2] as int / 64);
                    assert(j / 4096 == 64 * (j / 0x40000) + (j / 4096) % 64);
                    assert(pre.prefix@[2] as int == 64 * (pre.prefix@[2] as int / 64)) by {
                        lemma_div_chain(pre.prefix@[2] as int);
                    }
                    assert(p0 / 4096 == (p0 / 64) / 64 && j / 4096 == (j / 64) / 64) by {
                        lemma_div_chain(p0);
                        lemma_div_chain(j);
                    }
                    assert(false) by {
                        lemma_mul_div(j / 4096, 0, 1);
                        assert(j / 4096 >= pre.prefix@[2] as int + (j / 4096) % 64);
                        assert(j / 4096 > p0 / 4096);
                        assert((j / 64) / 64 > (p0 / 64) / 64);
                        assert(j / 64 == p0 / 64);
                    }
                }
                if zone3(pre, j) {
                    assert(bit64(pre.masks@[3], (j / 0x40000) as u64));
                    assert(p0 / 0x40000 < j / 0x40000);
                    assert(p0 / 0x40000 == (p0 / 64) / 4096 && j / 0x40000 == (j / 64) / 4096) by {
                        lemma_div_chain(p0);
                        lemma_div_chain(j);
                    }
                    assert(false);
                }
            } else {
                assert(zone0(post, j) == zone0(pre, j));
                if j == v {
                    assert(false);
                }
            }
        }
    }
    assert forall|j: int| in_rem(pre, j) implies v <= j by {
        lemma_div_chain(j);
        assert(j == 64 * (j / 64) + j % 64);
        assert(v == 64 * (p0 / 64) + b as int);
        if zone0(pre, j) {
            // within the current row, `b` is the lowest unvisited bit
            assert(j % 64 >= b as int) by {
                if j % 64 < b as int {
                    assert(!bit64(m0, (j % 64) as u64));
                }
            }
        }
        if zone1(pre, j) {
            assert(p0 / 64 < pre.prefix@[1] as int + (j / 64) % 64);
            assert(j / 64 == 64 * (j / 4096) + (j / 64) % 64);
            assert(pre.prefix@[1] as int == 64 * (pre.prefix@[1] as int / 64)) by {
                lemma_div_chain(pre.prefix@[1] as int);
            }
            assert(j / 64 > p0 / 64);
        }
        if zone2(pre, j) {
            assert(p0 / 4096 < pre.prefix@[2] as int + (j / 4096) % 64);
            assert(j / 4096 == 64 * (j / 0x40000) + (j / 4096) % 64);
            assert(pre.prefix@[2] as int == 64 * (pre.prefix@[2] as int / 64)) by {
                lemma_div_chain(pre.prefix@[2] as int);
            }
            assert(j / 4096 > p0 / 4096);
            assert(p0 / 4096 == (p0 / 64) / 64 && j / 4096 == (j / 64) / 64) by {
                lemma_div_chain(p0);
                lemma_div_chain(j);
            }
            assert(j / 64 > p0 / 64) by (nonlinear_arith)
                requires
                    (j / 64) / 64 > (p0 / 64) / 64,
                    j >= 0,
                    p0 >= 0,
            ;
        }
        if zone3(pre, j) {
            assert(p0 / 0x40000 < j / 0x40000);
            assert(p0 / 0x40000 == (p0 / 64) / 4096 && j / 0x40000 == (j / 64) / 4096) by {
                lemma_div_chain(p0);
                lemma_div_chain(j);
            }
            assert(j / 64 > p0 / 64) by (nonlinear_arith)
                requires
                    (j / 64) / 4096 > (p0 / 64) / 4096,
                    j >= 0,
                    p0 >= 0,
            ;
        }
    }
}

/// Descending one layer: the loaded row is the lowest unvisited bit of
/// the layer, and the set of remaining indices does not change.
pub proof fn lemma_descend<T: BitSetLike>(pre: BitIter<T>, post: BitIter<T>, level: int)
    requires
        1 <= level <= 3,
        cursor_inv(pre),
        forall|k: int| 0 <= k < level ==> pre.masks@[k] == 0,
        pre.masks@[level] != 0,
        post.set == pre.set,
        post.masks@ == pre.masks@.update(level, clear_lowest(pre.masks@[level])).update(
            level - 1,
            spec_from_layer(pre.set, level - 1, descend_idx(pre, level)),
        ),
        post.prefix@ == pre.prefix@.update(level - 1, (descend_idx(pre, level) * 64) as u32),
    ensures
        cursor_inv(post),
        forall|j: int| in_rem(post, j) <==> in_rem(pre, j),
        pc64(post.masks@[level]) < pc64(pre.masks@[level]),
        forall|k: int| level < k <= 3 ==> post.masks@[k] == pre.masks@[k],
    {
    let m = pre.masks@[level];
    let b = u64_trailing_zeros(m) as u64;
    let pfx = if level < 3 {
        pre.prefix@[level] as int
    } else {
        0
    };
    let idx = descend_idx(pre, level);
    axiom_u64_trailing_zeros(m);
    lemma_bit_clear_single(m, b);
    lemma_pc_below_clear(m, b, 64);
    lemma_bit_bounds(0u64);
    assert(pfx % 64 == 0 && idx == pfx + b);
    assert(pfx == 64 * (pfx / 64)) by {
        lemma_div_chain(pfx);
    }
    lemma_mul_div(pfx / 64, b as int, 64);
    assert(idx / 64 == pfx / 64 && idx % 64 == b as int);
    assert((idx * 64) as u32 == idx * 64 && (idx * 64) / 64 == idx && (idx * 64) % 64 == 0) by {
        lemma_mul_div(idx, 0, 64);
        if level == 1 {
            assert(idx < 0x40000);
        } else if level == 2 {
            assert(idx < 0x1000);
        } else {
            assert(idx < 64);
        }
    }
    if level == 1 {
        lemma_descend_zones1(pre, post);
    } else if level == 2 {
        lemma_descend_zones2(pre, post);
    } else {
        lemma_descend_zones3(pre, post);
    }
}

/// The zone bookkeeping of a descent from layer 1 to layer 0.
proof fn lemma_descend_zones1<T: BitSetLike>(pre: BitIter<T>, post: BitIter<T>)
    requires
        cursor_inv(pre),
        pre.masks@[0] == 0,
        pre.masks@[1] != 0,
        post.set == pre.set,
        post.masks@ == pre.masks@.update(1, clear_lowest(pre.masks@[1])).update(
            0,
            spec_from_layer(pre.set, 0, descend_idx(pre, 1)),
        ),
        post.prefix@ == pre.prefix@.update(0, (descend_idx(pre, 1) * 64) as u32),
        descend_idx(pre, 1) == pre.prefix@[1] as int + u64_trailing_zeros(pre.masks@[1]) as int,
        (descend_idx(pre, 1) * 64) as u32 == descend_idx(pre, 1) * 64,
        descend_idx(pre, 1) < 0x40000,
    ensures
        cursor_inv(post),
        forall|j: int| in_rem(post, j) <==> in_rem(pre, j),
{
    let m1 = pre.masks@[1];
    let b = u64_trailing_zeros(m1) as u64;
    let p1 = pre.prefix@[1] as int;
    let idx = descend_idx(pre, 1);
    let p0n = idx * 64;
    axiom_u64_trailing_zeros(m1);
    lemma_bit_clear_single(m1, b);
    lemma_bit_bounds(0u64);
    lemma_mul_div(idx, 0, 64);
    lemma_div_chain(p1);
    lemma_mul_div(p1 / 64, b as int, 64);
    assert(p0n / 64 == idx && p0n % 64 == 0);
    assert(idx / 64 == p1 / 64 && idx % 64 == b as int);
    // the new cursor invariant
    assert(cursor_inv(post)) by {
        assert(p0n / 4096 == p1 / 64) by {
            lemma_div_chain(p0n);
            assert(p0n / 4096 == (p0n / 64) / 64);
        }
        assert(p0n / 0x40000 == p1 / 4096) by {
            lemma_div_chain(p0n);
            lemma_div_chain(p1);
            assert(p0n / 0x40000 == (p0n / 64) / 4096 && (p0n / 64) / 4096 == ((p0n / 64) / 64)
                / 64);
            assert(p1 / 4096 == (p1 / 64) / 64);
        }
        assert forall|bb: u64|
            bb < 64 && #[trigger] bit64(post.masks@[1], bb) implies p0n / 64 < p1 + bb by {
            assert(bit64(m1, bb) && bb != b);
            assert(bb > b) by {
                if bb < b {
                    assert(!bit64(m1, bb));
                }
            }
        }
    }
    assert forall|j: int| in_rem(post, j) <==> in_rem(pre, j) by {
        if 0 <= j < 0x1000000 {
            lemma_div_chain(j);
            assert(j == 64 * (j / 64) + j % 64 && j / 64 == 64 * (j / 4096) + (j / 64) % 64);
            assert(zone2(post, j) == zone2(pre, j));
            assert(zone3(post, j) == zone3(pre, j));
            assert(!zone0(pre, j));
            // the old zone 1 splits into the new zone 0 and the new zone 1
            if j / 64 == idx {
                assert(j / 4096 == p1 / 64 && (j / 64) % 64 == b as int) by {
                    lemma_mul_div(j / 4096, (j / 64) % 64, 64);
                }
                assert(zone0(post, j) == zone1(pre, j));
                assert(!zone1(post, j));
            } else {
                assert(!zone0(post, j)) by {
                    if j / 64 == post.prefix@[0] as int / 64 {
                        assert(j / 64 == idx);
                    }
                }
                if j / 4096 == p1 / 64 && (j / 64) % 64 == b as int {
                    assert(j / 64 == 64 * (p1 / 64) + b as int);
                    assert(idx == p1 + b as int && p1 == 64 * (p1 / 64));
                    assert(false);
                }
                assert(zone1(post, j) == zone1(pre, j));
            }
        }
    }
}

/// The zone bookkeeping of a descent from layer 2 to layer 1.
proof fn lemma_descend_zones2<T: BitSetLike>(pre: BitIter<T>, post: BitIter<T>)
    requires
        cursor_inv(pre),
        pre.masks@[0] == 0,
        pre.masks@[1] == 0,
        pre.masks@[2] != 0,
        post.set == pre.set,
        post.masks@ == pre.masks@.update(2, clear_lowest(pre.masks@[2])).update(
            1,
            spec_from_layer(pre.set, 1, descend_idx(pre, 2)),
        ),
        post.prefix@ == pre.prefix@.update(1, (descend_idx(pre, 2) * 64) as u32),
        descend_idx(pre, 2) == pre.prefix@[2] as int + u64_trailing_zeros(pre.masks@[2]) as int,
        (descend_idx(pre, 2) * 64) as u32 == descend_idx(pre, 2) * 64,
        descend_idx(pre, 2) < 0x1000,
    ensures
        cursor_inv(post),
        forall|j: int| in_rem(post, j) <==> in_rem(pre, j),
{
    let m2 = pre.masks@[2];
    let b = u64_trailing_zeros(m2) as u64;
    let p2 = pre.prefix@[2] as int;
    let idx = descend_idx(pre, 2);
    let p1n = idx * 64;
    axiom_u64_trailing_zeros(m2);
    lemma_bit_clear_single(m2, b);
    lemma_bit_bounds(0u64);
    lemma_mul_div(idx, 0, 64);
    lemma_div_chain(p2);
    lemma_mul_div(p2 / 64, b as int, 64);
    assert(p1n / 64 == idx && p1n % 64 == 0);
    assert(idx / 64 == p2 / 64 && idx % 64 == b as int);
    assert(cursor_inv(post)) by {
        assert(p1n / 4096 == p2 / 64) by {
            lemma_div_chain(p1n);
            assert(p1n / 4096 == (p1n / 64) / 64);
        }
        assert forall|bb: u64|
            bb < 64 && #[trigger] bit64(post.masks@[2], bb) implies p1n / 64 < p2 + bb by {
            assert(bit64(m2, bb) && bb != b);
            assert(bb > b) by {
                if bb < b {
                    assert(!bit64(m2, bb));
                }
            }
        }
    }
    assert forall|j: int| in_rem(post, j) <==> in_rem(pre, j) by {
        if 0 <= j < 0x1000000 {
            lemma_div_chain(j);
            assert(j / 64 == 64 * (j / 4096) + (j / 64) % 64 && j / 4096 == 64 * (j / 0x40000) + (j
                / 4096) % 64);
            assert(zone3(post, j) == zone3(pre, j));
            assert(!zone0(pre, j) && !zone1(pre, j));
            assert(!zone0(post, j));
            if j / 4096 == idx {
                assert(j / 0x40000 == p2 / 64 && (j / 4096) % 64 == b as int) by {
                    lemma_mul_div(j / 0x40000, (j / 4096) % 64, 64);
                }
                assert(zone1(post, j) == zone2(pre, j));
                assert(!zone2(post, j));
            } else {
                assert(!zone1(post, j)) by {
                    if j / 4096 == post.prefix@[1] as int / 64 {
                        assert(j / 4096 == idx);
                    }
                }
                if j / 0x40000 == p2 / 64 && (j / 4096) % 64 == b as int {
                    assert(j / 4096 == 64 * (p2 / 64) + b as int);
                    assert(idx == p2 + b as int && p2 == 64 * (p2 / 64));
                    assert(false);
                }
                assert(zone2(post, j) == zone2(pre, j));
            }
        }
    }
}

/// The zone bookkeeping of a descent from layer 3 to layer 2.
proof fn lemma_descend_zones3<T: BitSetLike>(pre: BitIter<T>, post: BitIter<T>)
    requires
        cursor_inv(pre),
        pre.masks@[0] == 0,
        pre.masks@[1] == 0,
        pre.masks@[2] == 0,
        pre.masks@[3] != 0,
        post.set == pre.set,
        post.masks@ == pre.masks@.update(3, clear_lowest(pre.masks@[3])).update(
            2,
            spec_from_layer(pre.set, 2, descend_idx(pre, 3)),
        ),
        post.prefix@ == pre.prefix@.update(2, (descend_idx(pre, 3) * 64) as u32),
        descend_idx(pre, 3) == u64_trailing_zeros(pre.masks@[3]) as int,
        (descend_idx(pre, 3) * 64) as u32 == descend_idx(pre, 3) * 64,
        descend_idx(pre, 3) < 64,
    ensures
        cursor_inv(post),
        forall|j: int| in_rem(post, j) <==> in_rem(pre, j),
{
    let m3 = pre.masks@[3];
    let b = u64_trailing_zeros(m3) as u64;
    let idx = descend_idx(pre, 3);
    let p2n = idx * 64;
    axiom_u64_trailing_zeros(m3);
    lemma_bit_clear_single(m3, b);
    lemma_bit_bounds(0u64);
    lemma_mul_div(idx, 0, 64);
    assert(p2n / 64 == idx && p2n % 64 == 0);
    assert(cursor_inv(post)) by {
        assert forall|bb: u64|
            bb < 64 && #[trigger] bit64(post.masks@[3], bb) implies p2n / 64 < bb by {
            assert(bit64(m3, bb) && bb != b);
            assert(bb > b) by {
                if bb < b {
                    assert(!bit64(m3, bb));
                }
            }
        }
    }
    assert forall|j: int| in_rem(post, j) <==> in_rem(pre, j) by {
        if 0 <= j < 0x1000000 {
            lemma_div_chain(j);
            assert(j / 4096 == 64 * (j / 0x40000) + (j / 4096) % 64);
            assert(!zone0(pre, j) && !zone1(pre, j) && !zone2(pre, j));
            assert(!zone0(post, j) && !zone1(post, j));
            if j / 0x40000 == idx {
                assert(zone2(post, j) == zone3(pre, j)) by {
                    assert((j / 0x40000) as u64 == b);
                }
                assert(!zone3(post, j));
            } else {
                assert(!zone2(post, j)) by {
                    if j / 0x40000 == post.prefix@[2] as int / 64 {
                        assert(j / 0x40000 == idx);
                    }
                }
                assert(zone3(post, j) == zone3(pre, j));
            }
        }
    }
}

impl<T> BitIter<T> {
    /// Creates a new `BitIter`.  Usually one calls `iter` on a bit set
    /// instead.
    pub fn new(set: T, masks: [u64; 4], prefix: [u32; 3]) -> (r: Self)
        ensures
            r.set == set,
            r.masks@ == masks@,
            r.prefix@ == prefix@,
    {
        BitIter { set, masks, prefix }
    }
}

impl<T: BitSetLike> BitIter<T> {
    /// Allows checking if a bit is contained in the underlying bit set.
    pub fn contains(&self, i: Index) -> (r: bool)
        ensures
            r == view_contains(self.set, i as int),
    {
        self.set.contains(i)
    }

    /// One step of the hierarchical descent at the given layer: reports
    /// `Empty` for an exhausted mask word; otherwise takes the lowest
    /// unvisited bit and either emits it (layer 0) or loads the row it
    /// names from the layer below.
    pub(crate) fn handle_level(&mut self, level: usize) -> (s: State)
        requires
            level < 4,
            prefix_bounds(*old(self)),
        ensures
            final(self).set == old(self).set,
            prefix_bounds(*final(self)),
            old(self).masks@[level as int] == 0 ==> (s matches State::Empty) && *final(self)
                == *old(self),
            old(self).masks@[level as int] != 0 && level == 0 ==> {
                &&& s matches State::Value(v) && v as int == emit_value(*old(self))
                &&& final(self).masks@ == old(self).masks@.update(0, clear_lowest(
                    old(self).masks@[0],
                ))
                &&& final(self).prefix@ == old(self).prefix@
            },
            old(self).masks@[level as int] != 0 && level >= 1 ==> {
                &&& s matches State::Continue
                &&& final(self).masks@ == old(self).masks@.update(
                    level as int,
                    clear_lowest(old(self).masks@[level as int]),
                ).update(
                    level as int - 1,
                    spec_from_layer(old(self).set, level as int - 1, descend_idx(*old(self), level as int)),
                )
                &&& final(self).prefix@ == old(self).prefix@.update(
                    level as int - 1,
                    (descend_idx(*old(self), level as int) * 64) as u32,
                )
                &&& (descend_idx(*old(self), level as int) * 64) as u32 == descend_idx(
                    *old(self),
                    level as int,
                ) * 64
                &&& descend_idx(*old(self), level as int) < if level == 1 {
                    0x40000int
                } else if level == 2 {
                    0x1000int
                } else {
                    64int
                }
            },
    {
        if self.masks[level] == 0 {
            return State::Empty;
        }
        let ghost m = self.masks@[level as int];
        // take the lowest bit that is set, and remove it from the mask
        let first_bit: u32 = self.masks[level].trailing_zeros();
        proof {
            axiom_u64_trailing_zeros(m);
        }
        self.masks[level] = self.masks[level] & !(1u64 << (first_bit as u64));
        // the index of the row it names
        let pfx: u32 = if level < 3 {
            self.prefix[level]
        } else {
            0
        };
        let idx: u32 = pfx | first_bit;
        proof {
            lemma_aligned_or_u32(pfx, first_bit);
        }
        if level == 0 {
            State::Value(idx)
        } else {
            // load the corresponding row of the layer below
            let w = self.set.get_from_layer(level - 1, idx as usize);
            self.masks[level - 1] = w;
            self.prefix[level - 1] = idx << 6u32;
            proof {
                assert(idx << 6u32 == idx * 64) by (bit_vector)
                    requires
                        idx < 0x40000u32,
                ;
            }
            State::Continue
        }
    }

    /// The next index of the set, in ascending order.
    ///
    /// Emits exactly the remaining indices of the cursor, each exactly
    /// once, always the least remaining one; `None` once nothing remains.
    pub fn next(&mut self) -> (r: Option<Index>)
        requires
            cursor_inv(*old(self)),
        ensures
            cursor_inv(*final(self)),
            final(self).set == old(self).set,
            match r {
                Some(v) => {
                    &&& in_rem(*old(self), v as int)
                    &&& forall|j: int|
                        in_rem(*final(self), j) <==> (in_rem(*old(self), j) && j != v as int)
                    &&& forall|j: int| in_rem(*old(self), j) ==> v as int <= j
                    &&& lex_lt(*final(self), *old(self))
                },
                None => {
                    &&& forall|j: int| !in_rem(*old(self), j)
                    &&& forall|j: int| !in_rem(*final(self), j)
                },
            },
    {
        loop
            invariant
                cursor_inv(*self),
                self.set == old(self).set,
                forall|j: int| in_rem(*self, j) <==> in_rem(*old(self), j),
                *self == *old(self) || lex_lt(*self, *old(self)),
            decreases
                    pc64(self.masks@[3]),
                    pc64(self.masks@[2]),
                    pc64(self.masks@[1]),
                    pc64(self.masks@[0]),
        {
            let ghost pre = *self;
            if self.masks[0] != 0 {
                match self.handle_level(0) {
                    State::Value(v) => {
                        proof {
                            lemma_emit(pre, *self);
                        }
                        return Some(v);
                    },
                    _ => {
                        proof {
                            assert(false);
                        }
                    },
                }
            } else if self.masks[1] != 0 {
                self.handle_level(1);
                proof {
                    lemma_descend(pre, *self, 1);
                }
            } else if self.masks[2] != 0 {
                self.handle_level(2);
                proof {
                    lemma_descend(pre, *self, 2);
                }
            } else if self.masks[3] != 0 {
                self.handle_level(3);
                proof {
                    lemma_descend(pre, *self, 3);
                }
            } else {
                proof {
                    lemma_exhausted(*self);
                }
                return None;
            }
        }
    }
}

} // verus!
