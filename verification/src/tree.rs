//! Shared machinery of the complete-binary power-of-two trees.
//!
//! Both trees store their split planes in one dense breadth-first array
//! `tests` of length `n2 - 1`, where `n2` is the number of leaves, a power of
//! two: the node at index `i` has children `2i + 1` and `2i + 2`, the node on
//! the path to leaf `l` at depth `e` is `node_of(l, e, height)`, and a query
//! descends by `height` strict comparisons, going left when the needle
//! coordinate is less than the split value.

use vstd::prelude::*;
use vstd::arithmetic::div_mod::{
    lemma_fundamental_div_mod, lemma_fundamental_div_mod_converse, lemma_div_denominator,
    lemma_div_is_ordered,
};
use crate::geom::{coord_at, iseq, max_i, min_i, pad_pt, pt_at, COORD_INF, MAX_DIMS, PAD_COORD};

verus! {

/// `2^e` as a mathematical integer (1 for non-positive exponents).
pub open spec fn pow2i(e: int) -> int
    decreases e,
{
    if e <= 0 {
        1
    } else {
        2 * pow2i(e - 1)
    }
}

/// Powers of two are positive.
pub proof fn lemma_pow2i_pos(e: int)
    ensures
        pow2i(e) >= 1,
    decreases e,
{
    if e > 0 {
        lemma_pow2i_pos(e - 1);
    }
}

/// Powers of two are monotone in the exponent.
pub proof fn lemma_pow2i_mono(a: int, b: int)
    requires
        a <= b,
    ensures
        pow2i(a) <= pow2i(b),
    decreases b - a,
{
    if a < b {
        lemma_pow2i_mono(a, b - 1);
        lemma_pow2i_pos(b - 1);
    }
}

/// `2^a * 2^b == 2^(a+b)` for non-negative exponents.
pub proof fn lemma_pow2i_adds(a: int, b: int)
    requires
        0 <= a,
        0 <= b,
    ensures
        pow2i(a) * pow2i(b) == pow2i(a + b),
    decreases a,
{
    if a == 0 {
        assert(pow2i(0) * pow2i(b) == pow2i(b)) by (nonlinear_arith)
            requires
                pow2i(0) == 1,
        ;
    } else {
        lemma_pow2i_adds(a - 1, b);
        assert((2 * pow2i(a - 1)) * pow2i(b) == 2 * (pow2i(a - 1) * pow2i(b))) by (nonlinear_arith);
    }
}

/// The index of the node at depth `e` on the path from the root to leaf `l`
/// of a tree with `2^h` leaves.
pub open spec fn node_of(l: int, e: int, h: int) -> int {
    pow2i(e) - 1 + l / pow2i(h - e)
}

/// Which side leaf `l` lies on below the depth-`e` node of its path:
/// 0 for the low (left) child, 1 for the high (right) child.
pub open spec fn side_of(l: int, e: int, h: int) -> int {
    (l / pow2i(h - e - 1)) % 2
}

/// One descent step: go to the left child when the needle coordinate for
/// this level is strictly less than the node's split value.
pub open spec fn descent_step(tests: Seq<i32>, dims: int, needle: Seq<int>, idx: int, level: int) -> int {
    if needle[level % dims] < tests[idx] as int {
        2 * idx + 1
    } else {
        2 * idx + 2
    }
}

/// The node index reached after `i` descent steps from the root.
pub open spec fn descent_idx(tests: Seq<i32>, dims: int, needle: Seq<int>, i: int) -> int
    decreases i,
{
    if i <= 0 {
        0
    } else {
        descent_step(tests, dims, needle, descent_idx(tests, dims, needle, i - 1), i - 1)
    }
}

/// The leaf reached by the full descent of a tree of height `h`.
pub open spec fn descent_leaf(tests: Seq<i32>, dims: int, needle: Seq<int>, h: int) -> int {
    descent_idx(tests, dims, needle, h) - (pow2i(h) - 1)
}

/// After `i` steps the walk sits at the depth-`i` node of the path to the
/// leaf it will finally reach: ranks along the walk are prefixes of the
/// leaf's rank in binary.
pub proof fn lemma_descent_prefix(tests: Seq<i32>, dims: int, needle: Seq<int>, h: int, i: int)
    requires
        dims >= 1,
        0 <= i <= h,
    ensures
        descent_idx(tests, dims, needle, i) == pow2i(i) - 1 + descent_leaf(
            tests,
            dims,
            needle,
            h,
        ) / pow2i(h - i),
        0 <= descent_leaf(tests, dims, needle, h) / pow2i(h - i) < pow2i(i),
    decreases h - i,
{
    let l = descent_leaf(tests, dims, needle, h);
    lemma_descent_bounds(tests, dims, needle, h);
    lemma_pow2i_pos(h);
    if i == h {
        assert(pow2i(0) == 1);
        assert(l / 1 == l);
    } else {
        lemma_descent_prefix(tests, dims, needle, h, i + 1);
        lemma_pow2i_pos(h - i - 1);
        lemma_pow2i_pos(i);
        let r1 = l / pow2i(h - i - 1);
        let idx1 = descent_idx(tests, dims, needle, i + 1);
        let idx0 = descent_idx(tests, dims, needle, i);
        assert(idx1 == descent_step(tests, dims, needle, idx0, i));
        lemma_descent_bounds(tests, dims, needle, i);
        // idx1 == 2 * idx0 + 1 + s with s in {0, 1}
        let s = idx1 - 2 * idx0 - 1;
        assert(0 <= s <= 1);
        // r1 == 2 * (idx0 - (pow2i(i) - 1)) + s
        let r0 = idx0 - (pow2i(i) - 1);
        assert(pow2i(i + 1) == 2 * pow2i(i));
        assert(r1 == 2 * r0 + s);
        // hence r0 == r1 / 2, and l / pow2i(h - i) == (l / pow2i(h-i-1)) / 2
        lemma_fundamental_div_mod_converse(r1, 2, r0, s);
        lemma_div_denominator(l, pow2i(h - i - 1), 2);
        assert(pow2i(h - i - 1) * 2 == pow2i(h - i)) by {
            lemma_pow2i_adds(h - i - 1, 1);
            reveal_with_fuel(pow2i, 3);
        }
        assert(l / pow2i(h - i) == r0);
    }
}

/// The walk stays inside the node range of its depth.
pub proof fn lemma_descent_bounds(tests: Seq<i32>, dims: int, needle: Seq<int>, i: int)
    requires
        dims >= 1,
        0 <= i,
    ensures
        pow2i(i) - 1 <= descent_idx(tests, dims, needle, i) <= 2 * pow2i(i) - 2,
    decreases i,
{
    if i > 0 {
        lemma_descent_bounds(tests, dims, needle, i - 1);
        lemma_pow2i_pos(i - 1);
    }
}

/// The side taken at depth `e` of the walk matches the comparison of the
/// needle against the split value of the path node at depth `e`.
pub proof fn lemma_descent_side(tests: Seq<i32>, dims: int, needle: Seq<int>, h: int, e: int)
    requires
        dims >= 1,
        0 <= e < h,
    ensures
        descent_idx(tests, dims, needle, e) == node_of(
            descent_leaf(tests, dims, needle, h),
            e,
            h,
        ),
        side_of(descent_leaf(tests, dims, needle, h), e, h) == 0 <==> needle[e % dims] < tests[node_of(
            descent_leaf(tests, dims, needle, h),
            e,
            h,
        )] as int,
{
    let l = descent_leaf(tests, dims, needle, h);
    lemma_descent_prefix(tests, dims, needle, h, e);
    lemma_descent_prefix(tests, dims, needle, h, e + 1);
    lemma_pow2i_pos(h - e - 1);
    lemma_pow2i_pos(e);
    let idx0 = descent_idx(tests, dims, needle, e);
    let idx1 = descent_idx(tests, dims, needle, e + 1);
    assert(idx1 == descent_step(tests, dims, needle, idx0, e));
    let s = idx1 - 2 * idx0 - 1;
    assert(0 <= s <= 1);
    let r0 = l / pow2i(h - e);
    let r1 = l / pow2i(h - e - 1);
    assert(pow2i(e + 1) == 2 * pow2i(e));
    assert(r1 == 2 * r0 + s);
    assert(r1 % 2 == s) by {
        lemma_fundamental_div_mod_converse(r1, 2, r0, s);
    }
    assert(side_of(l, e, h) == s);
    assert(s == 0 <==> needle[e % dims] < tests[idx0] as int);
}

/// The leaf index is in range.
pub proof fn lemma_descent_leaf_range(tests: Seq<i32>, dims: int, needle: Seq<int>, h: int)
    requires
        dims >= 1,
        0 <= h,
    ensures
        0 <= descent_leaf(tests, dims, needle, h) < pow2i(h),
{
    lemma_descent_bounds(tests, dims, needle, h);
}

/// All leaves of an aligned block share their quotient by the block size.
pub proof fn lemma_div_in_block(lo: int, size: int, l: int)
    requires
        1 <= size,
        0 <= lo,
        lo % size == 0,
        lo <= l < lo + size,
    ensures
        l / size == lo / size,
{
    lemma_fundamental_div_mod(lo, size);
    let m = lo / size;
    assert(m * size == size * m) by (nonlinear_arith);
    lemma_fundamental_div_mod_converse(l, size, m, l - lo);
    lemma_fundamental_div_mod_converse(lo, size, m, 0);
}

/// Leaves outside an aligned block have a different quotient.
pub proof fn lemma_div_outside_block(lo: int, size: int, l: int)
    requires
        1 <= size,
        0 <= lo,
        0 <= l,
        lo % size == 0,
        l < lo || l >= lo + size,
    ensures
        l / size != lo / size,
{
    lemma_fundamental_div_mod(lo, size);
    vstd::arithmetic::div_mod::lemma_div_pos_is_pos(lo, size);
    let m = lo / size;
    assert(m * size == size * m) by (nonlinear_arith);
    assert((m - 1) * size == m * size - size) by (nonlinear_arith);
    assert((m + 1) * size == m * size + size) by (nonlinear_arith);
    lemma_fundamental_div_mod_converse(lo, size, m, 0);
    if l < lo {
        if m >= 1 {
            lemma_fundamental_div_mod(l, size);
            lemma_div_is_ordered(l, lo - 1, size);
            lemma_fundamental_div_mod_converse(lo - 1, size, m - 1, size - 1);
        } else {
            assert(m == 0);
            assert(lo == size * m + lo % size);
            assert(size * m == 0) by (nonlinear_arith)
                requires
                    m == 0,
            ;
            assert(lo == 0);
            assert(false);
        }
    } else {
        lemma_div_is_ordered(lo + size, l, size);
        lemma_fundamental_div_mod_converse(lo + size, size, m + 1, 0);
    }
}

/// An aligned block splits into two aligned half blocks, and the path nodes
/// of its leaves at the split depth are the two children of the block's node.
pub proof fn lemma_block_split(lo: int, d: int, h: int)
    requires
        0 <= d < h,
        0 <= lo,
        lo % pow2i(h - d) == 0,
    ensures
        lo % pow2i(h - d - 1) == 0,
        (lo + pow2i(h - d - 1)) % pow2i(h - d - 1) == 0,
        lo / pow2i(h - d - 1) == 2 * (lo / pow2i(h - d)),
        (lo + pow2i(h - d - 1)) / pow2i(h - d - 1) == 2 * (lo / pow2i(h - d)) + 1,
        node_of(lo, d + 1, h) == 2 * node_of(lo, d, h) + 1,
        node_of(lo + pow2i(h - d - 1), d + 1, h) == 2 * node_of(lo, d, h) + 2,
{
    let half = pow2i(h - d - 1);
    lemma_pow2i_pos(h - d - 1);
    assert(pow2i(h - d) == 2 * half);
    lemma_fundamental_div_mod(lo, 2 * half);
    let m = lo / (2 * half);
    assert(lo == 2 * half * m) by (nonlinear_arith)
        requires
            lo == (2 * half) * m + lo % (2 * half),
            lo % (2 * half) == 0,
    ;
    assert(lo == (2 * m) * half) by (nonlinear_arith)
        requires
            lo == 2 * half * m,
    ;
    lemma_fundamental_div_mod_converse(lo, half, 2 * m, 0);
    assert((lo + half) == (2 * m + 1) * half) by (nonlinear_arith)
        requires
            lo == (2 * m) * half,
    ;
    lemma_fundamental_div_mod_converse(lo + half, half, 2 * m + 1, 0);
    assert(pow2i(d + 1) == 2 * pow2i(d));
}

/// Every leaf of an aligned block passes through the block's node at the
/// block's depth.
pub proof fn lemma_node_of_block(lo: int, l: int, d: int, h: int)
    requires
        0 <= d <= h,
        0 <= lo,
        lo % pow2i(h - d) == 0,
        lo <= l < lo + pow2i(h - d),
    ensures
        node_of(l, d, h) == node_of(lo, d, h),
    decreases h - d,
{
    lemma_pow2i_pos(h - d);
    lemma_div_in_block(lo, pow2i(h - d), l);
}

/// A leaf outside an aligned block never passes through the block's node.
pub proof fn lemma_node_of_outside(lo: int, l: int, d: int, h: int)
    requires
        0 <= d <= h,
        0 <= lo,
        0 <= l,
        lo % pow2i(h - d) == 0,
        l < lo || l >= lo + pow2i(h - d),
    ensures
        node_of(l, d, h) != node_of(lo, d, h),
{
    lemma_pow2i_pos(h - d);
    lemma_div_outside_block(lo, pow2i(h - d), l);
}

/// Path nodes of distinct depths live in distinct index bands.
pub proof fn lemma_node_bands(l1: int, e1: int, l2: int, e2: int, h: int)
    requires
        0 <= e1 < e2 <= h,
        0 <= l1 < pow2i(h),
        0 <= l2 < pow2i(h),
    ensures
        node_of(l1, e1, h) < node_of(l2, e2, h),
{
    lemma_pow2i_pos(h - e1);
    lemma_pow2i_pos(h - e2);
    lemma_node_range(l1, e1, h);
    lemma_node_range(l2, e2, h);
    lemma_pow2i_mono(e1 + 1, e2);
    assert(pow2i(e1 + 1) == 2 * pow2i(e1));
    assert(node_of(l1, e1, h) < pow2i(e1 + 1) - 1);
    assert(node_of(l2, e2, h) >= pow2i(e2) - 1);
}

/// A path node of depth `e` lies in the depth-`e` index band.
pub proof fn lemma_node_range(l: int, e: int, h: int)
    requires
        0 <= e <= h,
        0 <= l < pow2i(h),
    ensures
        pow2i(e) - 1 <= node_of(l, e, h) < 2 * pow2i(e) - 1,
{
    let s = pow2i(h - e);
    lemma_pow2i_pos(h - e);
    lemma_pow2i_pos(e);
    vstd::arithmetic::div_mod::lemma_div_pos_is_pos(l, s);
    let q = l / s;
    assert(q < pow2i(e)) by {
        lemma_pow2i_adds(e, h - e);
        if q >= pow2i(e) {
            lemma_fundamental_div_mod(l, s);
            vstd::arithmetic::div_mod::lemma_mod_bound(l, s);
            vstd::arithmetic::mul::lemma_mul_left_inequality(s, pow2i(e), q);
            vstd::arithmetic::mul::lemma_mul_is_commutative(s, pow2i(e));
            assert(false);
        }
    }
}

/// Leaves of the low half of an aligned block take the low side at the
/// block's depth; leaves of the high half the high side.
pub proof fn lemma_side_of_block(lo: int, l: int, d: int, h: int)
    requires
        0 <= d < h,
        0 <= lo,
        lo % pow2i(h - d) == 0,
        lo <= l < lo + pow2i(h - d),
    ensures
        side_of(l, d, h) == if l < lo + pow2i(h - d - 1) {
            0int
        } else {
            1int
        },
{
    let half = pow2i(h - d - 1);
    lemma_pow2i_pos(h - d - 1);
    lemma_block_split(lo, d, h);
    let m = lo / pow2i(h - d);
    if l < lo + half {
        lemma_div_in_block(lo, half, l);
        lemma_fundamental_div_mod_converse(2 * m, 2, m, 0);
    } else {
        lemma_div_in_block(lo + half, half, l);
        lemma_fundamental_div_mod_converse(2 * m + 1, 2, m, 1);
    }
}

/// The largest value of `f` over `[lo, hi)`.
pub open spec fn max_over(f: spec_fn(int) -> int, lo: int, hi: int) -> int
    decreases hi - lo,
{
    if hi <= lo + 1 {
        f(lo)
    } else {
        max_i(max_over(f, lo, hi - 1), f(hi - 1))
    }
}

/// The least value of `f` over `[lo, hi)`.
pub open spec fn min_over(f: spec_fn(int) -> int, lo: int, hi: int) -> int
    decreases hi - lo,
{
    if hi <= lo + 1 {
        f(lo)
    } else {
        min_i(min_over(f, lo, hi - 1), f(hi - 1))
    }
}

/// A value that bounds the range and is attained in it is the maximum.
pub proof fn lemma_max_over_char(f: spec_fn(int) -> int, lo: int, hi: int, v: int)
    requires
        lo < hi,
        forall|u: int| lo <= u < hi ==> #[trigger] f(u) <= v,
        exists|u: int| lo <= u < hi && #[trigger] f(u) == v,
    ensures
        max_over(f, lo, hi) == v,
    decreases hi - lo,
{
    if hi <= lo + 1 {
        let u = choose|u: int| lo <= u < hi && #[trigger] f(u) == v;
        assert(u == lo);
    } else {
        let u = choose|u: int| lo <= u < hi && #[trigger] f(u) == v;
        if u == hi - 1 {
            lemma_max_over_le(f, lo, hi - 1, v);
        } else {
            lemma_max_over_char(f, lo, hi - 1, v);
        }
    }
}

/// A bound on every value of the range bounds the maximum.
pub proof fn lemma_max_over_le(f: spec_fn(int) -> int, lo: int, hi: int, v: int)
    requires
        lo < hi,
        forall|u: int| lo <= u < hi ==> #[trigger] f(u) <= v,
    ensures
        max_over(f, lo, hi) <= v,
    decreases hi - lo,
{
    if hi > lo + 1 {
        lemma_max_over_le(f, lo, hi - 1, v);
    }
}

/// A value that bounds the range from below and is attained is the minimum.
pub proof fn lemma_min_over_char(f: spec_fn(int) -> int, lo: int, hi: int, v: int)
    requires
        lo < hi,
        forall|u: int| lo <= u < hi ==> #[trigger] f(u) >= v,
        exists|u: int| lo <= u < hi && #[trigger] f(u) == v,
    ensures
        min_over(f, lo, hi) == v,
    decreases hi - lo,
{
    if hi <= lo + 1 {
        let u = choose|u: int| lo <= u < hi && #[trigger] f(u) == v;
        assert(u == lo);
    } else {
        let u = choose|u: int| lo <= u < hi && #[trigger] f(u) == v;
        if u == hi - 1 {
            lemma_min_over_ge(f, lo, hi - 1, v);
        } else {
            lemma_min_over_char(f, lo, hi - 1, v);
        }
    }
}

/// A lower bound on every value of the range bounds the minimum.
pub proof fn lemma_min_over_ge(f: spec_fn(int) -> int, lo: int, hi: int, v: int)
    requires
        lo < hi,
        forall|u: int| lo <= u < hi ==> #[trigger] f(u) >= v,
    ensures
        min_over(f, lo, hi) >= v,
    decreases hi - lo,
{
    if hi > lo + 1 {
        lemma_min_over_ge(f, lo, hi - 1, v);
    }
}

/// The maximum of a range bounds it and is attained in it; dually for the
/// minimum.
pub proof fn lemma_max_min_over_in(f: spec_fn(int) -> int, lo: int, hi: int)
    requires
        lo < hi,
    ensures
        forall|u: int| lo <= u < hi ==> #[trigger] f(u) <= max_over(f, lo, hi),
        exists|u: int| lo <= u < hi && #[trigger] f(u) == max_over(f, lo, hi),
        forall|u: int| lo <= u < hi ==> #[trigger] f(u) >= min_over(f, lo, hi),
        exists|u: int| lo <= u < hi && #[trigger] f(u) == min_over(f, lo, hi),
    decreases hi - lo,
{
    if hi > lo + 1 {
        lemma_max_min_over_in(f, lo, hi - 1);
        if f(hi - 1) >= max_over(f, lo, hi - 1) {
            assert(f(hi - 1) == max_over(f, lo, hi));
        } else {
            let u = choose|u: int| lo <= u < hi - 1 && #[trigger] f(u) == max_over(f, lo, hi - 1);
            assert(f(u) == max_over(f, lo, hi));
        }
        if f(hi - 1) <= min_over(f, lo, hi - 1) {
            assert(f(hi - 1) == min_over(f, lo, hi));
        } else {
            let u = choose|u: int| lo <= u < hi - 1 && #[trigger] f(u) == min_over(f, lo, hi - 1);
            assert(f(u) == min_over(f, lo, hi));
        }
    } else {
        assert(f(lo) == max_over(f, lo, hi));
        assert(f(lo) == min_over(f, lo, hi));
    }
}

/// Two functions equal on a range have the same extrema there.
pub proof fn lemma_over_congruent(f: spec_fn(int) -> int, g: spec_fn(int) -> int, lo: int, hi: int)
    requires
        lo < hi,
        forall|u: int| lo <= u < hi ==> #[trigger] f(u) == g(u),
    ensures
        max_over(f, lo, hi) == max_over(g, lo, hi),
        min_over(f, lo, hi) == min_over(g, lo, hi),
    decreases hi - lo,
{
    if hi > lo + 1 {
        lemma_over_congruent(f, g, lo, hi - 1);
    }
}

/// The split value of an internal node: the floor mean of the left half's
/// largest and the right half's least coordinate on the node's axis,
/// saturated to the sentinel when the right half begins with padding.
pub open spec fn split_mean(a: int, b: int) -> int {
    if b == PAD_COORD as int {
        PAD_COORD as int
    } else {
        a + (b - a) / 2
    }
}

/// The first leaf of the depth-`e` block (aligned subtree) containing leaf
/// `l`, its middle, and its end.
pub open spec fn block_lo(l: int, e: int, h: int) -> int {
    (l / pow2i(h - e)) * pow2i(h - e)
}

pub open spec fn block_mid(l: int, e: int, h: int) -> int {
    block_lo(l, e, h) + pow2i(h - e - 1)
}

pub open spec fn block_hi(l: int, e: int, h: int) -> int {
    block_lo(l, e, h) + pow2i(h - e)
}

/// Coordinate `ax` of each leaf block of a flat buffer, as a function of
/// the leaf index.
pub open spec fn axis_coord(w: Seq<i32>, dims: int, ax: int) -> spec_fn(int) -> int {
    |u: int| coord_at(w, dims, u, ax)
}

/// The split planes of the tree follow the median policy: at every depth of
/// leaf `l`'s path from `d` on, the recorded test equals the saturated floor
/// mean of the two middle-rank coordinates of the node's block of leaves.
pub open spec fn splits_ok(tests: Seq<i32>, w: Seq<i32>, dims: int, h: int, d: int, l: int) -> bool {
    forall|e: int|
        d <= e < h ==> #[trigger] tests[node_of(l, e, h)] as int == split_mean(
            max_over(axis_coord(w, dims, e % dims), block_lo(l, e, h), block_mid(l, e, h)),
            min_over(axis_coord(w, dims, e % dims), block_mid(l, e, h), block_hi(l, e, h)),
        )
}

/// Leaves of an aligned block have that block: the block of `l` at the
/// block's own depth is the block itself.
pub proof fn lemma_block_of(lo: int, l: int, d: int, h: int)
    requires
        0 <= d <= h,
        0 <= lo,
        lo % pow2i(h - d) == 0,
        lo <= l < lo + pow2i(h - d),
    ensures
        block_lo(l, d, h) == lo,
        block_hi(l, d, h) == lo + pow2i(h - d),
        d < h ==> block_mid(l, d, h) == lo + pow2i(h - d - 1),
    {
    let s = pow2i(h - d);
    lemma_pow2i_pos(h - d);
    lemma_div_in_block(lo, s, l);
    lemma_fundamental_div_mod(lo, s);
    vstd::arithmetic::div_mod::lemma_div_pos_is_pos(lo, s);
    let m = lo / s;
    assert(m * s == s * m) by (nonlinear_arith);
}

/// Blocks along one leaf's path are nested: deeper blocks lie inside
/// shallower ones.
pub proof fn lemma_block_nested(l: int, e1: int, e2: int, h: int)
    requires
        0 <= e1 <= e2 <= h,
        0 <= l,
    ensures
        block_lo(l, e1, h) <= block_lo(l, e2, h),
        block_hi(l, e2, h) <= block_hi(l, e1, h),
        block_lo(l, e2, h) <= l < block_hi(l, e2, h),
{
    let s1 = pow2i(h - e1);
    let s2 = pow2i(h - e2);
    lemma_pow2i_pos(h - e1);
    lemma_pow2i_pos(h - e2);
    lemma_pow2i_adds(e2 - e1, h - e2);
    let k = pow2i(e2 - e1);
    lemma_pow2i_pos(e2 - e1);
    let b1 = block_lo(l, e1, h);
    let b2 = block_lo(l, e2, h);
    lemma_fundamental_div_mod(l, s1);
    lemma_fundamental_div_mod(l, s2);
    vstd::arithmetic::div_mod::lemma_div_pos_is_pos(l, s1);
    vstd::arithmetic::div_mod::lemma_div_pos_is_pos(l, s2);
    vstd::arithmetic::div_mod::lemma_mod_bound(l, s1);
    vstd::arithmetic::div_mod::lemma_mod_bound(l, s2);
    assert(b1 == l - l % s1) by {
        assert(s1 * (l / s1) == (l / s1) * s1) by (nonlinear_arith);
    }
    assert(b2 == l - l % s2) by {
        assert(s2 * (l / s2) == (l / s2) * s2) by (nonlinear_arith);
    }
    assert(l % s2 <= l % s1) by {
        vstd::arithmetic::div_mod::lemma_mod_mod(l, s2, k);
        assert(s2 * k == s1) by (nonlinear_arith)
            requires
                k * s2 == s1,
        ;
        vstd::arithmetic::div_mod::lemma_mod_bound(l % s1, s2);
        vstd::arithmetic::div_mod::lemma_mod_decreases((l % s1) as nat, s2 as nat);
    }
    assert(b2 + s2 <= b1 + s1) by {
        assert(l % s1 <= s1 - s2 || l % s1 > s1 - s2);
        if l % s1 > s1 - s2 {
            // the tail of the big block past its last small block boundary
            // is shorter than one small block
            let q = (l % s1) / s2;
            vstd::arithmetic::div_mod::lemma_mod_mod(l, s2, k);
            assert(s2 * k == s1) by (nonlinear_arith)
                requires
                    k * s2 == s1,
            ;
            lemma_fundamental_div_mod(l % s1, s2);
            vstd::arithmetic::div_mod::lemma_div_pos_is_pos(l % s1, s2);
            assert(q <= k - 1) by {
                if q >= k {
                    assert(s2 * q >= s2 * k) by (nonlinear_arith)
                        requires
                            q >= k,
                            s2 >= 1,
                    ;
                }
            }
            assert(s2 * q <= s2 * (k - 1)) by (nonlinear_arith)
                requires
                    q <= k - 1,
                    s2 >= 1,
            ;
            assert(s2 * (k - 1) == s2 * k - s2) by (nonlinear_arith);
            assert(l % s1 - l % s2 == s2 * q) by {
                assert((l % s1) % s2 == l % s2);
            }
        }
    }
}

/// One descent level refines the block: the child block of a leaf's path is
/// the half of the parent block on the leaf's side.
pub proof fn lemma_block_step(l: int, e: int, h: int)
    requires
        0 <= e < h,
        0 <= l < pow2i(h),
    ensures
        block_lo(l, e + 1, h) == if side_of(l, e, h) == 0 {
            block_lo(l, e, h)
        } else {
            block_mid(l, e, h)
        },
{
    let s = pow2i(h - e);
    let half = pow2i(h - e - 1);
    lemma_pow2i_pos(h - e);
    lemma_pow2i_pos(h - e - 1);
    assert(s == 2 * half);
    let b = block_lo(l, e, h);
    lemma_block_nested(l, e, e, h);
    assert(b <= l < b + s);
    vstd::arithmetic::div_mod::lemma_mod_multiples_basic(l / s, s);
    assert(b % s == 0);
    assert(b % half == 0) by {
        lemma_fundamental_div_mod(b, s);
        let q = b / s;
        assert(b == s * q);
        assert(s * q == (2 * q) * half) by (nonlinear_arith)
            requires
                s == 2 * half,
        ;
        vstd::arithmetic::div_mod::lemma_mod_multiples_basic(2 * q, half);
    }
    vstd::arithmetic::div_mod::lemma_div_pos_is_pos(l, s);
    lemma_side_of_block(b, l, e, h);
    if l < b + half {
        lemma_div_in_block(b, half, l);
        lemma_fundamental_div_mod(b, half);
        let m = b / half;
        assert(m * half == half * m) by (nonlinear_arith);
        lemma_fundamental_div_mod_converse(b, half, m, 0);
        assert(block_lo(l, e + 1, h) == b);
    } else {
        let b2 = b + half;
        assert(b2 % half == 0) by {
            vstd::arithmetic::div_mod::lemma_mod_add_multiples_vanish(b, half);
        }
        lemma_div_in_block(b2, half, l);
        lemma_fundamental_div_mod(b2, half);
        let m = b2 / half;
        assert(m * half == half * m) by (nonlinear_arith);
        lemma_fundamental_div_mod_converse(b2, half, m, 0);
        assert(block_lo(l, e + 1, h) == b2);
    }
}

/// The lower bound on axis `a` of the cell of leaf `l`, after the first `d`
/// splits of its path: the most recent high-side split on that axis, or the
/// unbounded sentinel.
pub open spec fn cell_lo_upto(tests: Seq<i32>, dims: int, h: int, l: int, a: int, d: int) -> int
    decreases d,
{
    if d <= 0 {
        -(COORD_INF as int)
    } else if (d - 1) % dims == a && side_of(l, d - 1, h) != 0 {
        tests[node_of(l, d - 1, h)] as int
    } else {
        cell_lo_upto(tests, dims, h, l, a, d - 1)
    }
}

/// The upper bound on axis `a` of the cell of leaf `l`, after the first `d`
/// splits of its path: the most recent low-side split on that axis, or the
/// unbounded sentinel.
pub open spec fn cell_hi_upto(tests: Seq<i32>, dims: int, h: int, l: int, a: int, d: int) -> int
    decreases d,
{
    if d <= 0 {
        COORD_INF as int
    } else if (d - 1) % dims == a && side_of(l, d - 1, h) == 0 {
        tests[node_of(l, d - 1, h)] as int
    } else {
        cell_hi_upto(tests, dims, h, l, a, d - 1)
    }
}

/// The full cell bounds of leaf `l`, axis by axis.
pub open spec fn cell_lo_seq(tests: Seq<i32>, dims: int, h: int, l: int) -> Seq<int> {
    Seq::new(dims as nat, |a: int| cell_lo_upto(tests, dims, h, l, a, h))
}

pub open spec fn cell_hi_seq(tests: Seq<i32>, dims: int, h: int, l: int) -> Seq<int> {
    Seq::new(dims as nat, |a: int| cell_hi_upto(tests, dims, h, l, a, h))
}

/// Cell bounds only read the split slots on the leaf's path: two test
/// arrays that agree there give the same bounds.
pub proof fn lemma_cell_stable(t1: Seq<i32>, t2: Seq<i32>, dims: int, h: int, l: int, a: int, d: int)
    requires
        forall|e: int| 0 <= e < d ==> #[trigger] t1[node_of(l, e, h)] == t2[node_of(l, e, h)],
    ensures
        cell_lo_upto(t1, dims, h, l, a, d) == cell_lo_upto(t2, dims, h, l, a, d),
        cell_hi_upto(t1, dims, h, l, a, d) == cell_hi_upto(t2, dims, h, l, a, d),
    decreases d,
{
    if d > 0 {
        lemma_cell_stable(t1, t2, dims, h, l, a, d - 1);
    }
}

/// Two leaves of one depth-`d` block share their first `d` splits, hence
/// their cell bounds up to that depth.
pub proof fn lemma_cell_same(tests: Seq<i32>, dims: int, h: int, l1: int, l2: int, a: int, d: int)
    requires
        0 <= d <= h,
        0 <= l1,
        0 <= l2,
        l1 / pow2i(h - d) == l2 / pow2i(h - d),
    ensures
        cell_lo_upto(tests, dims, h, l1, a, d) == cell_lo_upto(tests, dims, h, l2, a, d),
        cell_hi_upto(tests, dims, h, l1, a, d) == cell_hi_upto(tests, dims, h, l2, a, d),
    decreases d,
{
    if d > 0 {
        lemma_pow2i_pos(h - d);
        assert(pow2i(h - d + 1) == 2 * pow2i(h - d));
        lemma_div_denominator(l1, pow2i(h - d), 2);
        lemma_div_denominator(l2, pow2i(h - d), 2);
        assert(pow2i(h - d) * 2 == pow2i(h - d + 1)) by (nonlinear_arith)
            requires
                pow2i(h - d + 1) == 2 * pow2i(h - d),
        ;
        assert(l1 / pow2i(h - (d - 1)) == l2 / pow2i(h - (d - 1)));
        lemma_cell_same(tests, dims, h, l1, l2, a, d - 1);
        assert(node_of(l1, d - 1, h) == node_of(l2, d - 1, h));
        assert(side_of(l1, d - 1, h) == side_of(l2, d - 1, h));
    }
}

/// Does a coordinate lie on the given side of a split value?  Side 0 is the
/// low (left) child of the split, side 1 the high (right) child.
pub open spec fn on_side(coord: int, test: int, side: int) -> bool {
    if side == 0 {
        coord <= test
    } else {
        coord >= test
    }
}

/// The point `p` of leaf `l` is consistent with every split on its path from
/// depth `d` down to the leaves: it lies on the side of each split plane that
/// its leaf index prescribes.
pub open spec fn path_ok(tests: Seq<i32>, dims: int, h: int, d: int, l: int, p: Seq<int>) -> bool {
    forall|e: int|
        d <= e < h ==> on_side(
            p[e % dims],
            #[trigger] tests[node_of(l, e, h)] as int,
            side_of(l, e, h),
        )
}

/// The expected contents of the leaf array before partitioning: the input
/// points in order, then padding sentinels up to `n2`.
pub open spec fn padded_inputs(points: Seq<Vec<i32>>, dims: int, n2: int) -> Seq<Seq<int>> {
    Seq::new(n2 as nat, |i: int| if i < points.len() {
        iseq(points[i]@)
    } else {
        pad_pt(dims)
    })
}

/// Upper bound on the number of indexed points.
pub const MAX_POINTS: usize = 0x4000_0000;

/// Compute the number of leaves: the least power of two at least `n`,
/// together with its exponent, the height of the tree.
pub(crate) fn pow2_ceil(n: usize) -> (r: (usize, usize))
    requires
        1 <= n <= MAX_POINTS,
    ensures
        r.0 == pow2i(r.1 as int),
        n <= r.0,
        r.0 < 2 * n,
        r.1 <= 31,
{
    let mut n2: usize = 1;
    let mut h: usize = 0;
    while n2 < n
        invariant
            1 <= n <= MAX_POINTS,
            1 <= n2,
            h + 1 <= n2,
            n2 < 2 * n,
            n2 == pow2i(h as int),
            h == 0 ==> n2 == 1,
            h >= 1 ==> pow2i(h as int - 1) < n,
        decreases 2 * n - n2,
    {
        proof {
            lemma_pow2i_pos(h as int);
        }
        n2 = n2 * 2;
        h = h + 1;
    }
    proof {
        lemma_pow2i_pos(h as int);
        if h >= 1 {
            if h - 1 >= 31 {
                lemma_pow2i_mono(31, h as int - 1);
                assert(pow2i(31) == 0x8000_0000) by {
                    reveal_with_fuel(pow2i, 33);
                }
                assert(false);
            }
        }
    }
    (n2, h)
}

/// Copy `points` into a flat buffer of `n2` blocks of `dims` coordinates,
/// padding the tail blocks with the sentinel point.
pub(crate) fn padded_points(points: &Vec<Vec<i32>>, dims: usize, n2: usize) -> (w: Vec<i32>)
    requires
        1 <= dims <= MAX_DIMS,
        points.len() <= n2,
        forall|i: int| 0 <= i < points.len() ==> #[trigger] points@[i].len() == dims,
    ensures
        w.len() == n2 * dims,
        forall|i: int|
            0 <= i < points.len() ==> #[trigger] pt_at(w@, dims as int, i) == iseq(points@[i]@),
        forall|i: int|
            points.len() <= i < n2 ==> #[trigger] pt_at(w@, dims as int, i) == pad_pt(dims as int),
{
    let mut w: Vec<i32> = Vec::new();
    let mut i: usize = 0;
    while i < n2
        invariant
            i <= n2,
            1 <= dims <= MAX_DIMS,
            points.len() <= n2,
            forall|t: int| 0 <= t < points.len() ==> #[trigger] points@[t].len() == dims,
            w.len() == i * dims,
            forall|t: int|
                0 <= t < i && t < points.len() ==> #[trigger] pt_at(w@, dims as int, t) == iseq(
                    points@[t]@,
                ),
            forall|t: int|
                points.len() <= t < i ==> #[trigger] pt_at(w@, dims as int, t) == pad_pt(
                    dims as int,
                ),
        decreases n2 - i,
    {
        let ghost wpre = w@;
        if i < points.len() {
            let p = &points[i];
            proof {
                assert(points@[i as int].len() == dims);
                assert(p@.len() == dims);
            }
            let mut c: usize = 0;
            while c < dims
                invariant
                    c <= dims,
                    p@.len() == dims,
                    w.len() == i * dims + c,
                    forall|x: int| 0 <= x < wpre.len() ==> #[trigger] w@[x] == wpre[x],
                    forall|x: int| 0 <= x < c ==> #[trigger] w@[wpre.len() + x] == p@[x],
                    wpre.len() == i * dims,
                decreases dims - c,
            {
                w.push(p[c]);
                c = c + 1;
            }
        } else {
            let mut c: usize = 0;
            while c < dims
                invariant
                    c <= dims,
                    w.len() == i * dims + c,
                    forall|x: int| 0 <= x < wpre.len() ==> #[trigger] w@[x] == wpre[x],
                    forall|x: int| 0 <= x < c ==> #[trigger] w@[wpre.len() + x] == PAD_COORD,
                    wpre.len() == i * dims,
                decreases dims - c,
            {
                w.push(PAD_COORD);
                c = c + 1;
            }
        }
        proof {
            vstd::arithmetic::mul::lemma_mul_is_distributive_add_other_way(dims as int, i as int, 1);
            assert forall|t: int| 0 <= t <= i && t < points.len() implies #[trigger] pt_at(
                w@,
                dims as int,
                t,
            ) == iseq(points@[t]@) by {
                vstd::arithmetic::mul::lemma_mul_inequality(t + 1, i as int + 1, dims as int);
                vstd::arithmetic::mul::lemma_mul_nonnegative(t, dims as int);
                vstd::arithmetic::mul::lemma_mul_is_distributive_add_other_way(dims as int, t, 1);
                if t < i {
                    vstd::arithmetic::mul::lemma_mul_inequality(t + 1, i as int, dims as int);
                    assert(pt_at(w@, dims as int, t) =~= pt_at(wpre, dims as int, t));
                } else {
                    assert(points@[t].len() == dims);
                    assert(pt_at(w@, dims as int, t) =~= iseq(points@[t]@));
                }
            }
            assert forall|t: int| points.len() <= t <= i && t < i + 1 implies #[trigger] pt_at(
                w@,
                dims as int,
                t,
            ) == pad_pt(dims as int) by {
                vstd::arithmetic::mul::lemma_mul_inequality(t + 1, i as int + 1, dims as int);
                vstd::arithmetic::mul::lemma_mul_nonnegative(t, dims as int);
                vstd::arithmetic::mul::lemma_mul_is_distributive_add_other_way(dims as int, t, 1);
                if t < i {
                    vstd::arithmetic::mul::lemma_mul_inequality(t + 1, i as int, dims as int);
                    assert(pt_at(w@, dims as int, t) =~= pt_at(wpre, dims as int, t));
                } else {
                    assert(pt_at(w@, dims as int, t) =~= pad_pt(dims as int));
                }
            }
        }
        i = i + 1;
    }
    w
}

/// One branchless descent of the test array: `height` strict comparisons,
/// each sending the walk to a child, ending at a leaf index.
pub(crate) fn descend(tests: &Vec<i32>, dims: usize, height: usize, needle: &Vec<i32>) -> (leaf: usize)
    requires
        1 <= dims,
        height <= 31,
        tests.len() == pow2i(height as int) - 1,
        needle.len() == dims,
    ensures
        leaf == descent_leaf(tests@, dims as int, iseq(needle@), height as int),
        leaf < pow2i(height as int),
{
    let ghost ndl = iseq(needle@);
    let mut idx: usize = 0;
    let mut i: usize = 0;
    while i < height
        invariant
            i <= height,
            height <= 31,
            1 <= dims,
            tests.len() == pow2i(height as int) - 1,
            needle.len() == dims,
            ndl == iseq(needle@),
            idx == descent_idx(tests@, dims as int, ndl, i as int),
            pow2i(i as int) - 1 <= idx <= 2 * pow2i(i as int) - 2,
        decreases height - i,
    {
        proof {
            lemma_pow2i_pos(i as int);
            lemma_pow2i_mono(i as int + 1, height as int);
            assert(pow2i(height as int) <= 0x8000_0000) by {
                lemma_pow2i_mono(height as int, 31);
                assert(pow2i(31) == 0x8000_0000) by {
                    reveal_with_fuel(pow2i, 33);
                }
            }
            assert(pow2i(i as int + 1) == 2 * pow2i(i as int));
            assert(idx < tests.len());
            assert(ndl[(i % dims) as int] == needle@[(i % dims) as int] as int);
        }
        let go_left = needle[i % dims] < tests[idx];
        if go_left {
            idx = 2 * idx + 1;
        } else {
            idx = 2 * idx + 2;
        }
        proof {
            lemma_descent_bounds(tests@, dims as int, ndl, i as int + 1);
        }
        i = i + 1;
    }
    proof {
        lemma_pow2i_pos(height as int);
    }
    idx - tests.len()
}

} // verus!
