//! Median partition of a flat point buffer along one axis.
//!
//! The buffer holds `n` points of `dims` coordinates each, stored
//! contiguously.  `median_partition` rearranges a range `[lo, hi)` of points
//! so that the lower half is coordinate-wise at most the returned split value
//! on the chosen axis and the upper half at least it, using randomised
//! quickselect; the pivot choice comes from a caller-supplied ChaCha20
//! generator, and only steers performance, never the result's contract.

use vstd::prelude::*;
use vstd::seq_lib::group_to_multiset_ensures;
use vstd::multiset::group_multiset_axioms;
use vstd::arithmetic::mul::{lemma_mul_inequality, lemma_mul_strict_inequality, lemma_mul_nonnegative, lemma_mul_is_distributive_add_other_way};
use crate::geom::{coord_at, pt_at, slice_pts, MAX_DIMS, PAD_COORD};
use crate::tree::{axis_coord, lemma_max_over_char, lemma_min_over_char, max_over, min_over, split_mean};

verus! {

#[verifier::external_type_specification]
#[verifier::external_body]
pub struct ExChaCha20Rng(rand_chacha::ChaCha20Rng);

/// Relies on rand's `RngCore::next_u64` as implemented by rand_chacha's
/// `ChaCha20Rng`: hands back the next word of the generator's stream.
/// Nothing is assumed about the value.
#[verifier::external_body]
pub(crate) fn next_random(rng: &mut rand_chacha::ChaCha20Rng) -> u64 {
    rand::RngCore::next_u64(rng)
}

/// Relies on rand's `SeedableRng::seed_from_u64` as implemented by
/// rand_chacha's `ChaCha20Rng`: builds a generator from a fixed seed.  The
/// seed only steers pivot choices during construction, never results.
#[verifier::external_body]
pub(crate) fn default_rng() -> rand_chacha::ChaCha20Rng {
    rand::SeedableRng::seed_from_u64(0)
}

/// Multiplication facts for one point block of a flat buffer.
proof fn lemma_blk(t: int, hi: int, dims: int)
    requires
        0 <= t < hi,
        1 <= dims,
    ensures
        (t + 1) * dims <= hi * dims,
        0 <= t * dims,
        t * dims + dims == (t + 1) * dims,
        t * dims < hi * dims,
{
    lemma_mul_inequality(t + 1, hi, dims);
    lemma_mul_nonnegative(t, dims);
    lemma_mul_is_distributive_add_other_way(dims, t, 1);
    lemma_mul_strict_inequality(t, hi, dims);
}

/// Read coordinate `ax` of point `t` in a flat buffer.
pub(crate) fn coord_of(w: &Vec<i32>, dims: usize, t: usize, ax: usize) -> (r: i32)
    requires
        ax < dims,
        (t + 1) * dims <= w.len(),
    ensures
        r as int == coord_at(w@, dims as int, t as int, ax as int),
{
    proof {
        lemma_blk(t as int, t as int + 1, dims as int);
    }
    w[t * dims + ax]
}

/// Swap point blocks `i` and `j` of a flat buffer, coordinate by coordinate.
pub(crate) fn swap_points(w: &mut Vec<i32>, dims: usize, i: usize, j: usize)
    requires
        1 <= dims,
        (i + 1) * dims <= old(w).len(),
        (j + 1) * dims <= old(w).len(),
    ensures
        final(w).len() == old(w).len(),
        pt_at(final(w)@, dims as int, i as int) == pt_at(old(w)@, dims as int, j as int),
        pt_at(final(w)@, dims as int, j as int) == pt_at(old(w)@, dims as int, i as int),
        forall|x: int|
            0 <= x < old(w).len() && !(i * dims <= x < (i + 1) * dims) && !(j * dims <= x < (j + 1)
                * dims) ==> final(w)@[x] == old(w)@[x],
{
    proof {
        lemma_blk(i as int, i as int + 1, dims as int);
        lemma_blk(j as int, j as int + 1, dims as int);
        if i < j {
            lemma_mul_inequality(i as int + 1, j as int, dims as int);
        } else if j < i {
            lemma_mul_inequality(j as int + 1, i as int, dims as int);
        }
    }
    let base_i = i * dims;
    let base_j = j * dims;
    let mut c: usize = 0;
    while c < dims
        invariant
            c <= dims,
            base_i == i * dims,
            base_j == j * dims,
            base_i + dims == (i + 1) * dims,
            base_j + dims == (j + 1) * dims,
            i != j ==> (base_i + dims <= base_j || base_j + dims <= base_i),
            base_i + dims <= w.len(),
            base_j + dims <= w.len(),
            w.len() == old(w).len(),
            forall|t: int| 0 <= t < c ==> #[trigger] w@[base_i + t] == old(w)@[base_j + t],
            forall|t: int| 0 <= t < c ==> #[trigger] w@[base_j + t] == old(w)@[base_i + t],
            forall|t: int| c <= t < dims ==> #[trigger] w@[base_i + t] == old(w)@[base_i + t],
            forall|t: int| c <= t < dims ==> #[trigger] w@[base_j + t] == old(w)@[base_j + t],
            forall|x: int|
                0 <= x < old(w).len() && !(i * dims <= x < (i + 1) * dims) && !(j * dims <= x < (j
                    + 1) * dims) ==> w@[x] == old(w)@[x],
        decreases dims - c,
    {
        let a = w[base_i + c];
        let b = w[base_j + c];
        w[base_i + c] = b;
        w[base_j + c] = a;
        c = c + 1;
    }
    proof {
        assert(pt_at(w@, dims as int, i as int) =~= pt_at(old(w)@, dims as int, j as int));
        assert(pt_at(w@, dims as int, j as int) =~= pt_at(old(w)@, dims as int, i as int));
    }
}

/// Swapping two entries of a sequence leaves its multiset unchanged.
proof fn lemma_swap_seq_multiset<A>(s: Seq<A>, i: int, j: int)
    requires
        0 <= i < s.len(),
        0 <= j < s.len(),
    ensures
        s.update(i, s[j]).update(j, s[i]).to_multiset() == s.to_multiset(),
{
    broadcast use group_to_multiset_ensures, group_multiset_axioms, vstd::seq_lib::to_multiset_update;

    if i == j {
        assert(s.update(i, s[j]).update(j, s[i]) =~= s);
    } else {
        let s1 = s.update(i, s[j]);
        let s2 = s1.update(j, s[i]);
        assert(s1[j] == s[j]);
        assert(s.contains(s[i]));
        assert(s.to_multiset().count(s[i]) > 0);
        assert(s2.to_multiset() =~= s.to_multiset());
    }
}

/// A slice of point blocks, each conveyed by its multiset-preserving view.
/// If two buffers agree as multisets on `[lo, hi)` after a block swap inside
/// the range, the slice multiset is unchanged.
proof fn lemma_swap_slice_multiset(s1: Seq<i32>, s2: Seq<i32>, dims: int, lo: int, hi: int, i: int, j: int)
    requires
        1 <= dims,
        s1.len() == s2.len(),
        0 <= lo <= i < hi,
        lo <= j < hi,
        hi * dims <= s1.len(),
        pt_at(s2, dims, i) == pt_at(s1, dims, j),
        pt_at(s2, dims, j) == pt_at(s1, dims, i),
        forall|m: int|
            lo <= m < hi && m != i && m != j ==> #[trigger] pt_at(s2, dims, m) == pt_at(
                s1,
                dims,
                m,
            ),
    ensures
        slice_pts(s2, dims, lo, hi).to_multiset() == slice_pts(s1, dims, lo, hi).to_multiset(),
{
    let a = slice_pts(s1, dims, lo, hi);
    let b = slice_pts(s2, dims, lo, hi);
    assert(b =~~= a.update(i - lo, a[j - lo]).update(j - lo, a[i - lo]));
    lemma_swap_seq_multiset(a, i - lo, j - lo);
}

/// Points of equal multisets satisfy the same per-point facts: anything true
/// of every entry of `a` is true of every entry of `b`.
pub(crate) proof fn lemma_ms_pointwise(a: Seq<Seq<int>>, b: Seq<Seq<int>>, pred: spec_fn(Seq<int>) -> bool)
    requires
        a.to_multiset() == b.to_multiset(),
        forall|t: int| 0 <= t < a.len() ==> #[trigger] pred(a[t]),
    ensures
        forall|t: int| 0 <= t < b.len() ==> #[trigger] pred(b[t]),
{
    broadcast use group_to_multiset_ensures, group_multiset_axioms;

    assert forall|t: int| 0 <= t < b.len() implies #[trigger] pred(b[t]) by {
        assert(b.contains(b[t]));
        assert(b.to_multiset().count(b[t]) > 0);
        assert(a.to_multiset().count(b[t]) > 0);
        assert(a.contains(b[t]));
        let u = choose|u: int| 0 <= u < a.len() && a[u] == b[t];
        assert(pred(a[u]));
    }
}

/// A point with a given property moves with the multiset: if some entry of
/// `a` satisfies it and `b` holds the same multiset, some entry of `b` does.
pub(crate) proof fn lemma_ms_exists(a: Seq<Seq<int>>, b: Seq<Seq<int>>, pred: spec_fn(Seq<int>) -> bool)
    requires
        a.to_multiset() == b.to_multiset(),
        exists|i: int| 0 <= i < a.len() && #[trigger] pred(a[i]),
    ensures
        exists|j: int| 0 <= j < b.len() && #[trigger] pred(b[j]),
{
    broadcast use group_to_multiset_ensures, group_multiset_axioms;

    let i = choose|i: int| 0 <= i < a.len() && #[trigger] pred(a[i]);
    assert(a.contains(a[i]));
    assert(a.to_multiset().count(a[i]) > 0);
    assert(b.to_multiset().count(a[i]) > 0);
    assert(b.contains(a[i]));
    let j = choose|j: int| 0 <= j < b.len() && b[j] == a[i];
    assert(pred(b[j]));
}

/// Every entry equal to `v` makes the multiset hold exactly the length.
pub(crate) proof fn lemma_count_all<A>(s: Seq<A>, v: A)
    requires
        forall|i: int| 0 <= i < s.len() ==> #[trigger] s[i] == v,
    ensures
        s.to_multiset().count(v) == s.len(),
    decreases s.len(),
{
    broadcast use group_to_multiset_ensures, group_multiset_axioms;

    if s.len() == 0 {
        if s.to_multiset().count(v) > 0 {
            assert(s.contains(v));
        }
    } else {
        let s0 = s.take(s.len() - 1);
        lemma_count_all(s0, v);
        assert(s =~= s0.push(s[s.len() - 1]));
        assert(s0.push(v).to_multiset() =~= s0.to_multiset().insert(v));
    }
}

/// No entry equal to `v` leaves the multiset without it.
pub(crate) proof fn lemma_count_none<A>(s: Seq<A>, v: A)
    requires
        forall|i: int| 0 <= i < s.len() ==> #[trigger] s[i] != v,
    ensures
        s.to_multiset().count(v) == 0,
{
    broadcast use group_to_multiset_ensures, group_multiset_axioms;

    if s.to_multiset().count(v) > 0 {
        assert(s.contains(v));
        let i = choose|i: int| 0 <= i < s.len() && s[i] == v;
    }
}

/// A multiset drawn from a sequence never counts any value above the length.
pub(crate) proof fn lemma_count_le_len<A>(s: Seq<A>, v: A)
    ensures
        s.to_multiset().count(v) <= s.len(),
    decreases s.len(),
{
    broadcast use group_to_multiset_ensures, group_multiset_axioms;

    if s.len() == 0 {
        if s.to_multiset().count(v) > 0 {
            assert(s.contains(v));
        }
    } else {
        let s0 = s.take(s.len() - 1);
        lemma_count_le_len(s0, v);
        assert(s =~= s0.push(s[s.len() - 1]));
        assert(s0.push(s[s.len() - 1]).to_multiset() =~= s0.to_multiset().insert(
            s[s.len() - 1],
        ));
    }
}

/// Counting a value over a slice of blocks splits at any interior cut.
pub(crate) proof fn lemma_slice_count_split(s: Seq<i32>, dims: int, lo: int, mid: int, hi: int, v: Seq<int>)
    requires
        lo <= mid <= hi,
    ensures
        slice_pts(s, dims, lo, hi).to_multiset().count(v) == slice_pts(
            s,
            dims,
            lo,
            mid,
        ).to_multiset().count(v) + slice_pts(s, dims, mid, hi).to_multiset().count(v),
{
    broadcast use group_multiset_axioms;

    assert(slice_pts(s, dims, lo, hi) =~~= slice_pts(s, dims, lo, mid) + slice_pts(
        s,
        dims,
        mid,
        hi,
    ));
    vstd::seq_lib::lemma_multiset_commutative(
        slice_pts(s, dims, lo, mid),
        slice_pts(s, dims, mid, hi),
    );
}

/// Splitting a slice at two interior cut points: if the middle part keeps its
/// multiset and the outer parts are untouched point by point, the whole slice
/// keeps its multiset.
pub(crate) proof fn lemma_slice_ms_compose(s1: Seq<i32>, s2: Seq<i32>, dims: int, lo: int, hi: int, a: int, b: int)
    requires
        1 <= dims,
        s1.len() == s2.len(),
        0 <= lo <= a <= b <= hi,
        hi * dims <= s1.len(),
        slice_pts(s2, dims, a, b).to_multiset() == slice_pts(s1, dims, a, b).to_multiset(),
        forall|m: int| lo <= m < a ==> #[trigger] pt_at(s2, dims, m) == pt_at(s1, dims, m),
        forall|m: int| b <= m < hi ==> #[trigger] pt_at(s2, dims, m) == pt_at(s1, dims, m),
    ensures
        slice_pts(s2, dims, lo, hi).to_multiset() == slice_pts(s1, dims, lo, hi).to_multiset(),
{
    broadcast use group_multiset_axioms;

    let w1 = slice_pts(s1, dims, lo, hi);
    let w2 = slice_pts(s2, dims, lo, hi);
    assert(w1 =~~= slice_pts(s1, dims, lo, a) + slice_pts(s1, dims, a, b) + slice_pts(
        s1,
        dims,
        b,
        hi,
    ));
    assert(w2 =~~= slice_pts(s2, dims, lo, a) + slice_pts(s2, dims, a, b) + slice_pts(
        s2,
        dims,
        b,
        hi,
    ));
    assert(slice_pts(s2, dims, lo, a) =~~= slice_pts(s1, dims, lo, a));
    assert(slice_pts(s2, dims, b, hi) =~~= slice_pts(s1, dims, b, hi));
    vstd::seq_lib::lemma_multiset_commutative(
        slice_pts(s1, dims, lo, a) + slice_pts(s1, dims, a, b),
        slice_pts(s1, dims, b, hi),
    );
    vstd::seq_lib::lemma_multiset_commutative(
        slice_pts(s1, dims, lo, a),
        slice_pts(s1, dims, a, b),
    );
    vstd::seq_lib::lemma_multiset_commutative(
        slice_pts(s2, dims, lo, a) + slice_pts(s2, dims, a, b),
        slice_pts(s2, dims, b, hi),
    );
    vstd::seq_lib::lemma_multiset_commutative(
        slice_pts(s2, dims, lo, a),
        slice_pts(s2, dims, a, b),
    );
}

/// A point block outside the rewritten range is unchanged.
proof fn lemma_pt_unchanged(s1: Seq<i32>, s2: Seq<i32>, dims: int, t: int, a: int, b: int)
    requires
        1 <= dims,
        s1.len() == s2.len(),
        0 <= t,
        (t + 1) * dims <= s1.len(),
        0 <= a <= b,
        t < a || t >= b,
        forall|x: int|
            0 <= x < s1.len() && !(a * dims <= x < b * dims) ==> #[trigger] s2[x] == s1[x],
    ensures
        pt_at(s2, dims, t) == pt_at(s1, dims, t),
{
    lemma_mul_nonnegative(t, dims);
    lemma_mul_is_distributive_add_other_way(dims, t, 1);
    lemma_mul_nonnegative(a, dims);
    assert forall|c: int| 0 <= c < dims implies #[trigger] s2[t * dims + c] == s1[t * dims + c] by {
        if t < a {
            lemma_mul_inequality(t + 1, a, dims);
        } else {
            lemma_mul_inequality(b, t, dims);
        }
    }
    assert(pt_at(s2, dims, t) =~= pt_at(s1, dims, t));
}

/// A point block untouched by a swap of blocks `i` and `j` is unchanged.
proof fn lemma_pt_unchanged2(s1: Seq<i32>, s2: Seq<i32>, dims: int, m: int, i: int, j: int)
    requires
        1 <= dims,
        s1.len() == s2.len(),
        0 <= m,
        0 <= i,
        0 <= j,
        (m + 1) * dims <= s1.len(),
        m != i,
        m != j,
        forall|x: int|
            0 <= x < s1.len() && !(i * dims <= x < (i + 1) * dims) && !(j * dims <= x < (j + 1)
                * dims) ==> #[trigger] s2[x] == s1[x],
    ensures
        pt_at(s2, dims, m) == pt_at(s1, dims, m),
{
    lemma_mul_nonnegative(m, dims);
    lemma_mul_is_distributive_add_other_way(dims, m, 1);
    lemma_mul_is_distributive_add_other_way(dims, i, 1);
    lemma_mul_is_distributive_add_other_way(dims, j, 1);
    assert forall|c: int| 0 <= c < dims implies #[trigger] s2[m * dims + c] == s1[m * dims + c] by {
        if m < i {
            lemma_mul_inequality(m + 1, i, dims);
        } else {
            lemma_mul_inequality(i + 1, m, dims);
        }
        if m < j {
            lemma_mul_inequality(m + 1, j, dims);
        } else {
            lemma_mul_inequality(j + 1, m, dims);
        }
    }
    assert(pt_at(s2, dims, m) =~= pt_at(s1, dims, m));
}

/// A swap of two blocks inside `[lo, hi)` keeps the slice's multiset; the
/// hypotheses are exactly what `swap_points` ensures.
proof fn lemma_swap_ms(s1: Seq<i32>, s2: Seq<i32>, dims: int, lo: int, hi: int, i: int, j: int)
    requires
        1 <= dims,
        s1.len() == s2.len(),
        0 <= lo <= i < hi,
        lo <= j < hi,
        hi * dims <= s1.len(),
        pt_at(s2, dims, i) == pt_at(s1, dims, j),
        pt_at(s2, dims, j) == pt_at(s1, dims, i),
        forall|x: int|
            0 <= x < s1.len() && !(i * dims <= x < (i + 1) * dims) && !(j * dims <= x < (j + 1)
                * dims) ==> #[trigger] s2[x] == s1[x],
    ensures
        slice_pts(s2, dims, lo, hi).to_multiset() == slice_pts(s1, dims, lo, hi).to_multiset(),
        forall|m: int|
            lo <= m < hi && m != i && m != j ==> #[trigger] pt_at(s2, dims, m) == pt_at(
                s1,
                dims,
                m,
            ),
{
    assert forall|m: int| lo <= m < hi && m != i && m != j implies #[trigger] pt_at(s2, dims, m)
        == pt_at(s1, dims, m) by {
        lemma_blk(m, hi, dims);
        lemma_pt_unchanged2(s1, s2, dims, m, i, j);
    }
    lemma_swap_slice_multiset(s1, s2, dims, lo, hi, i, j);
}

/// Lomuto partition of the point range `[lo, hi)` around the pivot block at
/// `p_idx`, comparing coordinate `ax`.  Returns the pivot's final position.
fn partition_block(w: &mut Vec<i32>, dims: usize, lo: usize, hi: usize, ax: usize, p_idx: usize) -> (p: usize)
    requires
        1 <= dims <= MAX_DIMS,
        ax < dims,
        lo <= p_idx < hi,
        hi * dims <= old(w).len(),
    ensures
        final(w).len() == old(w).len(),
        lo <= p < hi,
        forall|x: int|
            0 <= x < old(w).len() && !(lo * dims <= x < hi * dims) ==> final(w)@[x] == old(
                w,
            )@[x],
        slice_pts(final(w)@, dims as int, lo as int, hi as int).to_multiset() == slice_pts(
            old(w)@,
            dims as int,
            lo as int,
            hi as int,
        ).to_multiset(),
        forall|t: int|
            lo <= t < p ==> #[trigger] coord_at(final(w)@, dims as int, t, ax as int) < coord_at(
                final(w)@,
                dims as int,
                p as int,
                ax as int,
            ),
        forall|t: int|
            p <= t < hi ==> #[trigger] coord_at(final(w)@, dims as int, t, ax as int) >= coord_at(
                final(w)@,
                dims as int,
                p as int,
                ax as int,
            ),
{
    let ghost dd = dims as int;
    let ghost w0 = old(w)@;
    proof {
        lemma_blk(p_idx as int, hi as int, dd);
        lemma_blk(hi as int - 1, hi as int, dd);
        lemma_mul_nonnegative(lo as int, dd);
        lemma_mul_inequality(lo as int, p_idx as int, dd);
        lemma_mul_inequality(lo as int, hi as int - 1, dd);
    }
    swap_points(w, dims, p_idx, hi - 1);
    proof {
        lemma_swap_ms(w0, w@, dd, lo as int, hi as int, p_idx as int, hi as int - 1);
    }
    let pv = coord_of(w, dims, hi - 1, ax);
    let mut s: usize = lo;
    let mut t: usize = lo;
    while t < hi - 1
        invariant
            1 <= dims <= MAX_DIMS,
            ax < dims,
            lo <= s <= t <= hi - 1,
            lo < hi,
            hi * dims <= w.len(),
            w.len() == w0.len(),
            dd == dims as int,
            pv as int == coord_at(w@, dd, hi as int - 1, ax as int),
            forall|x: int|
                0 <= x < w0.len() && !(lo * dims <= x < hi * dims) ==> #[trigger] w@[x] == w0[x],
            slice_pts(w@, dd, lo as int, hi as int).to_multiset() == slice_pts(
                w0,
                dd,
                lo as int,
                hi as int,
            ).to_multiset(),
            forall|u: int| lo <= u < s ==> #[trigger] coord_at(w@, dd, u, ax as int) < pv as int,
            forall|u: int| s <= u < t ==> #[trigger] coord_at(w@, dd, u, ax as int) >= pv as int,
        decreases hi - 1 - t,
    {
        proof {
            lemma_blk(t as int, hi as int, dd);
            lemma_blk(s as int, hi as int, dd);
            lemma_mul_nonnegative(lo as int, dd);
            lemma_mul_inequality(lo as int, s as int, dd);
            lemma_mul_inequality(lo as int, t as int, dd);
        }
        let ghost wpre = w@;
        let cv = coord_of(w, dims, t, ax);
        if cv < pv {
            swap_points(w, dims, s, t);
            proof {
                lemma_swap_ms(wpre, w@, dd, lo as int, hi as int, s as int, t as int);
                assert(pt_at(w@, dd, s as int)[ax as int] == coord_at(w@, dd, s as int, ax as int));
                assert(pt_at(wpre, dd, t as int)[ax as int] == coord_at(wpre, dd, t as int, ax as int));
                assert(coord_at(w@, dd, s as int, ax as int) == cv as int);
                if s < t {
                    assert(pt_at(w@, dd, t as int)[ax as int] == coord_at(w@, dd, t as int, ax as int));
                    assert(pt_at(wpre, dd, s as int)[ax as int] == coord_at(wpre, dd, s as int, ax as int));
                    assert(coord_at(w@, dd, t as int, ax as int) >= pv as int);
                }
                assert forall|u: int| lo <= u < hi && u != s && u != t implies #[trigger] coord_at(
                    w@,
                    dd,
                    u,
                    ax as int,
                ) == coord_at(wpre, dd, u, ax as int) by {
                    assert(pt_at(w@, dd, u) == pt_at(wpre, dd, u));
                    assert(pt_at(w@, dd, u)[ax as int] == coord_at(w@, dd, u, ax as int));
                    assert(pt_at(wpre, dd, u)[ax as int] == coord_at(wpre, dd, u, ax as int));
                }
            }
            s = s + 1;
        }
        t = t + 1;
    }
    proof {
        lemma_blk(s as int, hi as int, dd);
        lemma_mul_nonnegative(lo as int, dd);
        lemma_mul_inequality(lo as int, s as int, dd);
    }
    let ghost wpre = w@;
    swap_points(w, dims, s, hi - 1);
    proof {
        lemma_swap_ms(wpre, w@, dd, lo as int, hi as int, s as int, hi as int - 1);
        assert(pt_at(w@, dd, s as int)[ax as int] == coord_at(w@, dd, s as int, ax as int));
        assert(pt_at(wpre, dd, hi as int - 1)[ax as int] == coord_at(wpre, dd, hi as int - 1, ax as int));
        assert(coord_at(w@, dd, s as int, ax as int) == pv as int);
        assert forall|u: int| lo <= u < hi && u != s && u != hi - 1 implies #[trigger] coord_at(
            w@,
            dd,
            u,
            ax as int,
        ) == coord_at(wpre, dd, u, ax as int) by {
            assert(pt_at(w@, dd, u) == pt_at(wpre, dd, u));
            assert(pt_at(w@, dd, u)[ax as int] == coord_at(w@, dd, u, ax as int));
            assert(pt_at(wpre, dd, u)[ax as int] == coord_at(wpre, dd, u, ax as int));
        }
        if s < hi - 1 {
            assert(pt_at(w@, dd, hi as int - 1)[ax as int] == coord_at(w@, dd, hi as int - 1, ax as int));
            assert(pt_at(wpre, dd, s as int)[ax as int] == coord_at(wpre, dd, s as int, ax as int));
            assert(coord_at(w@, dd, hi as int - 1, ax as int) >= pv as int);
        }
    }
    s
}

/// Randomised quickselect on the point range `[lo, hi)` along axis `ax`:
/// afterwards the point at `k` has the value of rank `k - lo`, everything
/// before it is at most that value on the axis, everything after at least.
pub(crate) fn select_kth(
    w: &mut Vec<i32>,
    dims: usize,
    lo: usize,
    hi: usize,
    k: usize,
    ax: usize,
    rng: &mut rand_chacha::ChaCha20Rng,
)
    requires
        1 <= dims <= MAX_DIMS,
        ax < dims,
        lo <= k < hi,
        hi * dims <= old(w).len(),
    ensures
        final(w).len() == old(w).len(),
        forall|x: int|
            0 <= x < old(w).len() && !(lo * dims <= x < hi * dims) ==> final(w)@[x] == old(
                w,
            )@[x],
        slice_pts(final(w)@, dims as int, lo as int, hi as int).to_multiset() == slice_pts(
            old(w)@,
            dims as int,
            lo as int,
            hi as int,
        ).to_multiset(),
        forall|t: int|
            lo <= t <= k ==> #[trigger] coord_at(final(w)@, dims as int, t, ax as int) <= coord_at(
                final(w)@,
                dims as int,
                k as int,
                ax as int,
            ),
        forall|t: int|
            k <= t < hi ==> #[trigger] coord_at(final(w)@, dims as int, t, ax as int) >= coord_at(
                final(w)@,
                dims as int,
                k as int,
                ax as int,
            ),
    decreases hi - lo,
{
    let ghost dd = dims as int;
    let ghost w0 = old(w)@;
    let span = hi - lo;
    let r = next_random(rng);
    let p_idx = lo + ((r % (span as u64)) as usize);
    let p = partition_block(w, dims, lo, hi, ax, p_idx);
    let ghost w1 = w@;
    let ghost pv = coord_at(w1, dd, p as int, ax as int);
    if k < p {
        proof {
            lemma_blk(p as int, hi as int, dd);
            lemma_mul_nonnegative(lo as int, dd);
            lemma_mul_inequality(lo as int, p as int, dd);
        }
        select_kth(w, dims, lo, p, k, ax, rng);
        proof {
            lemma_blk(p as int, hi as int, dd);
            lemma_mul_nonnegative(lo as int, dd);
            lemma_mul_inequality(lo as int, p as int, dd);
            assert forall|m: int| p <= m < hi implies #[trigger] pt_at(w@, dd, m) == pt_at(
                w1,
                dd,
                m,
            ) by {
                lemma_blk(m, hi as int, dd);
                lemma_pt_unchanged(w1, w@, dd, m, lo as int, p as int);
            }
            lemma_slice_ms_compose(w1, w@, dd, lo as int, hi as int, lo as int, p as int);
            let pred_lt = |q: Seq<int>| q.len() == dd && q[ax as int] < pv;
            assert forall|t: int| 0 <= t < p - lo implies #[trigger] pred_lt(
                slice_pts(w1, dd, lo as int, p as int)[t],
            ) by {
                assert(slice_pts(w1, dd, lo as int, p as int)[t] == pt_at(w1, dd, lo + t));
                assert(coord_at(w1, dd, lo + t, ax as int) == pt_at(w1, dd, lo + t)[ax as int]);
            }
            lemma_ms_pointwise(
                slice_pts(w1, dd, lo as int, p as int),
                slice_pts(w@, dd, lo as int, p as int),
                pred_lt,
            );
            assert forall|t: int| lo <= t < p implies #[trigger] coord_at(w@, dd, t, ax as int) < pv by {
                assert(pred_lt(slice_pts(w@, dd, lo as int, p as int)[t - lo]));
                assert(slice_pts(w@, dd, lo as int, p as int)[t - lo] == pt_at(w@, dd, t));
                assert(coord_at(w@, dd, t, ax as int) == pt_at(w@, dd, t)[ax as int]);
            }
            assert forall|t: int| p <= t < hi implies #[trigger] coord_at(w@, dd, t, ax as int) >= pv by {
                assert(pt_at(w@, dd, t) == pt_at(w1, dd, t));
                assert(coord_at(w@, dd, t, ax as int) == pt_at(w@, dd, t)[ax as int]);
                assert(coord_at(w1, dd, t, ax as int) == pt_at(w1, dd, t)[ax as int]);
            }
            assert(coord_at(w@, dd, k as int, ax as int) < pv);
        }
    } else if k > p {
        proof {
            lemma_blk(p as int, hi as int, dd);
            lemma_mul_nonnegative(lo as int, dd);
            lemma_mul_inequality(lo as int, p as int + 1, dd);
        }
        select_kth(w, dims, p + 1, hi, k, ax, rng);
        proof {
            lemma_blk(p as int, hi as int, dd);
            lemma_mul_nonnegative(lo as int, dd);
            lemma_mul_inequality(lo as int, p as int + 1, dd);
            assert forall|m: int| lo <= m < p + 1 implies #[trigger] pt_at(w@, dd, m) == pt_at(
                w1,
                dd,
                m,
            ) by {
                lemma_blk(m, hi as int, dd);
                lemma_pt_unchanged(w1, w@, dd, m, p as int + 1, hi as int);
            }
            lemma_slice_ms_compose(w1, w@, dd, lo as int, hi as int, p as int + 1, hi as int);
            let pred_ge = |q: Seq<int>| q.len() == dd && q[ax as int] >= pv;
            assert forall|t: int| 0 <= t < hi - (p + 1) implies #[trigger] pred_ge(
                slice_pts(w1, dd, p as int + 1, hi as int)[t],
            ) by {
                assert(slice_pts(w1, dd, p as int + 1, hi as int)[t] == pt_at(w1, dd, p + 1 + t));
                assert(coord_at(w1, dd, p + 1 + t, ax as int) == pt_at(w1, dd, p + 1 + t)[ax as int]);
            }
            lemma_ms_pointwise(
                slice_pts(w1, dd, p as int + 1, hi as int),
                slice_pts(w@, dd, p as int + 1, hi as int),
                pred_ge,
            );
            assert forall|t: int| p + 1 <= t < hi implies #[trigger] coord_at(w@, dd, t, ax as int)
                >= pv by {
                assert(pred_ge(slice_pts(w@, dd, p as int + 1, hi as int)[t - (p + 1)]));
                assert(slice_pts(w@, dd, p as int + 1, hi as int)[t - (p + 1)] == pt_at(w@, dd, t));
                assert(coord_at(w@, dd, t, ax as int) == pt_at(w@, dd, t)[ax as int]);
            }
            assert forall|t: int| lo <= t <= p implies #[trigger] coord_at(w@, dd, t, ax as int)
                <= pv by {
                assert(pt_at(w@, dd, t) == pt_at(w1, dd, t));
                assert(coord_at(w@, dd, t, ax as int) == pt_at(w@, dd, t)[ax as int]);
                assert(coord_at(w1, dd, t, ax as int) == pt_at(w1, dd, t)[ax as int]);
            }
            assert(coord_at(w@, dd, k as int, ax as int) >= pv);
        }
    }
}


/// Partition the point range `[lo, hi)` at its median along axis `ax`.
///
/// Afterwards the lower half `[lo, mid)` is coordinate-wise at most the
/// returned split value and the upper half `[mid, hi)` at least it, where
/// `mid = lo + (hi - lo) / 2`.  The split value is the floor mean of the two
/// middle coordinates, except that a padding upper middle saturates the split
/// to the sentinel, so that no representable query can descend into a
/// padding-only subtree.
pub(crate) fn median_partition(
    w: &mut Vec<i32>,
    dims: usize,
    lo: usize,
    hi: usize,
    ax: usize,
    rng: &mut rand_chacha::ChaCha20Rng,
) -> (t: i32)
    requires
        1 <= dims <= MAX_DIMS,
        ax < dims,
        lo + 2 <= hi,
        hi * dims <= old(w).len(),
    ensures
        final(w).len() == old(w).len(),
        forall|x: int|
            0 <= x < old(w).len() && !(lo * dims <= x < hi * dims) ==> final(w)@[x] == old(
                w,
            )@[x],
        slice_pts(final(w)@, dims as int, lo as int, hi as int).to_multiset() == slice_pts(
            old(w)@,
            dims as int,
            lo as int,
            hi as int,
        ).to_multiset(),
        forall|u: int|
            lo <= u < lo + (hi - lo) / 2 ==> #[trigger] coord_at(final(w)@, dims as int, u, ax as int)
                <= t as int,
        forall|u: int|
            lo + (hi - lo) / 2 <= u < hi ==> #[trigger] coord_at(final(w)@, dims as int, u, ax as int)
                >= t as int,
        (t == PAD_COORD) <==> coord_at(
            final(w)@,
            dims as int,
            lo as int + (hi - lo) as int / 2,
            ax as int,
        ) == PAD_COORD as int,
        t as int == split_mean(
            max_over(
                axis_coord(final(w)@, dims as int, ax as int),
                lo as int,
                lo as int + (hi - lo) as int / 2,
            ),
            min_over(
                axis_coord(final(w)@, dims as int, ax as int),
                lo as int + (hi - lo) as int / 2,
                hi as int,
            ),
        ),
{
    let ghost dd = dims as int;
    let mid = lo + (hi - lo) / 2;
    select_kth(w, dims, lo, hi, mid, ax, rng);
    proof {
        lemma_blk(mid as int, hi as int, dd);
        lemma_blk(lo as int, hi as int, dd);
    }
    let b = coord_of(w, dims, mid, ax);
    let mut a = coord_of(w, dims, lo, ax);
    let mut u: usize = lo + 1;
    while u < mid
        invariant
            1 <= dims <= MAX_DIMS,
            ax < dims,
            lo + 1 <= u <= mid,
            mid < hi,
            hi * dims <= w.len(),
            dd == dims as int,
            forall|v: int| lo <= v < u ==> #[trigger] coord_at(w@, dd, v, ax as int) <= a as int,
            exists|v: int| lo <= v < u && #[trigger] coord_at(w@, dd, v, ax as int) == a as int,
        decreases mid - u,
    {
        proof {
            lemma_blk(u as int, hi as int, dd);
        }
        let cu = coord_of(w, dims, u, ax);
        if cu > a {
            a = cu;
        }
        u = u + 1;
    }
    proof {
        let v = choose|v: int|
            lo <= v < mid && #[trigger] coord_at(w@, dd, v, ax as int) == a as int;
        assert(coord_at(w@, dd, v, ax as int) <= coord_at(w@, dd, mid as int, ax as int));
        let f = axis_coord(w@, dd, ax as int);
        assert forall|u: int| lo <= u < mid implies #[trigger] f(u) <= a as int by {
            assert(coord_at(w@, dd, u, ax as int) <= a as int);
        }
        assert(f(v) == a as int);
        lemma_max_over_char(f, lo as int, mid as int, a as int);
        assert forall|u: int| mid <= u < hi implies #[trigger] f(u) >= b as int by {
            assert(coord_at(w@, dd, u, ax as int) >= coord_at(w@, dd, mid as int, ax as int));
        }
        assert(f(mid as int) == b as int);
        lemma_min_over_char(f, mid as int, hi as int, b as int);
    }
    if b == PAD_COORD {
        PAD_COORD
    } else {
        let d: u64 = ((b as i64) - (a as i64)) as u64;
        let t: i32 = ((a as i64) + ((d / 2) as i64)) as i32;
        proof {
            assert(d as int == b as int - a as int);
            assert(t as int == a as int + (b as int - a as int) / 2);
        }
        t
    }
}

} // verus!
