//! A power-of-two k-d tree.
//!
//! `N` input points are padded with sentinel points up to the next power of
//! two `n2`; a recursive median partition writes one split plane per internal
//! node into a breadth-first test array and leaves exactly one point per
//! leaf.  The approximate query descends the test array by `log2(n2)` strict
//! comparisons; the exact query backtracks with best-so-far pruning and
//! returns a true nearest leaf.  Points are stored transposed
//! (structure-of-arrays): coordinate `c` of leaf `i` sits at `c * n2 + i`.

use vstd::prelude::*;
use crate::geom::{
    coord_at, dist_sq, dist_sq_upto, in_box, is_pad, iseq, lemma_box_dist_le,
    lemma_dist_sq_upto_sym, lemma_pad_eq, pad_pt, pt_at, real_pt, slice_pts, sq, transposed_pt,
    Volume, COORD_INF, MAX_DIMS, PAD_COORD,
};
use crate::select::{
    default_rng, lemma_count_all, lemma_count_le_len, lemma_count_none, lemma_ms_exists,
    lemma_ms_pointwise, lemma_slice_count_split, lemma_slice_ms_compose, median_partition,
};
use crate::tree::{
    axis_coord, block_hi, block_lo, block_mid, descend, descent_leaf, lemma_block_nested,
    lemma_block_of, lemma_block_split, lemma_block_step, lemma_descent_leaf_range,
    lemma_descent_side, lemma_max_min_over_in, lemma_max_over_char, lemma_min_over_char,
    lemma_node_bands, lemma_node_of_block, lemma_node_of_outside, lemma_node_range,
    lemma_over_congruent, lemma_pow2i_mono, lemma_pow2i_pos, lemma_side_of_block, max_over,
    min_over, node_of, on_side, padded_inputs, padded_points, path_ok, pow2_ceil, pow2i, side_of,
    split_mean, splits_ok, MAX_POINTS,
};
use vstd::arithmetic::mul::{
    lemma_mul_inequality, lemma_mul_is_distributive_add_other_way, lemma_mul_nonnegative,
    lemma_mul_is_commutative,
};

verus! {

/// A point block outside a rewritten point range is unchanged; restated here
/// for the build's frame reasoning.
pub(crate) proof fn lemma_pt_frame(s1: Seq<i32>, s2: Seq<i32>, dims: int, t: int, a: int, b: int)
    requires
        1 <= dims,
        s1.len() == s2.len(),
        0 <= t,
        (t + 1) * dims <= s1.len(),
        0 <= a <= b,
        t < a || t >= b,
        forall|x: int|
            0 <= x < s1.len() && !(a * dims <= x < b * dims) ==> #[trigger] s2[x] == s1[x],
    ensures
        pt_at(s2, dims, t) == pt_at(s1, dims, t),
{
    lemma_mul_nonnegative(t, dims);
    lemma_mul_is_distributive_add_other_way(dims, t, 1);
    lemma_mul_nonnegative(a, dims);
    assert forall|c: int| 0 <= c < dims implies #[trigger] s2[t * dims + c] == s1[t * dims + c] by {
        if t < a {
            lemma_mul_inequality(t + 1, a, dims);
        } else {
            lemma_mul_inequality(b, t, dims);
        }
    }
    assert(pt_at(s2, dims, t) =~= pt_at(s1, dims, t));
}

/// Recursive build of the test array over the point range
/// `[lo, lo + size)`, whose subtree root is `node` at depth `depth`.
///
/// Afterwards every leaf of the range holds a point that is consistent with
/// every split written on its path (`path_ok`), the range is a permutation
/// of what it held, and nothing outside the range, nor any test slot on a
/// path that avoids the range, has changed.
#[verifier::rlimit(100)]
fn build_recur(
    w: &mut Vec<i32>,
    tests: &mut Vec<i32>,
    dims: usize,
    height: usize,
    depth: usize,
    lo: usize,
    size: usize,
    node: usize,
    Ghost(pf): Ghost<int>,
    rng: &mut rand_chacha::ChaCha20Rng,
)
    requires
        1 <= dims <= MAX_DIMS,
        depth <= height <= 31,
        old(w).len() == pow2i(height as int) * dims,
        old(tests).len() == pow2i(height as int) - 1,
        size == pow2i(height as int - depth as int),
        (lo as int) % pow2i(height as int - depth as int) == 0,
        lo + size <= pow2i(height as int),
        node == node_of(lo as int, depth as int, height as int),
        lo <= pf <= lo + size,
        slice_pts(old(w)@, dims as int, lo as int, lo + size).to_multiset().count(
            pad_pt(dims as int),
        ) == lo + size - pf,
        forall|l: int|
            lo <= l < lo + size ==> is_pad(#[trigger] pt_at(old(w)@, dims as int, l)) || real_pt(
                pt_at(old(w)@, dims as int, l),
            ),
    ensures
        final(w).len() == old(w).len(),
        final(tests).len() == old(tests).len(),
        forall|x: int|
            0 <= x < old(w).len() && !(lo * dims <= x < (lo + size) * dims) ==> final(w)@[x]
                == old(w)@[x],
        slice_pts(final(w)@, dims as int, lo as int, lo + size).to_multiset() == slice_pts(
            old(w)@,
            dims as int,
            lo as int,
            lo + size,
        ).to_multiset(),
        forall|l2: int, e2: int|
            0 <= l2 < pow2i(height as int) && 0 <= e2 < height && (e2 < depth || l2 < lo || l2
                >= lo + size) ==> final(tests)@[node_of(l2, e2, height as int)] == old(
                tests,
            )@[node_of(l2, e2, height as int)],
        forall|l: int|
            lo <= l < lo + size ==> path_ok(
                final(tests)@,
                dims as int,
                height as int,
                depth as int,
                l,
                #[trigger] pt_at(final(w)@, dims as int, l),
            ),
        forall|l: int|
            lo <= l < lo + size ==> (is_pad(#[trigger] pt_at(final(w)@, dims as int, l)) <==> l
                >= pf),
        forall|l: int|
            lo <= l < lo + size ==> is_pad(#[trigger] pt_at(final(w)@, dims as int, l)) || real_pt(
                pt_at(final(w)@, dims as int, l),
            ),
        forall|l: int|
            lo <= l < lo + size ==> #[trigger] splits_ok(
                final(tests)@,
                final(w)@,
                dims as int,
                height as int,
                depth as int,
                l,
            ),
    decreases height - depth,
{
    let ghost dd = dims as int;
    let ghost hh = height as int;
    let ghost n2 = pow2i(hh);
    proof {
        lemma_pow2i_pos(hh - depth);
        lemma_pow2i_pos(hh);
        assert(pow2i(hh) <= 0x8000_0000) by {
            lemma_pow2i_mono(hh, 31);
            reveal_with_fuel(pow2i, 33);
        }
    }
    if size >= 2 {
        let half = size / 2;
        let mid = lo + half;
        let ax = depth % dims;
        proof {
            lemma_block_split(lo as int, depth as int, hh);
            assert(half == pow2i(hh - depth - 1));
            lemma_node_range(lo as int, depth as int, hh);
            lemma_pow2i_mono(depth as int + 1, hh);
            assert(node < pow2i(hh) - 1);
            // index bounds for the partition
            lemma_mul_inequality(lo as int + size, pow2i(hh), dd);
            lemma_mul_nonnegative(lo as int, dd);
        }
        let ghost w0 = w@;
        let ghost tests0 = tests@;
        let t = median_partition(w, dims, lo, lo + size, ax, rng);
        let ghost w1 = w@;
        tests[node] = t;
        let ghost tests1 = tests@;
        let ghost padv = pad_pt(dd);
        let ghost cl = slice_pts(w1, dd, lo as int, mid as int).to_multiset().count(padv);
        let ghost cr = slice_pts(w1, dd, mid as int, lo + size).to_multiset().count(padv);
        let ghost pf_l = mid as int - cl;
        let ghost pf_r = (lo + size) as int - cr;
        proof {
            broadcast use vstd::seq_lib::group_to_multiset_ensures, vstd::multiset::group_multiset_axioms;

            lemma_mul_inequality(lo as int + half, pow2i(hh), dd);
            // finite-or-padding carries through the permutation
            let por = |q: Seq<int>| (is_pad(q) || real_pt(q)) && q.len() == dd;
            assert forall|u: int| 0 <= u < size implies #[trigger] por(
                slice_pts(w0, dd, lo as int, lo + size)[u],
            ) by {
                assert(slice_pts(w0, dd, lo as int, lo + size)[u] == pt_at(w0, dd, lo + u));
            }
            lemma_ms_pointwise(
                slice_pts(w0, dd, lo as int, lo + size),
                slice_pts(w1, dd, lo as int, lo + size),
                por,
            );
            assert forall|l: int| lo <= l < lo + size implies (is_pad(
                #[trigger] pt_at(w1, dd, l),
            ) || real_pt(pt_at(w1, dd, l))) by {
                assert(por(slice_pts(w1, dd, lo as int, lo + size)[l - lo]));
                assert(slice_pts(w1, dd, lo as int, lo + size)[l - lo] == pt_at(w1, dd, l));
            }
            // the padding count of the range survives the partition and
            // splits between the halves
            assert(slice_pts(w1, dd, lo as int, lo + size).to_multiset().count(padv) == lo + size
                - pf);
            lemma_slice_count_split(w1, dd, lo as int, mid as int, lo + size, padv);
            lemma_count_le_len(slice_pts(w1, dd, lo as int, mid as int), padv);
            lemma_count_le_len(slice_pts(w1, dd, mid as int, lo + size), padv);
            if cl > 0 {
                // a padding block in the lower half saturates the split: the
                // whole upper half is padding
                assert(slice_pts(w1, dd, lo as int, mid as int).contains(padv));
                let u = choose|u: int|
                    0 <= u < half && #[trigger] slice_pts(w1, dd, lo as int, mid as int)[u]
                        == padv;
                assert(pt_at(w1, dd, lo + u) == padv);
                assert(pt_at(w1, dd, lo + u)[ax as int] == PAD_COORD as int);
                assert(coord_at(w1, dd, lo + u, ax as int) == pt_at(w1, dd, lo + u)[ax as int]);
                assert(coord_at(w1, dd, lo + u, ax as int) <= t as int);
                assert(t == PAD_COORD);
                assert forall|l: int| mid <= l < lo + size implies #[trigger] pt_at(w1, dd, l)
                    == padv by {
                    assert(coord_at(w1, dd, l, ax as int) >= t as int);
                    assert(pt_at(w1, dd, l)[ax as int] == coord_at(w1, dd, l, ax as int));
                    if real_pt(pt_at(w1, dd, l)) {
                        assert(pt_at(w1, dd, l)[ax as int] < PAD_COORD as int);
                        assert(false);
                    }
                    lemma_pad_eq(pt_at(w1, dd, l), dd);
                }
                assert forall|u2: int| 0 <= u2 < half implies #[trigger] slice_pts(
                    w1,
                    dd,
                    mid as int,
                    lo + size,
                )[u2] == padv by {
                    assert(slice_pts(w1, dd, mid as int, lo + size)[u2] == pt_at(w1, dd, mid + u2));
                }
                lemma_count_all(slice_pts(w1, dd, mid as int, lo + size), padv);
                assert(cr == half);
            }
            assert(lo <= pf_l <= mid);
            assert(mid <= pf_r <= lo + size);
        }
        build_recur(w, tests, dims, height, depth + 1, lo, half, 2 * node + 1, Ghost(pf_l), rng);
        let ghost w2 = w@;
        let ghost tests2 = tests@;
        proof {
            // the upper half's blocks were untouched by the left build
            assert forall|m: int| mid <= m < lo + size implies #[trigger] pt_at(w2, dd, m) == pt_at(
                w1,
                dd,
                m,
            ) by {
                lemma_mul_inequality(m + 1, lo as int + size, dd);
                lemma_pt_frame(w1, w2, dd, m, lo as int, mid as int);
            }
            assert(slice_pts(w2, dd, mid as int, lo + size) =~~= slice_pts(
                w1,
                dd,
                mid as int,
                lo + size,
            ));
            assert forall|l: int| mid <= l < lo + size implies is_pad(
                #[trigger] pt_at(w2, dd, l),
            ) || real_pt(pt_at(w2, dd, l)) by {
                assert(pt_at(w2, dd, l) == pt_at(w1, dd, l));
            }
        }
        build_recur(w, tests, dims, height, depth + 1, mid, half, 2 * node + 2, Ghost(pf_r), rng);
        let ghost w3 = w@;
        let ghost tests3 = tests@;
        proof {
            let lop = lo as int;
            let midp = mid as int;
            let hip = lo + size;
            lemma_mul_inequality(lop, midp, dd);
            lemma_mul_inequality(midp, hip, dd);
            lemma_mul_inequality(lop, hip, dd);
            // point blocks of the left half are untouched by the right build
            assert forall|m: int| lop <= m < midp implies #[trigger] pt_at(w3, dd, m) == pt_at(
                w2,
                dd,
                m,
            ) by {
                lemma_mul_inequality(m + 1, hip, dd);
                lemma_pt_frame(w2, w3, dd, m, midp, hip);
            }
            // point blocks of the right half were untouched by the left build
            assert forall|m: int| midp <= m < hip implies #[trigger] pt_at(w2, dd, m) == pt_at(
                w1,
                dd,
                m,
            ) by {
                lemma_mul_inequality(m + 1, hip, dd);
                lemma_pt_frame(w1, w2, dd, m, lop, midp);
            }
            // multiset of the whole range is preserved across both builds
            lemma_slice_ms_compose(w1, w2, dd, lop, hip, lop, midp);
            lemma_slice_ms_compose(w2, w3, dd, lop, hip, midp, hip);
            // test slots: the frame in path-node form
            assert forall|l2: int, e2: int|
                0 <= l2 < n2 && 0 <= e2 < hh && (e2 < depth || l2 < lop || l2 >= hip) implies
                tests3[node_of(l2, e2, hh)] == tests0[node_of(l2, e2, hh)] by {
                lemma_node_range(l2, e2, hh);
                lemma_pow2i_mono(e2 + 1, hh);
                // the slot differs from `node`
                if e2 < depth {
                    lemma_node_range(l2, e2, hh);
                    lemma_node_bands(l2, e2, lo as int, depth as int, hh);
                } else if e2 == depth {
                    lemma_node_of_outside(lop, l2, depth as int, hh);
                } else {
                    lemma_node_range(l2, e2, hh);
                    lemma_node_bands(lo as int, depth as int, l2, e2, hh);
                }
                // and from everything either child wrote
                if e2 < depth + 1 {
                    assert(tests2[node_of(l2, e2, hh)] == tests1[node_of(l2, e2, hh)]);
                    assert(tests3[node_of(l2, e2, hh)] == tests2[node_of(l2, e2, hh)]);
                } else {
                    if l2 < lop || l2 >= hip {
                        lemma_node_range(l2, e2, hh);
                        assert(l2 < lop || l2 >= midp);
                        assert(l2 < midp || l2 >= hip);
                        assert(tests2[node_of(l2, e2, hh)] == tests1[node_of(l2, e2, hh)]);
                        assert(tests3[node_of(l2, e2, hh)] == tests2[node_of(l2, e2, hh)]);
                    }
                }
                assert(tests1[node_of(l2, e2, hh)] == tests0[node_of(l2, e2, hh)]);
            }
            // the split value still stands at `node` in the final tests
            assert(tests3[node as int] == t) by {
                assert(tests1[node as int] == t);
                lemma_node_range(lo as int, depth as int, hh);
                assert forall|l2: int, e2: int|
                    0 <= l2 < n2 && 0 <= e2 < hh && e2 > depth implies node_of(l2, e2, hh)
                        != node as int by {
                    lemma_node_bands(lo as int, depth as int, l2, e2, hh);
                }
                assert(tests2[node as int] == tests1[node as int]);
                assert(tests3[node as int] == tests2[node as int]);
            }
            // coordinates of the left half still lie at or below the split
            let pred_le = |q: Seq<int>| q.len() == dd && q[ax as int] <= t as int;
            assert forall|u: int| 0 <= u < midp - lop implies #[trigger] pred_le(
                slice_pts(w1, dd, lop, midp)[u],
            ) by {
                assert(slice_pts(w1, dd, lop, midp)[u] == pt_at(w1, dd, lop + u));
                assert(coord_at(w1, dd, lop + u, ax as int) == pt_at(w1, dd, lop + u)[ax as int]);
            }
            assert(slice_pts(w2, dd, lop, midp).to_multiset() == slice_pts(
                w1,
                dd,
                lop,
                midp,
            ).to_multiset());
            lemma_ms_pointwise(
                slice_pts(w1, dd, lop, midp),
                slice_pts(w2, dd, lop, midp),
                pred_le,
            );
            assert forall|l: int| lop <= l < midp implies pred_le(#[trigger] pt_at(w3, dd, l)) by {
                assert(pred_le(slice_pts(w2, dd, lop, midp)[l - lop]));
                assert(slice_pts(w2, dd, lop, midp)[l - lop] == pt_at(w2, dd, l));
            }
            // coordinates of the right half still lie at or above the split
            let pred_ge = |q: Seq<int>| q.len() == dd && q[ax as int] >= t as int;
            assert forall|u: int| 0 <= u < hip - midp implies #[trigger] pred_ge(
                slice_pts(w2, dd, midp, hip)[u],
            ) by {
                assert(slice_pts(w2, dd, midp, hip)[u] == pt_at(w2, dd, midp + u));
                assert(pt_at(w2, dd, midp + u) == pt_at(w1, dd, midp + u));
                assert(coord_at(w1, dd, midp + u, ax as int) == pt_at(w1, dd, midp + u)[ax as int]);
            }
            lemma_ms_pointwise(
                slice_pts(w2, dd, midp, hip),
                slice_pts(w3, dd, midp, hip),
                pred_ge,
            );
            assert forall|l: int| midp <= l < hip implies pred_ge(#[trigger] pt_at(w3, dd, l)) by {
                assert(pred_ge(slice_pts(w3, dd, midp, hip)[l - midp]));
                assert(slice_pts(w3, dd, midp, hip)[l - midp] == pt_at(w3, dd, l));
            }
            // assemble path_ok for the whole range
            assert forall|l: int| lop <= l < hip implies path_ok(
                tests3,
                dd,
                hh,
                depth as int,
                l,
                #[trigger] pt_at(w3, dd, l),
            ) by {
                let p = pt_at(w3, dd, l);
                lemma_side_of_block(lop, l, depth as int, hh);
                lemma_node_of_block(lop, l, depth as int, hh);
                if l < midp {
                    assert(path_ok(tests3, dd, hh, depth as int + 1, l, p));
                    assert(pred_le(p));
                    assert(p[ax as int] <= t as int);
                    assert(side_of(l, depth as int, hh) == 0);
                    assert(on_side(
                        p[depth as int % dd],
                        tests3[node_of(l, depth as int, hh)] as int,
                        side_of(l, depth as int, hh),
                    ));
                } else {
                    assert(path_ok(tests3, dd, hh, depth as int + 1, l, p));
                    assert(pred_ge(p));
                    assert(side_of(l, depth as int, hh) == 1);
                    assert(on_side(
                        p[depth as int % dd],
                        tests3[node_of(l, depth as int, hh)] as int,
                        side_of(l, depth as int, hh),
                    ));
                }
                assert forall|e: int| depth <= e < hh implies on_side(
                    p[e % dd],
                    #[trigger] tests3[node_of(l, e, hh)] as int,
                    side_of(l, e, hh),
                ) by {
                    if e > depth {
                        assert(on_side(p[e % dd], tests3[node_of(l, e, hh)] as int, side_of(l, e, hh)));
                    }
                }
            }
            // padding blocks sit exactly at the tail of the range
            assert forall|l: int| lop <= l < hip implies (is_pad(#[trigger] pt_at(w3, dd, l))
                <==> l >= pf) by {
                if l < midp {
                    assert(pt_at(w3, dd, l) == pt_at(w2, dd, l));
                    assert(is_pad(pt_at(w2, dd, l)) <==> l >= pf_l);
                    if cl > 0 {
                        assert(pf_l == pf);
                    } else {
                        assert(pf_l == midp);
                        assert(pf == hip - cr);
                    }
                } else {
                    assert(is_pad(pt_at(w3, dd, l)) <==> l >= pf_r);
                    if cl > 0 {
                        assert(pf_r == midp);
                        assert(pf == midp - cl);
                    } else {
                        assert(pf_r == pf);
                    }
                }
            }
            // and every block is padding or a representable point
            assert forall|l: int| lop <= l < hip implies is_pad(#[trigger] pt_at(w3, dd, l))
                || real_pt(pt_at(w3, dd, l)) by {
                if l < midp {
                    assert(pt_at(w3, dd, l) == pt_at(w2, dd, l));
                    assert(is_pad(pt_at(w2, dd, l)) || real_pt(pt_at(w2, dd, l)));
                }
            }
            // the split policy at this node: the extrema of the two halves
            // survive both permutations
            let fax1 = axis_coord(w1, dd, ax as int);
            let fax3 = axis_coord(w3, dd, ax as int);
            let bigm = max_over(fax1, lop, midp);
            let smallm = min_over(fax1, midp, hip);
            assert(t as int == split_mean(bigm, smallm));
            lemma_max_min_over_in(fax1, lop, midp);
            lemma_max_min_over_in(fax1, midp, hip);
            let le_m = |q: Seq<int>| q.len() == dd && q[ax as int] <= bigm;
            assert forall|u: int| 0 <= u < midp - lop implies #[trigger] le_m(
                slice_pts(w1, dd, lop, midp)[u],
            ) by {
                assert(slice_pts(w1, dd, lop, midp)[u] == pt_at(w1, dd, lop + u));
                assert(fax1(lop + u) <= bigm);
                assert(fax1(lop + u) == coord_at(w1, dd, lop + u, ax as int));
                assert(pt_at(w1, dd, lop + u)[ax as int] == coord_at(w1, dd, lop + u, ax as int));
            }
            lemma_ms_pointwise(
                slice_pts(w1, dd, lop, midp),
                slice_pts(w2, dd, lop, midp),
                le_m,
            );
            let eq_m = |q: Seq<int>| q.len() == dd && q[ax as int] == bigm;
            let uw = choose|u: int| lop <= u < midp && #[trigger] fax1(u) == bigm;
            assert(eq_m(slice_pts(w1, dd, lop, midp)[uw - lop])) by {
                assert(slice_pts(w1, dd, lop, midp)[uw - lop] == pt_at(w1, dd, uw));
                assert(fax1(uw) == coord_at(w1, dd, uw, ax as int));
                assert(pt_at(w1, dd, uw)[ax as int] == coord_at(w1, dd, uw, ax as int));
            }
            lemma_ms_exists(
                slice_pts(w1, dd, lop, midp),
                slice_pts(w2, dd, lop, midp),
                eq_m,
            );
            assert forall|u: int| lop <= u < midp implies #[trigger] fax3(u) <= bigm by {
                assert(le_m(slice_pts(w2, dd, lop, midp)[u - lop]));
                assert(slice_pts(w2, dd, lop, midp)[u - lop] == pt_at(w2, dd, u));
                assert(pt_at(w3, dd, u) == pt_at(w2, dd, u));
                assert(fax3(u) == coord_at(w3, dd, u, ax as int));
                assert(pt_at(w3, dd, u)[ax as int] == coord_at(w3, dd, u, ax as int));
            }
            assert(exists|u: int| lop <= u < midp && #[trigger] fax3(u) == bigm) by {
                let j = choose|j: int|
                    0 <= j < midp - lop && #[trigger] eq_m(slice_pts(w2, dd, lop, midp)[j]);
                assert(slice_pts(w2, dd, lop, midp)[j] == pt_at(w2, dd, lop + j));
                assert(pt_at(w3, dd, lop + j) == pt_at(w2, dd, lop + j));
                assert(pt_at(w3, dd, lop + j)[ax as int] == coord_at(w3, dd, lop + j, ax as int));
                assert(fax3(lop + j) == bigm);
            }
            lemma_max_over_char(fax3, lop, midp, bigm);
            let ge_m = |q: Seq<int>| q.len() == dd && q[ax as int] >= smallm;
            assert forall|u: int| 0 <= u < hip - midp implies #[trigger] ge_m(
                slice_pts(w2, dd, midp, hip)[u],
            ) by {
                assert(slice_pts(w2, dd, midp, hip)[u] == pt_at(w2, dd, midp + u));
                assert(pt_at(w2, dd, midp + u) == pt_at(w1, dd, midp + u));
                assert(fax1(midp + u) >= smallm);
                assert(fax1(midp + u) == coord_at(w1, dd, midp + u, ax as int));
                assert(pt_at(w1, dd, midp + u)[ax as int] == coord_at(w1, dd, midp + u, ax as int));
            }
            lemma_ms_pointwise(
                slice_pts(w2, dd, midp, hip),
                slice_pts(w3, dd, midp, hip),
                ge_m,
            );
            let eq_s = |q: Seq<int>| q.len() == dd && q[ax as int] == smallm;
            let vw = choose|u: int| midp <= u < hip && #[trigger] fax1(u) == smallm;
            assert(eq_s(slice_pts(w2, dd, midp, hip)[vw - midp])) by {
                assert(slice_pts(w2, dd, midp, hip)[vw - midp] == pt_at(w2, dd, vw));
                assert(pt_at(w2, dd, vw) == pt_at(w1, dd, vw));
                assert(fax1(vw) == coord_at(w1, dd, vw, ax as int));
                assert(pt_at(w1, dd, vw)[ax as int] == coord_at(w1, dd, vw, ax as int));
            }
            lemma_ms_exists(
                slice_pts(w2, dd, midp, hip),
                slice_pts(w3, dd, midp, hip),
                eq_s,
            );
            assert forall|u: int| midp <= u < hip implies #[trigger] fax3(u) >= smallm by {
                assert(ge_m(slice_pts(w3, dd, midp, hip)[u - midp]));
                assert(slice_pts(w3, dd, midp, hip)[u - midp] == pt_at(w3, dd, u));
                assert(fax3(u) == coord_at(w3, dd, u, ax as int));
                assert(pt_at(w3, dd, u)[ax as int] == coord_at(w3, dd, u, ax as int));
            }
            assert(exists|u: int| midp <= u < hip && #[trigger] fax3(u) == smallm) by {
                let j = choose|j: int|
                    0 <= j < hip - midp && #[trigger] eq_s(slice_pts(w3, dd, midp, hip)[j]);
                assert(slice_pts(w3, dd, midp, hip)[j] == pt_at(w3, dd, midp + j));
                assert(pt_at(w3, dd, midp + j)[ax as int] == coord_at(w3, dd, midp + j, ax as int));
                assert(fax3(midp + j) == smallm);
            }
            lemma_min_over_char(fax3, midp, hip, smallm);
            // assemble the split policy for every leaf of the range
            assert forall|l: int| lop <= l < hip implies #[trigger] splits_ok(
                tests3,
                w3,
                dd,
                hh,
                depth as int,
                l,
            ) by {
                lemma_block_of(lop, l, depth as int, hh);
                lemma_node_of_block(lop, l, depth as int, hh);
                assert(tests3[node_of(l, depth as int, hh)] == t);
                assert(depth as int % dd == ax as int);
                assert(axis_coord(w3, dd, depth as int % dd) == fax3);
                assert(tests3[node_of(l, depth as int, hh)] as int == split_mean(
                    max_over(
                        axis_coord(w3, dd, depth as int % dd),
                        block_lo(l, depth as int, hh),
                        block_mid(l, depth as int, hh),
                    ),
                    min_over(
                        axis_coord(w3, dd, depth as int % dd),
                        block_mid(l, depth as int, hh),
                        block_hi(l, depth as int, hh),
                    ),
                ));
                if l < midp {
                    assert(splits_ok(tests2, w2, dd, hh, depth as int + 1, l));
                    assert forall|e: int| depth + 1 <= e < hh implies #[trigger] tests3[node_of(
                        l,
                        e,
                        hh,
                    )] as int == split_mean(
                        max_over(axis_coord(w3, dd, e % dd), block_lo(l, e, hh), block_mid(l, e, hh)),
                        min_over(axis_coord(w3, dd, e % dd), block_mid(l, e, hh), block_hi(l, e, hh)),
                    ) by {
                        assert(tests3[node_of(l, e, hh)] == tests2[node_of(l, e, hh)]);
                        lemma_block_nested(l, depth as int + 1, e, hh);
                        lemma_block_of(lop, l, depth as int + 1, hh);
                        assert(block_hi(l, e, hh) <= midp);
                        assert forall|u: int|
                            block_lo(l, e, hh) <= u < block_hi(l, e, hh) implies #[trigger] axis_coord(
                            w2,
                            dd,
                            e % dd,
                        )(u) == axis_coord(w3, dd, e % dd)(u) by {
                            assert(pt_at(w3, dd, u) == pt_at(w2, dd, u));
                            assert(axis_coord(w2, dd, e % dd)(u) == coord_at(w2, dd, u, e % dd));
                            assert(axis_coord(w3, dd, e % dd)(u) == coord_at(w3, dd, u, e % dd));
                            assert(pt_at(w2, dd, u)[e % dd] == coord_at(w2, dd, u, e % dd));
                            assert(pt_at(w3, dd, u)[e % dd] == coord_at(w3, dd, u, e % dd));
                        }
                        lemma_over_congruent(
                            axis_coord(w2, dd, e % dd),
                            axis_coord(w3, dd, e % dd),
                            block_lo(l, e, hh),
                            block_mid(l, e, hh),
                        );
                        lemma_over_congruent(
                            axis_coord(w2, dd, e % dd),
                            axis_coord(w3, dd, e % dd),
                            block_mid(l, e, hh),
                            block_hi(l, e, hh),
                        );
                        assert(tests2[node_of(l, e, hh)] as int == split_mean(
                            max_over(axis_coord(w2, dd, e % dd), block_lo(l, e, hh), block_mid(l, e, hh)),
                            min_over(axis_coord(w2, dd, e % dd), block_mid(l, e, hh), block_hi(l, e, hh)),
                        ));
                    }
                } else {
                    assert(splits_ok(tests3, w3, dd, hh, depth as int + 1, l));
                }
                assert forall|e: int| depth <= e < hh implies #[trigger] tests3[node_of(
                    l,
                    e,
                    hh,
                )] as int == split_mean(
                    max_over(axis_coord(w3, dd, e % dd), block_lo(l, e, hh), block_mid(l, e, hh)),
                    min_over(axis_coord(w3, dd, e % dd), block_mid(l, e, hh), block_hi(l, e, hh)),
                ) by {
                    if e > depth {
                        assert(tests3[node_of(l, e, hh)] as int == split_mean(
                            max_over(axis_coord(w3, dd, e % dd), block_lo(l, e, hh), block_mid(l, e, hh)),
                            min_over(axis_coord(w3, dd, e % dd), block_mid(l, e, hh), block_hi(l, e, hh)),
                        ));
                    }
                }
            }
        }
    } else {
        proof {
            broadcast use vstd::seq_lib::group_to_multiset_ensures, vstd::multiset::group_multiset_axioms;

            assert(size == 1);
            assert(depth == height) by {
                if depth < height {
                    lemma_pow2i_pos(hh - depth - 1);
                    assert(pow2i(hh - depth) == 2 * pow2i(hh - depth - 1));
                }
            }
            // a single leaf holds a padding block exactly when the declared
            // boundary puts it among the padding
            let pp = pt_at(w@, dd, lo as int);
            assert(slice_pts(w@, dd, lo as int, lo + 1)[0] == pp);
            lemma_pad_eq(pp, dd);
            if pf == lo {
                assert(slice_pts(w@, dd, lo as int, lo + 1).to_multiset().count(pad_pt(dd)) == 1);
                assert(slice_pts(w@, dd, lo as int, lo + 1).contains(pad_pt(dd)));
                let i = choose|i: int|
                    0 <= i < 1 && #[trigger] slice_pts(w@, dd, lo as int, lo + 1)[i] == pad_pt(
                        dd,
                    );
                assert(pp == pad_pt(dd));
            } else {
                assert(pf == lo + 1);
                if is_pad(pp) {
                    assert(slice_pts(w@, dd, lo as int, lo + 1).contains(pad_pt(dd)));
                    assert(slice_pts(w@, dd, lo as int, lo + 1).to_multiset().count(pad_pt(dd))
                        > 0);
                    assert(false);
                }
            }
        }
    }
}

/// A complete-binary power-of-two k-d tree over fixed-point coordinates.
///
/// The tree is immutable after construction: every query method borrows it
/// immutably, so no public operation can alter it.
pub struct PkdTree {
    dims: usize,
    npts: usize,
    n2: usize,
    height: usize,
    tests: Vec<i32>,
    points: Vec<i32>,
    aos: Ghost<Seq<i32>>,
}

impl PkdTree {
    /// The dimension of the space.
    pub closed spec fn dims_spec(&self) -> int {
        self.dims as int
    }

    /// The number of leaves: the input count rounded up to a power of two.
    pub closed spec fn num_leaves(&self) -> int {
        self.n2 as int
    }

    /// The number of indexed points; leaves from this index on hold padding.
    pub closed spec fn num_points(&self) -> int {
        self.npts as int
    }

    /// The height of the tree: `n2 == 2^height`.
    pub closed spec fn height_spec(&self) -> int {
        self.height as int
    }

    /// The point stored at leaf `l`.
    pub closed spec fn leaf_pt(&self, l: int) -> Seq<int> {
        transposed_pt(self.points@, self.n2 as int, l, self.dims as int)
    }

    /// All leaf points, in leaf order.
    pub open spec fn leaf_seq(&self) -> Seq<Seq<int>> {
        Seq::new(self.num_leaves() as nat, |l: int| self.leaf_pt(l))
    }

    /// The leaf that the branchless descent reaches for this needle.
    pub closed spec fn descent_of(&self, needle: Seq<int>) -> int {
        descent_leaf(self.tests@, self.dims as int, needle, self.height as int)
    }

    /// Structural well-formedness: the partition invariant (each leaf's
    /// point lies on the prescribed side of every split on its path), the
    /// split policy (every recorded test is the saturated floor mean of the
    /// two middle-rank coordinates of its node's block), and the padding
    /// layout (padding blocks occupy exactly the leaves from `num_points`
    /// on).  The ghost `aos` field mirrors the leaf points in flat
    /// array-of-structures order.
    pub closed spec fn wf(&self) -> bool {
        &&& 1 <= self.dims <= MAX_DIMS
        &&& self.height <= 31
        &&& self.n2 == pow2i(self.height as int)
        &&& 1 <= self.npts <= self.n2
        &&& self.tests@.len() == self.n2 - 1
        &&& self.points@.len() == self.n2 * self.dims
        &&& forall|l: int|
            0 <= l < self.n2 ==> #[trigger] pt_at(self.aos@, self.dims as int, l) == self.leaf_pt(
                l,
            )
        &&& forall|l: int|
            0 <= l < self.n2 ==> path_ok(
                self.tests@,
                self.dims as int,
                self.height as int,
                0,
                l,
                #[trigger] self.leaf_pt(l),
            )
        &&& forall|l: int| 0 <= l < self.n2 ==> (is_pad(#[trigger] self.leaf_pt(l)) <==> l >= self.npts)
        &&& forall|l: int|
            0 <= l < self.n2 ==> is_pad(#[trigger] self.leaf_pt(l)) || real_pt(self.leaf_pt(l))
        &&& forall|l: int|
            0 <= l < self.n2 ==> #[trigger] splits_ok(
                self.tests@,
                self.aos@,
                self.dims as int,
                self.height as int,
                0,
                l,
            )
    }

    /// Every leaf point has the full dimension.
    pub proof fn lemma_leaf_pt_len(&self, l: int)
        ensures
            self.leaf_pt(l).len() == self.dims_spec(),
    {
    }

    /// Construct a tree containing all the points of `points`.  The order of
    /// the leaves is a permutation of the inputs followed by the padding
    /// sentinels; the set of points is unchanged.  Coordinates must stay
    /// strictly below the sentinel, the model's notion of a finite value.
    /// At least one point is required: the dimension of the space is read
    /// from the first point, and a tree of padding alone has no point for
    /// any query to name.
    pub fn new(points: &Vec<Vec<i32>>) -> (r: PkdTree)
        requires
            1 <= points.len() <= MAX_POINTS,
            1 <= points@[0].len() <= MAX_DIMS,
            forall|i: int| 0 <= i < points.len() ==> #[trigger] points@[i].len() == points@[0].len(),
            forall|i: int, c: int|
                0 <= i < points.len() && 0 <= c < points@[0].len() ==> #[trigger] points@[i]@[c]
                    < PAD_COORD,
        ensures
            r.wf(),
            r.dims_spec() == points@[0].len(),
            r.num_points() == points.len(),
            points.len() <= r.num_leaves() < 2 * points.len(),
            r.leaf_seq().to_multiset() == padded_inputs(
                points@,
                r.dims_spec(),
                r.num_leaves(),
            ).to_multiset(),
    {
        let dims = points[0].len();
        let (n2, height) = pow2_ceil(points.len());
        let ghost dd = dims as int;
        let ghost hh = height as int;
        let mut w = padded_points(points, dims, n2);
        let ghost w0 = w@;
        let mut tests: Vec<i32> = vec![0i32; n2 - 1];
        let mut rng = default_rng();
        proof {
            lemma_pow2i_pos(hh);
            vstd::arithmetic::div_mod::lemma_mod_self_0(pow2i(hh));
            assert(0int % pow2i(hh) == 0) by {
                vstd::arithmetic::div_mod::lemma_small_mod(0nat, pow2i(hh) as nat);
            }
            assert(node_of(0, 0, hh) == 0) by {
                assert(pow2i(0) == 1);
                vstd::arithmetic::div_mod::lemma_basic_div(0, pow2i(hh));
            }
            broadcast use vstd::seq_lib::group_to_multiset_ensures, vstd::multiset::group_multiset_axioms;

            // the initial buffer holds the inputs and then exactly the
            // padding blocks
            let npts = points.len() as int;
            assert forall|u: int| 0 <= u < npts implies #[trigger] slice_pts(w0, dd, 0, npts)[u]
                != pad_pt(dd) by {
                assert(slice_pts(w0, dd, 0, npts)[u] == pt_at(w0, dd, u));
                assert(pt_at(w0, dd, u) == iseq(points@[u]@));
                assert(points@[u].len() == points@[0].len());
                assert(points@[u]@.len() == dims);
                assert(iseq(points@[u]@)[0] == points@[u]@[0] as int);
                assert(pad_pt(dd)[0] == PAD_COORD as int);
            }
            lemma_count_none(slice_pts(w0, dd, 0, npts), pad_pt(dd));
            assert forall|u: int| 0 <= u < n2 - npts implies #[trigger] slice_pts(
                w0,
                dd,
                npts,
                n2 as int,
            )[u] == pad_pt(dd) by {
                assert(slice_pts(w0, dd, npts, n2 as int)[u] == pt_at(w0, dd, npts + u));
            }
            lemma_count_all(slice_pts(w0, dd, npts, n2 as int), pad_pt(dd));
            lemma_slice_count_split(w0, dd, 0, npts, n2 as int, pad_pt(dd));
            assert forall|l: int| 0 <= l < n2 implies is_pad(#[trigger] pt_at(w0, dd, l))
                || real_pt(pt_at(w0, dd, l)) by {
                if l < npts {
                    assert(pt_at(w0, dd, l) == iseq(points@[l]@));
                    assert(points@[l].len() == points@[0].len());
                    assert(points@[l]@.len() == dims);
                    assert forall|c: int| 0 <= c < dims implies #[trigger] iseq(points@[l]@)[c]
                        < PAD_COORD as int by {
                        assert(iseq(points@[l]@)[c] == points@[l]@[c] as int);
                    }
                    assert(real_pt(pt_at(w0, dd, l)));
                } else {
                    assert(pt_at(w0, dd, l) == pad_pt(dd));
                }
            }
        }
        build_recur(
            &mut w,
            &mut tests,
            dims,
            height,
            0,
            0,
            n2,
            0,
            Ghost(points.len() as int),
            &mut rng,
        );
        // transpose into structure-of-arrays order
        let mut pts_t: Vec<i32> = vec![0i32; n2 * dims];
        let mut c: usize = 0;
        while c < dims
            invariant
                c <= dims,
                1 <= dims <= MAX_DIMS,
                1 <= n2,
                w.len() == n2 * dims,
                pts_t.len() == n2 * dims,
                forall|cc: int, l: int|
                    0 <= cc < c && 0 <= l < n2 ==> #[trigger] pts_t@[cc * n2 + l] == w@[l * dims
                        + cc],
            decreases dims - c,
        {
            let mut l: usize = 0;
            while l < n2
                invariant
                    l <= n2,
                    c < dims,
                    1 <= dims <= MAX_DIMS,
                    1 <= n2,
                    w.len() == n2 * dims,
                    pts_t.len() == n2 * dims,
                    forall|cc: int, ll: int|
                        0 <= cc < c && 0 <= ll < n2 ==> #[trigger] pts_t@[cc * n2 + ll] == w@[ll
                            * dims + cc],
                    forall|ll: int|
                        0 <= ll < l ==> #[trigger] pts_t@[c * n2 + ll] == w@[ll * dims + c],
                decreases n2 - l,
            {
                proof {
                    lemma_mul_inequality(c as int + 1, dims as int, n2 as int);
                    lemma_mul_is_distributive_add_other_way(n2 as int, c as int, 1);
                    lemma_mul_nonnegative(c as int, n2 as int);
                    lemma_mul_is_commutative(dims as int, n2 as int);
                    lemma_mul_inequality(l as int + 1, n2 as int, dims as int);
                    lemma_mul_is_distributive_add_other_way(dims as int, l as int, 1);
                    lemma_mul_nonnegative(l as int, dims as int);
                }
                let v = w[l * dims + c];
                pts_t[c * n2 + l] = v;
                proof {
                    assert forall|cc: int, ll: int| 0 <= cc < c && 0 <= ll < n2 implies #[trigger]
                        pts_t@[cc * n2 + ll] == w@[ll * dims + cc] by {
                        lemma_mul_inequality(cc + 1, c as int, n2 as int);
                        lemma_mul_is_distributive_add_other_way(n2 as int, cc, 1);
                        lemma_mul_nonnegative(cc, n2 as int);
                    }
                }
                l = l + 1;
            }
            c = c + 1;
        }
        let r = PkdTree {
            dims,
            npts: points.len(),
            n2,
            height,
            tests,
            points: pts_t,
            aos: Ghost(w@),
        };
        proof {
            let rr = r;
            assert forall|l: int| 0 <= l < n2 implies #[trigger] rr.leaf_pt(l) == pt_at(
                w@,
                dd,
                l,
            ) by {
                assert forall|cc: int| 0 <= cc < dd implies transposed_pt(pts_t@, n2 as int, l, dd)[cc]
                    == pt_at(w@, dd, l)[cc] by {
                    assert(pts_t@[cc * n2 + l] == w@[l * dims + cc]);
                }
                assert(transposed_pt(pts_t@, n2 as int, l, dd) =~= pt_at(w@, dd, l));
            }
            assert(rr.wf());
            assert(rr.leaf_seq() =~~= slice_pts(w@, dd, 0, n2 as int));
            assert(padded_inputs(points@, dd, n2 as int) =~~= slice_pts(w0, dd, 0, n2 as int));
        }
        r
    }

    /// The path block of a finite needle's descent always contains a real
    /// leaf: whenever the upper half of the current block is all padding,
    /// the split there saturated to the sentinel and the descent went low.
    proof fn lemma_descent_block_real(&self, needle: Seq<int>, e: int)
        requires
            self.wf(),
            needle.len() == self.dims_spec(),
            forall|c: int| 0 <= c < needle.len() ==> #[trigger] needle[c] < PAD_COORD as int,
            0 <= e <= self.height_spec(),
        ensures
            block_lo(
                descent_leaf(self.tests@, self.dims_spec(), needle, self.height_spec()),
                e,
                self.height_spec(),
            ) < self.num_points(),
        decreases e,
    {
        let dd = self.dims as int;
        let hh = self.height as int;
        let l = descent_leaf(self.tests@, dd, needle, hh);
        lemma_descent_leaf_range(self.tests@, dd, needle, hh);
        lemma_pow2i_pos(hh);
        if e == 0 {
            vstd::arithmetic::div_mod::lemma_fundamental_div_mod_converse(l, pow2i(hh), 0, l);
            assert(l / pow2i(hh) == 0);
            assert(block_lo(l, 0, hh) == 0);
        } else {
            self.lemma_descent_block_real(needle, e - 1);
            let b = block_lo(l, e - 1, hh);
            lemma_block_step(l, e - 1, hh);
            if side_of(l, e - 1, hh) != 0 {
                let m = block_mid(l, e - 1, hh);
                if m >= self.npts {
                    // the upper half is entirely padding, so the recorded
                    // split is the sentinel and a finite needle goes low
                    let ax = (e - 1) % dd;
                    lemma_block_nested(l, 0, e - 1, hh);
                    vstd::arithmetic::div_mod::lemma_fundamental_div_mod_converse(
                        l,
                        pow2i(hh),
                        0,
                        l,
                    );
                    assert(block_lo(l, 0, hh) == 0);
                    assert(block_hi(l, 0, hh) == pow2i(hh));
                    assert(block_hi(l, e - 1, hh) <= pow2i(hh));
                    lemma_pow2i_pos(hh - e);
                    assert(m < block_hi(l, e - 1, hh));
                    let f = axis_coord(self.aos@, dd, ax);
                    assert forall|u: int| m <= u < block_hi(l, e - 1, hh) implies #[trigger] f(u)
                        == PAD_COORD as int by {
                        assert(0 <= u < self.n2);
                        assert(is_pad(self.leaf_pt(u)));
                        assert(pt_at(self.aos@, dd, u) == self.leaf_pt(u));
                        assert(f(u) == coord_at(self.aos@, dd, u, ax));
                        assert(pt_at(self.aos@, dd, u)[ax] == coord_at(self.aos@, dd, u, ax));
                        assert(self.leaf_pt(u)[ax] == PAD_COORD as int);
                    }
                    assert(f(m) == PAD_COORD as int);
                    lemma_min_over_char(f, m, block_hi(l, e - 1, hh), PAD_COORD as int);
                    assert(splits_ok(self.tests@, self.aos@, dd, hh, 0, l));
                    assert(self.tests@[node_of(l, e - 1, hh)] as int == split_mean(
                        max_over(
                            axis_coord(self.aos@, dd, (e - 1) % dd),
                            block_lo(l, e - 1, hh),
                            block_mid(l, e - 1, hh),
                        ),
                        min_over(
                            axis_coord(self.aos@, dd, (e - 1) % dd),
                            block_mid(l, e - 1, hh),
                            block_hi(l, e - 1, hh),
                        ),
                    ));
                    assert(self.tests@[node_of(l, e - 1, hh)] == PAD_COORD);
                    lemma_descent_side(self.tests@, dd, needle, hh, e - 1);
                    assert(needle[(e - 1) % dd] < PAD_COORD as int);
                    assert(side_of(l, e - 1, hh) == 0);
                    assert(false);
                }
            }
        }
    }

    /// A finite needle never reaches a padding leaf: the descent's answer
    /// always indexes one of the real points.
    pub proof fn lemma_query1_real(&self, needle: Seq<int>)
        requires
            self.wf(),
            needle.len() == self.dims_spec(),
            forall|c: int| 0 <= c < needle.len() ==> #[trigger] needle[c] < PAD_COORD as int,
        ensures
            0 <= self.descent_of(needle) < self.num_points(),
    {
        let dd = self.dims as int;
        let hh = self.height as int;
        let l = descent_leaf(self.tests@, dd, needle, hh);
        lemma_descent_leaf_range(self.tests@, dd, needle, hh);
        self.lemma_descent_block_real(needle, hh);
        assert(pow2i(0) == 1);
        assert(l / 1 == l);
        assert(block_lo(l, hh, hh) == l * 1);
    }

    /// The access index of the leaf whose cell the descent assigns to
    /// `needle`: `log2(n2)` strict comparisons against the test array.
    pub fn query1(&self, needle: &Vec<i32>) -> (r: usize)
        requires
            self.wf(),
            needle.len() == self.dims_spec(),
        ensures
            r == self.descent_of(iseq(needle@)),
            r < self.num_leaves(),
    {
        descend(&self.tests, self.dims, self.height, needle)
    }

    /// Batched approximate queries: `needles` holds one array per coordinate
    /// (lane-major layout), and lane `i` is answered exactly as `query1`
    /// would answer it.
    pub fn query(&self, needles: &Vec<Vec<i32>>) -> (r: Vec<usize>)
        requires
            self.wf(),
            needles.len() == self.dims_spec(),
            forall|d: int| 0 <= d < needles.len() ==> #[trigger] needles@[d].len() == needles@[0].len(),
        ensures
            r.len() == needles@[0].len(),
            forall|i: int|
                0 <= i < r.len() ==> #[trigger] r@[i] == self.descent_of(lane(needles@, i)),
    {
        let lanes = needles[0].len();
        let mut out: Vec<usize> = Vec::new();
        let mut i: usize = 0;
        while i < lanes
            invariant
                i <= lanes,
                self.wf(),
                needles.len() == self.dims_spec(),
                forall|d: int|
                    0 <= d < needles.len() ==> #[trigger] needles@[d].len() == needles@[0].len(),
                lanes == needles@[0].len(),
                out.len() == i,
                forall|t: int|
                    0 <= t < i ==> #[trigger] out@[t] == self.descent_of(lane(needles@, t)),
            decreases lanes - i,
        {
            let mut needle: Vec<i32> = Vec::new();
            let mut d: usize = 0;
            while d < self.dims
                invariant
                    d <= self.dims,
                    self.wf(),
                    i < lanes,
                    needles.len() == self.dims_spec(),
                    forall|dd2: int|
                        0 <= dd2 < needles.len() ==> #[trigger] needles@[dd2].len() == needles@[0].len(),
                    lanes == needles@[0].len(),
                    needle.len() == d,
                    forall|t: int|
                        0 <= t < d ==> #[trigger] needle@[t] == needles@[t]@[i as int],
                decreases self.dims - d,
            {
                proof {
                    assert(needles@[d as int].len() == needles@[0].len());
                }
                let nd = &needles[d];
                needle.push(nd[i]);
                d = d + 1;
            }
            proof {
                assert(iseq(needle@) =~= lane(needles@, i as int));
            }
            let leaf = self.query1(&needle);
            out.push(leaf);
            i = i + 1;
        }
        out
    }

    /// The point stored at leaf `id`, gathered from the transposed store.
    pub fn get_point(&self, id: usize) -> (r: Vec<i32>)
        requires
            self.wf(),
            id < self.num_leaves(),
        ensures
            iseq(r@) == self.leaf_pt(id as int),
            r.len() == self.dims_spec(),
    {
        let mut out: Vec<i32> = Vec::new();
        let mut c: usize = 0;
        while c < self.dims
            invariant
                c <= self.dims,
                self.wf(),
                id < self.n2,
                out.len() == c,
                forall|t: int| 0 <= t < c ==> #[trigger] out@[t] == self.points@[t * self.n2 + id],
            decreases self.dims - c,
        {
            proof {
                lemma_mul_inequality(c as int + 1, self.dims as int, self.n2 as int);
                lemma_mul_is_distributive_add_other_way(self.n2 as int, c as int, 1);
                lemma_mul_nonnegative(c as int, self.n2 as int);
                lemma_mul_is_commutative(self.dims as int, self.n2 as int);
                assert(c * self.n2 + id < self.dims * self.n2);
                assert(self.points.len() == self.points@.len());
            }
            let v = self.points[c * self.n2 + id];
            out.push(v);
            c = c + 1;
        }
        proof {
            assert(iseq(out@) =~= self.leaf_pt(id as int));
        }
        out
    }
}

/// Squared distances between points with 32-bit coordinates stay far below
/// the `u128` range.
proof fn lemma_dist_sq_small(a: Seq<int>, b: Seq<int>, k: int)
    requires
        0 <= k,
        k <= a.len(),
        k <= b.len(),
        k <= MAX_DIMS,
        forall|c: int| 0 <= c < k ==> -0x8000_0000 <= #[trigger] a[c] <= 0x7FFF_FFFF,
        forall|c: int| 0 <= c < k ==> -0x8000_0000 <= #[trigger] b[c] <= 0x7FFF_FFFF,
    ensures
        dist_sq_upto(a, b, k) < 0x100_0000_0000_0000_0000_0000,
        dist_sq_upto(a, b, k) <= k * 0x1_0000_0000_0000_0000,
    decreases k,
{
    if k <= 0 {
    } else {
        lemma_dist_sq_small(a, b, k - 1);
        let d = a[k - 1] - b[k - 1];
        assert(sq(d) <= 0x1_0000_0000_0000_0000) by (nonlinear_arith)
            requires
                -0x1_0000_0000 <= d <= 0x1_0000_0000,
        ;
    }
}

impl PkdTree {
    /// Backtracking exact search under the subtree of `node` at `depth`,
    /// covering leaves `[lo, lo + size)` whose points all lie in `vol`.
    /// Maintains the best leaf seen so far and prunes subtrees whose volume
    /// is further from the needle than the current best distance.
    #[verifier::rlimit(100)]
    fn exact_help(
        &self,
        node: usize,
        depth: usize,
        lo: usize,
        size: usize,
        vol: Volume,
        needle: &Vec<i32>,
        best_id: &mut usize,
        best: &mut u128,
    )
        requires
            self.wf(),
            needle.len() == self.dims_spec(),
            depth <= self.height_spec(),
            size == pow2i(self.height_spec() - depth as int),
            (lo as int) % pow2i(self.height_spec() - depth as int) == 0,
            lo + size <= self.num_leaves(),
            node == node_of(lo as int, depth as int, self.height_spec()),
            vol.wf(),
            vol.dims() == self.dims_spec(),
            forall|l: int|
                lo <= l < lo + size ==> in_box(vol.lo(), vol.hi(), #[trigger] self.leaf_pt(l)),
            *old(best) == u128::MAX || (*old(best_id) < self.num_leaves() && *old(best) == dist_sq(
                self.leaf_pt(*old(best_id) as int),
                iseq(needle@),
            )),
        ensures
            *final(best) <= *old(best),
            *final(best) == u128::MAX || (*final(best_id) < self.num_leaves() && *final(best)
                == dist_sq(self.leaf_pt(*final(best_id) as int), iseq(needle@))),
            forall|l: int|
                lo <= l < lo + size ==> *final(best) <= dist_sq(
                    #[trigger] self.leaf_pt(l),
                    iseq(needle@),
                ),
            (*final(best) == *old(best) && *final(best_id) == *old(best_id)) || (lo
                <= *final(best_id) && *final(best_id) < lo + size && *final(best) == dist_sq(
                self.leaf_pt(*final(best_id) as int),
                iseq(needle@),
            ) && *final(best) < *old(best)),
        decreases size,
    {
        let ghost dd = self.dims as int;
        let ghost hh = self.height as int;
        let ghost ndl = iseq(needle@);
        proof {
            lemma_pow2i_pos(hh - depth);
            lemma_pow2i_pos(hh);
            assert(pow2i(hh) <= 0x8000_0000) by {
                lemma_pow2i_mono(hh, 31);
                reveal_with_fuel(pow2i, 33);
            }
        }
        let d_bb = vol.distsq_to(needle);
        if d_bb > *best {
            proof {
                assert forall|l: int| lo <= l < lo + size implies *best <= dist_sq(
                    #[trigger] self.leaf_pt(l),
                    ndl,
                ) by {
                    lemma_box_dist_le(vol.lo(), vol.hi(), ndl, self.leaf_pt(l), dd);
                    lemma_dist_sq_upto_sym(self.leaf_pt(l), ndl, dd);
                }
            }
            return ;
        }
        if size == 1 {
            let d = crate::geom::dist_sq_transposed(&self.points, self.n2, lo, needle, self.dims);
            if d < *best {
                *best_id = lo;
                *best = d;
            }
        } else {
            let half = size / 2;
            let mid = lo + half;
            let ax = depth % self.dims;
            proof {
                lemma_block_split(lo as int, depth as int, hh);
                assert(half == pow2i(hh - depth - 1));
                lemma_node_range(lo as int, depth as int, hh);
                lemma_pow2i_mono(depth as int + 1, hh);
                assert(node < pow2i(hh) - 1);
            }
            let t = self.tests[node];
            let (vol_lo, vol_hi) = vol.split(t, ax);
            proof {
                assert forall|l: int| lo <= l < mid implies in_box(
                    vol_lo.lo(),
                    vol_lo.hi(),
                    #[trigger] self.leaf_pt(l),
                ) by {
                    lemma_side_of_block(lo as int, l, depth as int, hh);
                    lemma_node_of_block(lo as int, l, depth as int, hh);
                    assert(path_ok(self.tests@, dd, hh, 0, l, self.leaf_pt(l)));
                    assert(on_side(
                        self.leaf_pt(l)[depth as int % dd],
                        self.tests@[node_of(l, depth as int, hh)] as int,
                        side_of(l, depth as int, hh),
                    ));
                    assert(self.leaf_pt(l)[ax as int] <= t as int);
                    assert forall|a: int| 0 <= a < dd implies vol_lo.lo()[a]
                        <= #[trigger] self.leaf_pt(l)[a] <= vol_lo.hi()[a] by {
                        assert(in_box(vol.lo(), vol.hi(), self.leaf_pt(l)));
                        assert(vol.lo()[a] <= self.leaf_pt(l)[a] <= vol.hi()[a]);
                    }
                }
                assert forall|l: int| mid <= l < lo + size implies in_box(
                    vol_hi.lo(),
                    vol_hi.hi(),
                    #[trigger] self.leaf_pt(l),
                ) by {
                    lemma_side_of_block(lo as int, l, depth as int, hh);
                    lemma_node_of_block(lo as int, l, depth as int, hh);
                    assert(path_ok(self.tests@, dd, hh, 0, l, self.leaf_pt(l)));
                    assert(on_side(
                        self.leaf_pt(l)[depth as int % dd],
                        self.tests@[node_of(l, depth as int, hh)] as int,
                        side_of(l, depth as int, hh),
                    ));
                    assert(self.leaf_pt(l)[ax as int] >= t as int);
                    assert forall|a: int| 0 <= a < dd implies vol_hi.lo()[a]
                        <= #[trigger] self.leaf_pt(l)[a] <= vol_hi.hi()[a] by {
                        assert(in_box(vol.lo(), vol.hi(), self.leaf_pt(l)));
                        assert(vol.lo()[a] <= self.leaf_pt(l)[a] <= vol.hi()[a]);
                    }
                }
            }
            let go_left_first = needle[ax] < t;
            if go_left_first {
                self.exact_help(2 * node + 1, depth + 1, lo, half, vol_lo, needle, best_id, best);
                self.exact_help(2 * node + 2, depth + 1, mid, half, vol_hi, needle, best_id, best);
            } else {
                self.exact_help(2 * node + 2, depth + 1, mid, half, vol_hi, needle, best_id, best);
                self.exact_help(2 * node + 1, depth + 1, lo, half, vol_lo, needle, best_id, best);
            }
        }
    }

    /// The index of a leaf whose point realises the least squared distance
    /// to `needle` over all leaves: an exact nearest neighbor, found by
    /// backtracking search with best-so-far pruning.
    pub fn query1_exact(&self, needle: &Vec<i32>) -> (r: usize)
        requires
            self.wf(),
            needle.len() == self.dims_spec(),
        ensures
            r < self.num_leaves(),
            forall|l: int|
                0 <= l < self.num_leaves() ==> dist_sq(self.leaf_pt(r as int), iseq(needle@))
                    <= dist_sq(#[trigger] self.leaf_pt(l), iseq(needle@)),
    {
        let ghost dd = self.dims as int;
        let ghost hh = self.height as int;
        let vol = Volume::root(self.dims);
        let mut best_id: usize = 0;
        let mut best: u128 = u128::MAX;
        proof {
            lemma_pow2i_pos(hh);
            assert(0int % pow2i(hh) == 0) by {
                vstd::arithmetic::div_mod::lemma_small_mod(0nat, pow2i(hh) as nat);
            }
            assert(node_of(0, 0, hh) == 0) by {
                assert(pow2i(0) == 1);
                vstd::arithmetic::div_mod::lemma_basic_div(0, pow2i(hh));
            }
            assert forall|l: int| 0 <= l < self.n2 implies in_box(
                vol.lo(),
                vol.hi(),
                #[trigger] self.leaf_pt(l),
            ) by {
                assert forall|a: int| 0 <= a < dd implies vol.lo()[a] <= #[trigger] self.leaf_pt(l)[a]
                    <= vol.hi()[a] by {
                    assert(self.leaf_pt(l)[a] == self.points@[a * self.n2 + l] as int);
                }
            }
        }
        self.exact_help(0, 0, 0, self.n2, vol, needle, &mut best_id, &mut best);
        proof {
            assert(best <= dist_sq(self.leaf_pt(0), iseq(needle@)));
            lemma_dist_sq_small(self.leaf_pt(0), iseq(needle@), dd);
            assert forall|c: int| 0 <= c < dd implies -0x8000_0000 <= #[trigger] self.leaf_pt(0)[c]
                <= 0x7FFF_FFFF by {
                assert(self.leaf_pt(0)[c] == self.points@[c * self.n2 + 0] as int);
            }
            assert forall|c: int| 0 <= c < dd implies -0x8000_0000 <= #[trigger] iseq(needle@)[c]
                <= 0x7FFF_FFFF by {
                assert(iseq(needle@)[c] == needle@[c] as int);
            }
            lemma_dist_sq_small(self.leaf_pt(0), iseq(needle@), dd);
            assert(best < u128::MAX);
        }
        best_id
    }
}

/// A per-axis bound on the differences bounds the squared distance above.
proof fn lemma_dist_le(a: Seq<int>, b: Seq<int>, k: int, m: int)
    requires
        0 <= k,
        0 <= m,
        forall|c: int| 0 <= c < k ==> -m <= #[trigger] a[c] - b[c] <= m,
    ensures
        dist_sq_upto(a, b, k) <= k * (m * m),
    decreases k,
{
    if k <= 0 {
        assert(k * (m * m) == 0) by (nonlinear_arith)
            requires
                k == 0,
        ;
    } else {
        lemma_dist_le(a, b, k - 1, m);
        let d = a[k - 1] - b[k - 1];
        assert(sq(d) <= m * m) by (nonlinear_arith)
            requires
                -m <= d <= m,
        ;
        assert((k - 1) * (m * m) + m * m == k * (m * m)) by (nonlinear_arith);
    }
}

/// A per-axis lower bound on the differences bounds the squared distance
/// below.
proof fn lemma_dist_ge(a: Seq<int>, b: Seq<int>, k: int, m: int)
    requires
        0 <= k,
        0 <= m,
        forall|c: int| 0 <= c < k ==> #[trigger] a[c] - b[c] >= m || a[c] - b[c] <= -m,
    ensures
        dist_sq_upto(a, b, k) >= k * (m * m),
    decreases k,
{
    if k <= 0 {
        assert(k * (m * m) == 0) by (nonlinear_arith)
            requires
                k == 0,
        ;
    } else {
        lemma_dist_ge(a, b, k - 1, m);
        let d = a[k - 1] - b[k - 1];
        assert(sq(d) >= m * m) by (nonlinear_arith)
            requires
                d >= m || d <= -m,
                m >= 0,
        ;
        assert((k - 1) * (m * m) + m * m == k * (m * m)) by (nonlinear_arith);
    }
}

impl PkdTree {
    /// When the needle and all indexed points share a coordinate box whose
    /// bound stays below a third of the sentinel, every nearest leaf is a
    /// real point: padding leaves are strictly farther than any real leaf,
    /// so a minimizing index always falls below `num_points`.
    pub proof fn lemma_exact_real(&self, needle: Seq<int>, r: int, bound: int)
        requires
            self.wf(),
            needle.len() == self.dims_spec(),
            0 <= r < self.num_leaves(),
            forall|l: int|
                0 <= l < self.num_leaves() ==> dist_sq(self.leaf_pt(r), needle) <= dist_sq(
                    #[trigger] self.leaf_pt(l),
                    needle,
                ),
            0 < bound,
            3 * bound < PAD_COORD as int,
            forall|c: int| 0 <= c < needle.len() ==> -bound <= #[trigger] needle[c] <= bound,
            forall|l: int, c: int|
                0 <= l < self.num_points() && 0 <= c < self.dims_spec() ==> -bound
                    <= #[trigger] self.leaf_pt(l)[c] <= bound,
        ensures
            r < self.num_points(),
    {
        let dd = self.dims as int;
        if r >= self.npts {
            let p0 = self.leaf_pt(0);
            let pr = self.leaf_pt(r);
            assert(!is_pad(p0));
            assert(is_pad(pr));
            assert forall|c: int| 0 <= c < dd implies -(2 * bound) <= #[trigger] p0[c] - needle[c]
                <= 2 * bound by {
                assert(-bound <= p0[c] <= bound);
                assert(-bound <= needle[c] <= bound);
            }
            lemma_dist_le(p0, needle, dd, 2 * bound);
            assert forall|c: int| 0 <= c < dd implies #[trigger] pr[c] - needle[c] >= PAD_COORD
                - bound || pr[c] - needle[c] <= -(PAD_COORD - bound) by {
                assert(pr[c] == PAD_COORD as int);
                assert(-bound <= needle[c] <= bound);
            }
            lemma_dist_ge(pr, needle, dd, PAD_COORD - bound);
            assert((2 * bound) * (2 * bound) < (PAD_COORD - bound) * (PAD_COORD - bound))
                by (nonlinear_arith)
                requires
                    0 < bound,
                    3 * bound < PAD_COORD as int,
            ;
            assert(dd * ((2 * bound) * (2 * bound)) < dd * ((PAD_COORD - bound) * (PAD_COORD
                - bound))) by (nonlinear_arith)
                requires
                    dd >= 1,
                    (2 * bound) * (2 * bound) < (PAD_COORD - bound) * (PAD_COORD - bound),
            ;
            assert(dist_sq(p0, needle) < dist_sq(pr, needle));
            assert(dist_sq(pr, needle) <= dist_sq(p0, needle));
            assert(false);
        }
    }
}

/// Lane `i` of a lane-major batch of needles: one coordinate per array.
pub open spec fn lane(needles: Seq<Vec<i32>>, i: int) -> Seq<int> {
    Seq::new(needles.len(), |d: int| needles[d]@[i] as int)
}

/// Descent determinism: the scalar query and every lane of the batched query
/// are pinned to the same descent function of the tree, so a lane whose
/// needle equals a scalar needle is assigned the same leaf, on every call.
pub proof fn lemma_query_lane_agrees(t: &PkdTree, needles: Seq<Vec<i32>>, i: int, needle: Seq<i32>)
    requires
        lane(needles, i) == iseq(needle),
    ensures
        t.descent_of(lane(needles, i)) == t.descent_of(iseq(needle)),
{
}

} // verus!
