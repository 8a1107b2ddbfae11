//! An affordance tree: a power-of-two k-d partition whose every leaf carries
//! a precomputed list of all points that could collide with a legal query
//! ball whose center falls in that leaf's cell.
//!
//! A legal query is one whose squared radius lies in the declared range
//! `[rsq_min, rsq_max]`.  The collision query descends the test array exactly
//! like the k-d tree and then linearly scans the leaf's affordance slice for
//! a point within the query radius.

use vstd::prelude::*;
use crate::geom::{
    box_dist_sq, box_far_sq, clamp_pt, coord_at, copy_point, dist_sq, dist_sq_flat, dist_sq_i64,
    has_pt, in_box, ipt, is_pad, iseq, iseq64, lemma_box_dist_le, lemma_box_far_ge,
    lemma_clamp_lipschitz, lemma_dist_self, lemma_dist_sq_upto_nonneg, lemma_dist_sq_upto_sym,
    lemma_dist_zero, lemma_far_zero_degenerate, pad_pt, pt_at, slice_pts, Volume, COORD_INF,
    MAX_DIMS, PAD_COORD,
};
use crate::select::{lemma_ms_pointwise, lemma_slice_ms_compose, median_partition};
use crate::pkdt::lemma_pt_frame;
use crate::tree::{
    cell_hi_seq, cell_hi_upto, cell_lo_seq, cell_lo_upto, descend, descent_leaf,
    lemma_block_split, lemma_cell_same, lemma_cell_stable, lemma_div_in_block, lemma_node_bands,
    lemma_node_of_block, lemma_node_of_outside, lemma_node_range, lemma_pow2i_mono,
    lemma_pow2i_pos, lemma_side_of_block, node_of, on_side, padded_points, path_ok, pow2_ceil,
    pow2i, side_of, MAX_POINTS,
};
use vstd::arithmetic::mul::{
    lemma_mul_inequality, lemma_mul_is_commutative, lemma_mul_is_distributive_add_other_way,
    lemma_mul_nonnegative,
};

verus! {

/// The candidate filter of an internal node: a point is carried into a child
/// only if a legal ball centered somewhere in the child's volume could reach
/// it (`box_dist_sq < rsq_max`) and it is not so deep inside the child's
/// volume that it would be within the smallest legal radius of every point
/// of the volume (`box_far_sq > rsq_min`).
pub open spec fn aff_keep(lo: Seq<int>, hi: Seq<int>, p: Seq<int>, rsq_min: int, rsq_max: int) -> bool {
    rsq_min < box_far_sq(lo, hi, p) && box_dist_sq(lo, hi, p) < rsq_max
}

/// The retain filter of a leaf with cell `[lo, hi]` and center `c`: keep a
/// surviving candidate `p` only if it differs from the center, can reach
/// into the cell at the largest legal radius, is closer to the cell than the
/// center is to the cell's farthest corner, and is not dominated by the
/// center at the smallest legal radius.
pub open spec fn leaf_keep(lo: Seq<int>, hi: Seq<int>, c: Seq<int>, p: Seq<int>, rsq_min: int, rsq_max: int) -> bool {
    let cl = clamp_pt(lo, hi, p);
    &&& p != c
    &&& dist_sq(p, cl) < rsq_max
    &&& dist_sq(p, cl) < box_far_sq(lo, hi, c)
    &&& rsq_min < dist_sq(c, cl)
}

/// The inputs of a build, as mathematical points.
pub open spec fn input_seq(points: Seq<Vec<i32>>) -> Seq<Seq<int>> {
    Seq::new(points.len(), |i: int| iseq(points[i]@))
}

/// The end of leaf `l`'s affordance region: the next leaf's start, or the
/// buffer's point count for the last leaf recorded so far.
pub open spec fn region_end(starts: Seq<usize>, l: int, total: int) -> int {
    if l + 1 < starts.len() {
        starts[l + 1] as int
    } else {
        total
    }
}

/// Do two point vectors hold the same point?
fn points_equal(a: &Vec<i32>, b: &Vec<i32>) -> (r: bool)
    requires
        a.len() == b.len(),
    ensures
        r <==> iseq(a@) == iseq(b@),
{
    let n = a.len();
    let mut c: usize = 0;
    while c < n
        invariant
            c <= n,
            n == a.len() == b.len(),
            forall|t: int| 0 <= t < c ==> #[trigger] a@[t] == b@[t],
        decreases n - c,
    {
        if a[c] != b[c] {
            proof {
                assert(iseq(a@)[c as int] != iseq(b@)[c as int]);
            }
            return false;
        }
        c = c + 1;
    }
    proof {
        assert(iseq(a@) =~= iseq(b@));
    }
    true
}

/// Is this point the padding sentinel?
fn point_is_pad(p: &Vec<i32>) -> (r: bool)
    ensures
        r <==> is_pad(iseq(p@)),
{
    let n = p.len();
    let mut c: usize = 0;
    while c < n
        invariant
            c <= n,
            n == p.len(),
            forall|t: int| 0 <= t < c ==> #[trigger] p@[t] == PAD_COORD,
        decreases n - c,
    {
        if p[c] != PAD_COORD {
            proof {
                assert(iseq(p@)[c as int] != PAD_COORD as int);
            }
            return false;
        }
        c = c + 1;
    }
    true
}

/// Append point `j` of `src` to the end of `dst`.
fn push_point(dst: &mut Vec<i32>, src: &Vec<i32>, dims: usize, j: usize)
    requires
        1 <= dims,
        (j + 1) * dims <= src.len(),
    ensures
        final(dst).len() == old(dst).len() + dims,
        forall|x: int| 0 <= x < old(dst).len() ==> #[trigger] final(dst)@[x] == old(dst)@[x],
        ipt(final(dst)@, old(dst).len() as int, dims as int) == pt_at(src@, dims as int, j as int),
{
    proof {
        lemma_mul_nonnegative(j as int, dims as int);
        lemma_mul_is_distributive_add_other_way(dims as int, j as int, 1);
    }
    let base = j * dims;
    let ghost d0 = dst@;
    let mut c: usize = 0;
    while c < dims
        invariant
            c <= dims,
            base == j * dims,
            base + dims <= src.len(),
            dst.len() == d0.len() + c,
            forall|x: int| 0 <= x < d0.len() ==> #[trigger] dst@[x] == d0[x],
            forall|t: int| 0 <= t < c ==> #[trigger] dst@[d0.len() + t] == src@[base + t],
        decreases dims - c,
    {
        let v = src[base + c];
        dst.push(v);
        c = c + 1;
    }
    proof {
        assert(ipt(dst@, d0.len() as int, dims as int) =~= pt_at(src@, dims as int, j as int));
    }
}

/// Filter a candidate buffer through the internal-node predicate for one
/// child volume: exactly the candidates that `aff_keep` admits survive.
fn filter_cands(cands: &Vec<i32>, cands_n: usize, dims: usize, vol: &Volume, rsq_min: u128, rsq_max: u128) -> (r: (
    Vec<i32>,
    usize,
))
    requires
        1 <= dims <= MAX_DIMS,
        cands.len() == cands_n * dims,
        vol.wf(),
        vol.dims() == dims,
    ensures
        r.0.len() == r.1 * dims,
        forall|j: int|
            0 <= j < r.1 ==> has_pt(cands@, dims as int, cands_n as int, #[trigger] pt_at(
                r.0@,
                dims as int,
                j,
            )),
        forall|j: int|
            0 <= j < r.1 ==> aff_keep(
                vol.lo(),
                vol.hi(),
                #[trigger] pt_at(r.0@, dims as int, j),
                rsq_min as int,
                rsq_max as int,
            ),
        forall|j: int|
            0 <= j < cands_n && aff_keep(
                vol.lo(),
                vol.hi(),
                #[trigger] pt_at(cands@, dims as int, j),
                rsq_min as int,
                rsq_max as int,
            ) ==> has_pt(r.0@, dims as int, r.1 as int, pt_at(cands@, dims as int, j)),
{
    let mut out: Vec<i32> = Vec::new();
    let mut m: usize = 0;
    let mut j: usize = 0;
    while j < cands_n
        invariant
            j <= cands_n,
            m <= j,
            1 <= dims <= MAX_DIMS,
            cands.len() == cands_n * dims,
            vol.wf(),
            vol.dims() == dims,
            out.len() == m * dims,
            forall|k: int|
                0 <= k < m ==> has_pt(cands@, dims as int, cands_n as int, #[trigger] pt_at(
                    out@,
                    dims as int,
                    k,
                )),
            forall|k: int|
                0 <= k < m ==> aff_keep(
                    vol.lo(),
                    vol.hi(),
                    #[trigger] pt_at(out@, dims as int, k),
                    rsq_min as int,
                    rsq_max as int,
                ),
            forall|k: int|
                0 <= k < j && aff_keep(
                    vol.lo(),
                    vol.hi(),
                    #[trigger] pt_at(cands@, dims as int, k),
                    rsq_min as int,
                    rsq_max as int,
                ) ==> has_pt(out@, dims as int, m as int, pt_at(cands@, dims as int, k)),
        decreases cands_n - j,
    {
        proof {
            lemma_mul_inequality(j as int + 1, cands_n as int, dims as int);
            lemma_mul_nonnegative(j as int, dims as int);
            lemma_mul_is_distributive_add_other_way(dims as int, j as int, 1);
        }
        let p = copy_point(cands, dims, j);
        let far = vol.furthest_distsq_to(&p);
        let near = vol.distsq_to(&p);
        let ghost out_pre = out@;
        let ghost m_pre = m as int;
        if rsq_min < far && near < rsq_max {
            push_point(&mut out, cands, dims, j);
            m = m + 1;
            proof {
                lemma_mul_is_distributive_add_other_way(dims as int, m_pre, 1);
                lemma_mul_nonnegative(m_pre, dims as int);
                assert(pt_at(out@, dims as int, m_pre) == pt_at(cands@, dims as int, j as int));
                assert forall|k: int| 0 <= k < m_pre implies #[trigger] pt_at(out@, dims as int, k)
                    == pt_at(out_pre, dims as int, k) by {
                    lemma_mul_inequality(k + 1, m_pre, dims as int);
                    lemma_mul_nonnegative(k, dims as int);
                    lemma_mul_is_distributive_add_other_way(dims as int, k, 1);
                    assert(pt_at(out@, dims as int, k) =~= pt_at(out_pre, dims as int, k));
                }
                assert forall|k: int|
                    0 <= k < j + 1 && aff_keep(
                        vol.lo(),
                        vol.hi(),
                        #[trigger] pt_at(cands@, dims as int, k),
                        rsq_min as int,
                        rsq_max as int,
                    ) implies has_pt(out@, dims as int, m as int, pt_at(cands@, dims as int, k)) by {
                    if k < j {
                        let k2 = choose|k2: int|
                            0 <= k2 < m_pre && pt_at(out_pre, dims as int, k2) == pt_at(
                                cands@,
                                dims as int,
                                k,
                            );
                        assert(pt_at(out@, dims as int, k2) == pt_at(cands@, dims as int, k));
                    } else {
                        assert(pt_at(out@, dims as int, m_pre) == pt_at(cands@, dims as int, k));
                    }
                }
            }
        }
        proof {
            let pp = pt_at(cands@, dims as int, j as int);
            if !aff_keep(vol.lo(), vol.hi(), pp, rsq_min as int, rsq_max as int) {
                assert(out@ == out_pre);
            }
        }
        j = j + 1;
    }
    (out, m)
}


/// Does the ghost input set contain point `p`?
pub open spec fn in_inputs(inputs: Seq<Seq<int>>, p: Seq<int>) -> bool {
    exists|t: int| 0 <= t < inputs.len() && inputs[t] == p
}

/// Append to `buf` every candidate that the leaf retain filter keeps, for a
/// leaf with volume `vol` and center `center`.
fn append_leaf_list(
    buf: &mut Vec<i32>,
    count: usize,
    cands: &Vec<i32>,
    cands_n: usize,
    dims: usize,
    vol: &Volume,
    center: &Vec<i32>,
    rsq_min: u128,
    rsq_max: u128,
) -> (added: usize)
    requires
        1 <= dims <= MAX_DIMS,
        cands.len() == cands_n * dims,
        old(buf).len() == count * dims,
        vol.wf(),
        vol.dims() == dims,
        center.len() == dims,
    ensures
        added <= cands_n,
        final(buf).len() == (count + added) * dims,
        forall|x: int| 0 <= x < old(buf).len() ==> #[trigger] final(buf)@[x] == old(buf)@[x],
        forall|k: int|
            count <= k < count + added ==> leaf_keep(
                vol.lo(),
                vol.hi(),
                iseq(center@),
                #[trigger] pt_at(final(buf)@, dims as int, k),
                rsq_min as int,
                rsq_max as int,
            ) && has_pt(cands@, dims as int, cands_n as int, pt_at(final(buf)@, dims as int, k)),
        forall|j: int|
            0 <= j < cands_n && leaf_keep(
                vol.lo(),
                vol.hi(),
                iseq(center@),
                #[trigger] pt_at(cands@, dims as int, j),
                rsq_min as int,
                rsq_max as int,
            ) ==> exists|k: int|
                count <= k < count + added && pt_at(final(buf)@, dims as int, k) == pt_at(
                    cands@,
                    dims as int,
                    j,
                ),
{
    let ghost dd = dims as int;
    let ghost buf0 = old(buf)@;
    let mut added: usize = 0;
    let mut j: usize = 0;
    while j < cands_n
        invariant
            j <= cands_n,
            added <= j,
            1 <= dims <= MAX_DIMS,
            cands.len() == cands_n * dims,
            buf.len() == (count + added) * dims,
            buf0.len() == count * dims,
            dd == dims as int,
            vol.wf(),
            vol.dims() == dims,
            center.len() == dims,
            forall|x: int| 0 <= x < buf0.len() ==> #[trigger] buf@[x] == buf0[x],
            forall|k: int|
                count <= k < count + added ==> leaf_keep(
                    vol.lo(),
                    vol.hi(),
                    iseq(center@),
                    #[trigger] pt_at(buf@, dd, k),
                    rsq_min as int,
                    rsq_max as int,
                ) && has_pt(cands@, dd, cands_n as int, pt_at(buf@, dd, k)),
            forall|t: int|
                0 <= t < j && leaf_keep(
                    vol.lo(),
                    vol.hi(),
                    iseq(center@),
                    #[trigger] pt_at(cands@, dd, t),
                    rsq_min as int,
                    rsq_max as int,
                ) ==> exists|k: int|
                    count <= k < count + added && pt_at(buf@, dd, k) == pt_at(cands@, dd, t),
        decreases cands_n - j,
    {
        proof {
            lemma_mul_inequality(j as int + 1, cands_n as int, dims as int);
            lemma_mul_nonnegative(j as int, dims as int);
            lemma_mul_is_distributive_add_other_way(dims as int, j as int, 1);
        }
        let p = copy_point(cands, dims, j);
        let closest = vol.closest_point(&p);
        proof {
            assert(closest.len() == closest@.len());
            assert(closest@.len() == iseq64(closest@).len());
            assert(closest@.len() == dims);
            assert forall|c: int| 0 <= c < closest@.len() implies -(COORD_INF as int)
                <= #[trigger] closest@[c] <= COORD_INF as int by {
                assert(-(COORD_INF as int) <= vol.lo()[c] <= COORD_INF as int);
                assert(-(COORD_INF as int) <= vol.hi()[c] <= COORD_INF as int);
                assert(iseq64(closest@)[c] == clamp_pt(vol.lo(), vol.hi(), iseq(p@))[c]);
                assert(clamp_pt(vol.lo(), vol.hi(), iseq(p@))[c] == crate::geom::clamp_s(
                    iseq(p@)[c],
                    vol.lo()[c],
                    vol.hi()[c],
                ));
                assert(iseq(p@)[c] == p@[c] as int);
            }
        }
        let ne = !points_equal(&p, center);
        let closest_dist = dist_sq_i64(&p, &closest);
        let center_dist = dist_sq_i64(center, &closest);
        let far_center = vol.furthest_distsq_to(center);
        let ghost buf_pre = buf@;
        let ghost a_pre = added as int;
        if ne && closest_dist < rsq_max && closest_dist < far_center && rsq_min < center_dist {
            push_point(buf, cands, dims, j);
            added = added + 1;
            proof {
                let kk = count + a_pre;
                lemma_mul_is_distributive_add_other_way(dims as int, kk, 1);
                lemma_mul_nonnegative(kk, dims as int);
                lemma_mul_inequality(count as int, kk, dims as int);
                assert(pt_at(buf@, dd, kk) == pt_at(cands@, dd, j as int));
                assert forall|k: int| count <= k < kk implies #[trigger] pt_at(buf@, dd, k)
                    == pt_at(buf_pre, dd, k) by {
                    lemma_mul_inequality(k + 1, kk, dims as int);
                    lemma_mul_nonnegative(k, dims as int);
                    lemma_mul_is_distributive_add_other_way(dims as int, k, 1);
                    assert(pt_at(buf@, dd, k) =~= pt_at(buf_pre, dd, k));
                }
                assert(leaf_keep(
                    vol.lo(),
                    vol.hi(),
                    iseq(center@),
                    pt_at(cands@, dd, j as int),
                    rsq_min as int,
                    rsq_max as int,
                ));
                assert forall|t: int|
                    0 <= t < j + 1 && leaf_keep(
                        vol.lo(),
                        vol.hi(),
                        iseq(center@),
                        #[trigger] pt_at(cands@, dd, t),
                        rsq_min as int,
                        rsq_max as int,
                    ) implies exists|k: int|
                        count <= k < count + added && pt_at(buf@, dd, k) == pt_at(cands@, dd, t) by {
                    if t < j {
                        let k2 = choose|k2: int|
                            count <= k2 < count + a_pre && pt_at(buf_pre, dd, k2) == pt_at(
                                cands@,
                                dd,
                                t,
                            );
                        assert(pt_at(buf@, dd, k2) == pt_at(cands@, dd, t));
                    } else {
                        assert(pt_at(buf@, dd, kk) == pt_at(cands@, dd, t));
                    }
                }
            }
        } else {
            proof {
                let pp = pt_at(cands@, dd, j as int);
                assert(pp == iseq(p@));
                if leaf_keep(vol.lo(), vol.hi(), iseq(center@), pp, rsq_min as int, rsq_max as int) {
                    assert(false);
                }
            }
        }
        j = j + 1;
    }
    added
}


/// The affordance region of leaf `l` is well formed: empty for a padding
/// leaf, led by the leaf's own point otherwise, and every listed point is
/// one of the indexed input points.
pub open spec fn aff_region_ok(
    starts: Seq<usize>,
    buf: Seq<i32>,
    w: Seq<i32>,
    inputs: Seq<Seq<int>>,
    dims: int,
    l: int,
    total: int,
) -> bool {
    let s = starts[l] as int;
    let e = region_end(starts, l, total);
    &&& s <= e <= total
    &&& (is_pad(pt_at(w, dims, l)) ==> s == e)
    &&& (!is_pad(pt_at(w, dims, l)) ==> s < e && pt_at(buf, dims, s) == pt_at(w, dims, l))
    &&& forall|k: int| s <= k < e ==> in_inputs(inputs, #[trigger] pt_at(buf, dims, k))
}

/// The query point `q` takes, at every depth from `d` on, exactly the turns
/// that lead to leaf `l`: each strict comparison against a split on the path
/// sends it to the side that `l` lies on.
pub open spec fn q_reaches(tests: Seq<i32>, dims: int, h: int, d: int, l: int, q: Seq<int>) -> bool {
    forall|e: int|
        d <= e < h ==> (side_of(l, e, h) == 0 <==> q[e % dims] < #[trigger] tests[node_of(
            l,
            e,
            h,
        )] as int)
}

/// The scan of leaf `l`'s affordance region finds a point within squared
/// radius `rsq` of `q`.
pub open spec fn scan_hits(
    starts: Seq<usize>,
    buf: Seq<i32>,
    dims: int,
    l: int,
    total: int,
    q: Seq<int>,
    rsq: int,
) -> bool {
    exists|k: int|
        starts[l] <= k < region_end(starts, l, total) && dist_sq(
            #[trigger] pt_at(buf, dims, k),
            q,
        ) <= rsq
}

/// Every non-leading point of leaf `l`'s affordance region passed the leaf
/// retain filter for the leaf's own descent cell: it differs from the
/// center, reaches into the cell at the largest legal radius, is closer to
/// the cell than the center is to the cell's farthest corner, and is not
/// dominated by the center at the smallest legal radius.
pub open spec fn region_filtered(
    tests: Seq<i32>,
    starts: Seq<usize>,
    buf: Seq<i32>,
    center: Seq<int>,
    dims: int,
    h: int,
    l: int,
    total: int,
    rsq_min: int,
    rsq_max: int,
) -> bool {
    forall|k: int|
        starts[l] < k < region_end(starts, l, total) ==> leaf_keep(
            cell_lo_seq(tests, dims, h, l),
            cell_hi_seq(tests, dims, h, l),
            center,
            #[trigger] pt_at(buf, dims, k),
            rsq_min,
            rsq_max,
        )
}

/// Recursive build of an affordance tree over the point range
/// `[lo, lo + size)` with subtree root `node` at depth `depth`: partitions
/// the range, writes the split planes, narrows the candidate set through the
/// volume filters, and records one affordance region per leaf.  Returns the
/// new total number of buffered points.
#[verifier::rlimit(100)]
fn build_aff(
    w: &mut Vec<i32>,
    tests: &mut Vec<i32>,
    starts: &mut Vec<usize>,
    buf: &mut Vec<i32>,
    count: usize,
    cands: Vec<i32>,
    cands_n: usize,
    vol: Volume,
    dims: usize,
    height: usize,
    depth: usize,
    lo: usize,
    size: usize,
    node: usize,
    rsq_min: u128,
    rsq_max: u128,
    Ghost(inputs): Ghost<Seq<Seq<int>>>,
    rng: &mut rand_chacha::ChaCha20Rng,
) -> (ret: usize)
    requires
        1 <= dims <= MAX_DIMS,
        depth <= height <= 31,
        old(w).len() == pow2i(height as int) * dims,
        old(tests).len() == pow2i(height as int) - 1,
        size == pow2i(height as int - depth as int),
        (lo as int) % pow2i(height as int - depth as int) == 0,
        lo + size <= pow2i(height as int),
        node == node_of(lo as int, depth as int, height as int),
        old(starts).len() == lo,
        old(buf).len() == count * dims,
        cands.len() == cands_n * dims,
        vol.wf(),
        vol.dims() == dims,
        forall|j: int|
            0 <= j < cands_n ==> in_inputs(inputs, #[trigger] pt_at(cands@, dims as int, j)),
        forall|l: int|
            lo <= l < lo + size ==> is_pad(#[trigger] pt_at(old(w)@, dims as int, l)) || in_inputs(
                inputs,
                pt_at(old(w)@, dims as int, l),
            ),
        forall|t: int| 0 <= t < inputs.len() ==> (#[trigger] inputs[t]).len() == dims,
        forall|t: int, c: int|
            0 <= t < inputs.len() && 0 <= c < dims ==> #[trigger] inputs[t][c] < PAD_COORD as int,
        forall|l: int|
            lo <= l < lo + size ==> in_box(vol.lo(), vol.hi(), #[trigger] pt_at(
                old(w)@,
                dims as int,
                l,
            )),
        (forall|l: int| lo <= l < lo + size ==> is_pad(#[trigger] pt_at(old(w)@, dims as int, l)))
            ==> exists|a: int| 0 <= a < dims && #[trigger] vol.lo()[a] >= PAD_COORD as int,
        forall|a: int|
            0 <= a < dims ==> #[trigger] vol.lo()[a] == cell_lo_upto(
                old(tests)@,
                dims as int,
                height as int,
                lo as int,
                a,
                depth as int,
            ) && vol.hi()[a] == cell_hi_upto(
                old(tests)@,
                dims as int,
                height as int,
                lo as int,
                a,
                depth as int,
            ),
    ensures
        final(w).len() == old(w).len(),
        final(tests).len() == old(tests).len(),
        forall|x: int|
            0 <= x < old(w).len() && !(lo * dims <= x < (lo + size) * dims) ==> final(w)@[x]
                == old(w)@[x],
        slice_pts(final(w)@, dims as int, lo as int, lo + size).to_multiset() == slice_pts(
            old(w)@,
            dims as int,
            lo as int,
            lo + size,
        ).to_multiset(),
        forall|l2: int, e2: int|
            0 <= l2 < pow2i(height as int) && 0 <= e2 < height && (e2 < depth || l2 < lo || l2
                >= lo + size) ==> final(tests)@[node_of(l2, e2, height as int)] == old(
                tests,
            )@[node_of(l2, e2, height as int)],
        forall|l: int|
            lo <= l < lo + size ==> path_ok(
                final(tests)@,
                dims as int,
                height as int,
                depth as int,
                l,
                #[trigger] pt_at(final(w)@, dims as int, l),
            ),
        forall|l: int|
            lo <= l < lo + size ==> is_pad(#[trigger] pt_at(final(w)@, dims as int, l))
                || in_inputs(inputs, pt_at(final(w)@, dims as int, l)),
        forall|l: int|
            lo <= l < lo + size ==> in_box(vol.lo(), vol.hi(), #[trigger] pt_at(
                final(w)@,
                dims as int,
                l,
            )),
        final(starts).len() == lo + size,
        forall|x: int| 0 <= x < lo ==> #[trigger] final(starts)@[x] == old(starts)@[x],
        final(starts)@[lo as int] == count,
        count <= ret,
        final(buf).len() == ret * dims,
        forall|x: int| 0 <= x < old(buf).len() ==> #[trigger] final(buf)@[x] == old(buf)@[x],
        forall|l: int|
            lo <= l < lo + size ==> count <= #[trigger] final(starts)@[l] <= ret,
        forall|l: int|
            lo <= l < lo + size ==> aff_region_ok(
                final(starts)@,
                final(buf)@,
                final(w)@,
                inputs,
                dims as int,
                l,
                ret as int,
            ),
        forall|l: int|
            lo <= l < lo + size ==> #[trigger] region_filtered(
                final(tests)@,
                final(starts)@,
                final(buf)@,
                pt_at(final(w)@, dims as int, l),
                dims as int,
                height as int,
                l,
                ret as int,
                rsq_min as int,
                rsq_max as int,
            ),
        forall|l: int, q: Seq<int>, p: Seq<int>, rsq: int|
            #![trigger scan_hits(final(starts)@, final(buf)@, dims as int, l, ret as int, q, rsq), dist_sq(p, q)]
            rsq_min == 0 && lo <= l < lo + size && q.len() == dims && p.len() == dims && (forall|
                c: int,
            | 0 <= c < dims ==> #[trigger] q[c] < PAD_COORD as int) && in_box(vol.lo(), vol.hi(), q)
                && q_reaches(final(tests)@, dims as int, height as int, depth as int, l, q)
                && has_pt(cands@, dims as int, cands_n as int, p) && dist_sq(p, q) <= rsq && dist_sq(
                p,
                q,
            ) < rsq_max && rsq <= rsq_max ==> scan_hits(
                final(starts)@,
                final(buf)@,
                dims as int,
                l,
                ret as int,
                q,
                rsq,
            ),
    decreases height - depth,
{
    let ghost dd = dims as int;
    let ghost hh = height as int;
    let ghost n2 = pow2i(hh);
    proof {
        lemma_pow2i_pos(hh - depth);
        lemma_pow2i_pos(hh);
        assert(pow2i(hh) <= 0x8000_0000) by {
            lemma_pow2i_mono(hh, 31);
            reveal_with_fuel(pow2i, 33);
        }
    }
    if size >= 2 {
        let half = size / 2;
        let mid = lo + half;
        let ax = depth % dims;
        proof {
            lemma_block_split(lo as int, depth as int, hh);
            assert(half == pow2i(hh - depth - 1));
            lemma_node_range(lo as int, depth as int, hh);
            lemma_pow2i_mono(depth as int + 1, hh);
            assert(node < pow2i(hh) - 1);
            lemma_mul_inequality(lo as int + size, pow2i(hh), dd);
            lemma_mul_nonnegative(lo as int, dd);
        }
        let ghost w0 = w@;
        let ghost tests0 = tests@;
        let t = median_partition(w, dims, lo, lo + size, ax, rng);
        let ghost w1 = w@;
        tests[node] = t;
        let ghost tests1 = tests@;
        let (lo_vol, hi_vol) = vol.split(t, ax);
        let (lo_cands, lo_n) = filter_cands(&cands, cands_n, dims, &lo_vol, rsq_min, rsq_max);
        let (hi_cands, hi_n) = filter_cands(&cands, cands_n, dims, &hi_vol, rsq_min, rsq_max);
        proof {
            lemma_mul_inequality(lo as int + half, pow2i(hh), dd);
            // candidate membership carries through the filters
            assert forall|j: int| 0 <= j < lo_n implies in_inputs(
                inputs,
                #[trigger] pt_at(lo_cands@, dd, j),
            ) by {
                let j2 = choose|j2: int|
                    0 <= j2 < cands_n && pt_at(cands@, dd, j2) == pt_at(lo_cands@, dd, j);
            }
            assert forall|j: int| 0 <= j < hi_n implies in_inputs(
                inputs,
                #[trigger] pt_at(hi_cands@, dd, j),
            ) by {
                let j2 = choose|j2: int|
                    0 <= j2 < cands_n && pt_at(cands@, dd, j2) == pt_at(hi_cands@, dd, j);
            }
            // pad-or-input and box membership carry through the permutation
            let pad_or_in = |q: Seq<int>| (is_pad(q) || in_inputs(inputs, q)) && q.len() == dd
                && in_box(vol.lo(), vol.hi(), q);
            assert forall|u: int| 0 <= u < size implies #[trigger] pad_or_in(
                slice_pts(w0, dd, lo as int, lo + size)[u],
            ) by {
                assert(slice_pts(w0, dd, lo as int, lo + size)[u] == pt_at(w0, dd, lo + u));
            }
            lemma_ms_pointwise(
                slice_pts(w0, dd, lo as int, lo + size),
                slice_pts(w1, dd, lo as int, lo + size),
                pad_or_in,
            );
            assert forall|l: int| lo <= l < lo + size implies (is_pad(
                #[trigger] pt_at(w1, dd, l),
            ) || in_inputs(inputs, pt_at(w1, dd, l))) && in_box(vol.lo(), vol.hi(), pt_at(w1, dd, l)) by {
                assert(pad_or_in(slice_pts(w1, dd, lo as int, lo + size)[l - lo]));
                assert(slice_pts(w1, dd, lo as int, lo + size)[l - lo] == pt_at(w1, dd, l));
            }
            // the split value lies within the parent's bounds on its axis
            assert(vol.lo()[ax as int] <= t as int <= vol.hi()[ax as int]) by {
                assert(coord_at(w1, dd, lo as int, ax as int) <= t as int);
                assert(coord_at(w1, dd, mid as int, ax as int) >= t as int);
                assert(in_box(vol.lo(), vol.hi(), pt_at(w1, dd, lo as int)));
                assert(pt_at(w1, dd, lo as int)[ax as int] == coord_at(w1, dd, lo as int, ax as int));
                assert(in_box(vol.lo(), vol.hi(), pt_at(w1, dd, mid as int)));
                assert(pt_at(w1, dd, mid as int)[ax as int] == coord_at(w1, dd, mid as int, ax as int));
            }
            // left blocks lie in the low child volume
            assert forall|l: int| lo <= l < mid implies in_box(
                lo_vol.lo(),
                lo_vol.hi(),
                #[trigger] pt_at(w1, dd, l),
            ) by {
                assert(in_box(vol.lo(), vol.hi(), pt_at(w1, dd, l)));
                assert(pt_at(w1, dd, l)[ax as int] == coord_at(w1, dd, l, ax as int));
                assert(coord_at(w1, dd, l, ax as int) <= t as int);
                assert forall|a: int| 0 <= a < dd implies lo_vol.lo()[a] <= #[trigger] pt_at(
                    w1,
                    dd,
                    l,
                )[a] <= lo_vol.hi()[a] by {
                    assert(vol.lo()[a] <= pt_at(w1, dd, l)[a] <= vol.hi()[a]);
                }
            }
            // if the left half is all padding, so is the whole range, and the
            // low child volume inherits an axis pinned at the sentinel
            if forall|l: int| lo <= l < mid ==> is_pad(#[trigger] pt_at(w1, dd, l)) {
                assert(is_pad(pt_at(w1, dd, lo as int)));
                assert(pt_at(w1, dd, lo as int)[ax as int] == PAD_COORD as int);
                assert(coord_at(w1, dd, lo as int, ax as int) == PAD_COORD as int);
                assert(t == PAD_COORD);
                assert forall|l: int| lo <= l < lo + size implies is_pad(
                    #[trigger] pt_at(w1, dd, l),
                ) by {
                    if l >= mid {
                        assert(coord_at(w1, dd, l, ax as int) >= t as int);
                        assert(pt_at(w1, dd, l)[ax as int] == coord_at(w1, dd, l, ax as int));
                        if !is_pad(pt_at(w1, dd, l)) {
                            assert(in_inputs(inputs, pt_at(w1, dd, l)));
                            let ti = choose|ti: int|
                                0 <= ti < inputs.len() && inputs[ti] == pt_at(w1, dd, l);
                            assert(inputs[ti][ax as int] < PAD_COORD as int);
                            assert(false);
                        }
                    }
                }
                assert forall|l: int| lo <= l < lo + size implies is_pad(
                    #[trigger] pt_at(w0, dd, l),
                ) by {
                    let pad_p = |q: Seq<int>| is_pad(q);
                    assert forall|u: int| 0 <= u < size implies #[trigger] pad_p(
                        slice_pts(w1, dd, lo as int, lo + size)[u],
                    ) by {
                        assert(slice_pts(w1, dd, lo as int, lo + size)[u] == pt_at(w1, dd, lo + u));
                    }
                    lemma_ms_pointwise(
                        slice_pts(w1, dd, lo as int, lo + size),
                        slice_pts(w0, dd, lo as int, lo + size),
                        pad_p,
                    );
                    assert(pad_p(slice_pts(w0, dd, lo as int, lo + size)[l - lo]));
                    assert(slice_pts(w0, dd, lo as int, lo + size)[l - lo] == pt_at(w0, dd, l));
                }
            }
            // the low child's volume is the cell prefix one level deeper
            assert forall|e: int| 0 <= e < depth implies #[trigger] tests0[node_of(lo as int, e, hh)]
                == tests1[node_of(lo as int, e, hh)] by {
                lemma_node_range(lo as int, e, hh);
                lemma_pow2i_mono(e + 1, hh);
                lemma_node_bands(lo as int, e, lo as int, depth as int, hh);
                lemma_node_range(lo as int, depth as int, hh);
            }
            lemma_side_of_block(lo as int, lo as int, depth as int, hh);
            assert(side_of(lo as int, depth as int, hh) == 0);
            assert forall|a: int| 0 <= a < dd implies #[trigger] lo_vol.lo()[a] == cell_lo_upto(
                tests1,
                dd,
                hh,
                lo as int,
                a,
                depth as int + 1,
            ) && lo_vol.hi()[a] == cell_hi_upto(tests1, dd, hh, lo as int, a, depth as int + 1) by {
                assert(vol.lo()[a] == cell_lo_upto(tests0, dd, hh, lo as int, a, depth as int));
                assert(vol.hi()[a] == cell_hi_upto(tests0, dd, hh, lo as int, a, depth as int));
                lemma_cell_stable(tests0, tests1, dd, hh, lo as int, a, depth as int);
                assert(tests1[node_of(lo as int, depth as int, hh)] == t);
                assert(lo_vol.lo()[a] == vol.lo()[a]);
                assert(lo_vol.hi() == vol.hi().update(ax as int, t as int));
                assert(ax as int == depth as int % dd);
            }
        }
        let count1 = build_aff(
            w,
            tests,
            starts,
            buf,
            count,
            lo_cands,
            lo_n,
            lo_vol,
            dims,
            height,
            depth + 1,
            lo,
            half,
            2 * node + 1,
            rsq_min,
            rsq_max,
            Ghost(inputs),
            rng,
        );
        let ghost w2 = w@;
        let ghost tests2 = tests@;
        let ghost starts2 = starts@;
        let ghost buf2 = buf@;
        proof {
            // the right half's blocks were untouched by the left build
            assert forall|m: int| mid <= m < lo + size implies #[trigger] pt_at(w2, dd, m) == pt_at(
                w1,
                dd,
                m,
            ) by {
                lemma_mul_inequality(m + 1, lo as int + size, dd);
                lemma_pt_frame(w1, w2, dd, m, lo as int, mid as int);
            }
            // right blocks lie in the high child volume
            assert forall|l: int| mid <= l < lo + size implies in_box(
                hi_vol.lo(),
                hi_vol.hi(),
                #[trigger] pt_at(w2, dd, l),
            ) by {
                assert(pt_at(w2, dd, l) == pt_at(w1, dd, l));
                assert(in_box(vol.lo(), vol.hi(), pt_at(w1, dd, l)));
                assert(pt_at(w1, dd, l)[ax as int] == coord_at(w1, dd, l, ax as int));
                assert(coord_at(w1, dd, l, ax as int) >= t as int);
                assert forall|a: int| 0 <= a < dd implies hi_vol.lo()[a] <= #[trigger] pt_at(
                    w2,
                    dd,
                    l,
                )[a] <= hi_vol.hi()[a] by {
                    assert(vol.lo()[a] <= pt_at(w1, dd, l)[a] <= vol.hi()[a]);
                }
            }
            // if the right half is all padding, the split saturated: the
            // high child volume has its split axis pinned at the sentinel
            if forall|l: int| mid <= l < lo + size ==> is_pad(#[trigger] pt_at(w2, dd, l)) {
                assert(is_pad(pt_at(w2, dd, mid as int)));
                assert(pt_at(w2, dd, mid as int) == pt_at(w1, dd, mid as int));
                assert(pt_at(w1, dd, mid as int)[ax as int] == PAD_COORD as int);
                assert(coord_at(w1, dd, mid as int, ax as int) == PAD_COORD as int);
                assert(t == PAD_COORD);
                assert(hi_vol.lo()[ax as int] == PAD_COORD as int);
            }
            // the high child's volume is the cell prefix one level deeper
            lemma_side_of_block(lo as int, mid as int, depth as int, hh);
            assert(side_of(mid as int, depth as int, hh) == 1);
            lemma_node_of_block(lo as int, mid as int, depth as int, hh);
            assert forall|e: int| 0 <= e < depth implies #[trigger] tests0[node_of(lo as int, e, hh)]
                == tests2[node_of(lo as int, e, hh)] by {
                lemma_node_range(lo as int, e, hh);
                lemma_pow2i_mono(e + 1, hh);
                lemma_node_bands(lo as int, e, lo as int, depth as int, hh);
                lemma_node_range(lo as int, depth as int, hh);
                assert(tests2[node_of(lo as int, e, hh)] == tests1[node_of(lo as int, e, hh)]);
            }
            assert(tests2[node_of(mid as int, depth as int, hh)] == tests1[node as int]);
            lemma_pow2i_pos(hh - depth);
            lemma_div_in_block(lo as int, pow2i(hh - depth), mid as int);
            assert forall|a: int| 0 <= a < dd implies #[trigger] hi_vol.lo()[a] == cell_lo_upto(
                tests2,
                dd,
                hh,
                mid as int,
                a,
                depth as int + 1,
            ) && hi_vol.hi()[a] == cell_hi_upto(tests2, dd, hh, mid as int, a, depth as int + 1) by {
                assert(vol.lo()[a] == cell_lo_upto(tests0, dd, hh, lo as int, a, depth as int));
                assert(vol.hi()[a] == cell_hi_upto(tests0, dd, hh, lo as int, a, depth as int));
                lemma_cell_same(tests2, dd, hh, mid as int, lo as int, a, depth as int);
                lemma_cell_stable(tests0, tests2, dd, hh, lo as int, a, depth as int);
                assert(tests2[node_of(mid as int, depth as int, hh)] == t);
                assert(hi_vol.lo() == vol.lo().update(ax as int, t as int));
                assert(hi_vol.hi()[a] == vol.hi()[a]);
                assert(ax as int == depth as int % dd);
            }
        }
        let count2 = build_aff(
            w,
            tests,
            starts,
            buf,
            count1,
            hi_cands,
            hi_n,
            hi_vol,
            dims,
            height,
            depth + 1,
            mid,
            half,
            2 * node + 2,
            rsq_min,
            rsq_max,
            Ghost(inputs),
            rng,
        );
        let ghost w3 = w@;
        let ghost tests3 = tests@;
        let ghost starts3 = starts@;
        let ghost buf3 = buf@;
        proof {
            let lop = lo as int;
            let midp = mid as int;
            let hip = lo + size;
            lemma_mul_inequality(lop, midp, dd);
            lemma_mul_inequality(midp, hip, dd);
            lemma_mul_inequality(lop, hip, dd);
            lemma_mul_inequality(count as int, count1 as int, dd);
            lemma_mul_inequality(count1 as int, count2 as int, dd);
            // point blocks of the left half are untouched by the right build
            assert forall|m: int| lop <= m < midp implies #[trigger] pt_at(w3, dd, m) == pt_at(
                w2,
                dd,
                m,
            ) by {
                lemma_mul_inequality(m + 1, hip, dd);
                lemma_pt_frame(w2, w3, dd, m, midp, hip);
            }
            assert forall|m: int| midp <= m < hip implies #[trigger] pt_at(w2, dd, m) == pt_at(
                w1,
                dd,
                m,
            ) by {
                lemma_mul_inequality(m + 1, hip, dd);
                lemma_pt_frame(w1, w2, dd, m, lop, midp);
            }
            lemma_slice_ms_compose(w1, w2, dd, lop, hip, lop, midp);
            lemma_slice_ms_compose(w2, w3, dd, lop, hip, midp, hip);
            // test slots: frame in path-node form
            assert forall|l2: int, e2: int|
                0 <= l2 < n2 && 0 <= e2 < hh && (e2 < depth || l2 < lop || l2 >= hip) implies
                tests3[node_of(l2, e2, hh)] == tests0[node_of(l2, e2, hh)] by {
                lemma_node_range(l2, e2, hh);
                lemma_pow2i_mono(e2 + 1, hh);
                if e2 < depth {
                    lemma_node_bands(l2, e2, lo as int, depth as int, hh);
                } else if e2 == depth {
                    lemma_node_of_outside(lop, l2, depth as int, hh);
                } else {
                    lemma_node_bands(lo as int, depth as int, l2, e2, hh);
                }
                if e2 < depth + 1 {
                    assert(tests2[node_of(l2, e2, hh)] == tests1[node_of(l2, e2, hh)]);
                    assert(tests3[node_of(l2, e2, hh)] == tests2[node_of(l2, e2, hh)]);
                } else {
                    if l2 < lop || l2 >= hip {
                        assert(l2 < lop || l2 >= midp);
                        assert(l2 < midp || l2 >= hip);
                        assert(tests2[node_of(l2, e2, hh)] == tests1[node_of(l2, e2, hh)]);
                        assert(tests3[node_of(l2, e2, hh)] == tests2[node_of(l2, e2, hh)]);
                    }
                }
                assert(tests1[node_of(l2, e2, hh)] == tests0[node_of(l2, e2, hh)]);
            }
            // the split value still stands at `node`
            assert(tests3[node as int] == t) by {
                assert(tests1[node as int] == t);
                lemma_node_range(lo as int, depth as int, hh);
                assert forall|l2: int, e2: int|
                    0 <= l2 < n2 && 0 <= e2 < hh && e2 > depth implies node_of(l2, e2, hh)
                        != node as int by {
                    lemma_node_bands(lo as int, depth as int, l2, e2, hh);
                }
                assert(tests2[node as int] == tests1[node as int]);
                assert(tests3[node as int] == tests2[node as int]);
            }
            // left-half coordinates still at or below the split
            let pred_le = |q: Seq<int>| q.len() == dd && q[ax as int] <= t as int;
            assert forall|u: int| 0 <= u < midp - lop implies #[trigger] pred_le(
                slice_pts(w1, dd, lop, midp)[u],
            ) by {
                assert(slice_pts(w1, dd, lop, midp)[u] == pt_at(w1, dd, lop + u));
                assert(coord_at(w1, dd, lop + u, ax as int) == pt_at(w1, dd, lop + u)[ax as int]);
            }
            lemma_ms_pointwise(
                slice_pts(w1, dd, lop, midp),
                slice_pts(w2, dd, lop, midp),
                pred_le,
            );
            assert forall|l: int| lop <= l < midp implies pred_le(#[trigger] pt_at(w3, dd, l)) by {
                assert(pred_le(slice_pts(w2, dd, lop, midp)[l - lop]));
                assert(slice_pts(w2, dd, lop, midp)[l - lop] == pt_at(w2, dd, l));
            }
            // right-half coordinates still at or above the split
            let pred_ge = |q: Seq<int>| q.len() == dd && q[ax as int] >= t as int;
            assert forall|u: int| 0 <= u < hip - midp implies #[trigger] pred_ge(
                slice_pts(w2, dd, midp, hip)[u],
            ) by {
                assert(slice_pts(w2, dd, midp, hip)[u] == pt_at(w2, dd, midp + u));
                assert(pt_at(w2, dd, midp + u) == pt_at(w1, dd, midp + u));
                assert(coord_at(w1, dd, midp + u, ax as int) == pt_at(w1, dd, midp + u)[ax as int]);
            }
            lemma_ms_pointwise(
                slice_pts(w2, dd, midp, hip),
                slice_pts(w3, dd, midp, hip),
                pred_ge,
            );
            assert forall|l: int| midp <= l < hip implies pred_ge(#[trigger] pt_at(w3, dd, l)) by {
                assert(pred_ge(slice_pts(w3, dd, midp, hip)[l - midp]));
                assert(slice_pts(w3, dd, midp, hip)[l - midp] == pt_at(w3, dd, l));
            }
            // assemble path_ok for the whole range
            assert forall|l: int| lop <= l < hip implies path_ok(
                tests3,
                dd,
                hh,
                depth as int,
                l,
                #[trigger] pt_at(w3, dd, l),
            ) by {
                let p = pt_at(w3, dd, l);
                lemma_side_of_block(lop, l, depth as int, hh);
                lemma_node_of_block(lop, l, depth as int, hh);
                if l < midp {
                    assert(path_ok(tests3, dd, hh, depth as int + 1, l, p));
                    assert(pred_le(p));
                    assert(side_of(l, depth as int, hh) == 0);
                } else {
                    assert(path_ok(tests3, dd, hh, depth as int + 1, l, p));
                    assert(pred_ge(p));
                    assert(side_of(l, depth as int, hh) == 1);
                }
                assert(on_side(
                    p[depth as int % dd],
                    tests3[node_of(l, depth as int, hh)] as int,
                    side_of(l, depth as int, hh),
                ));
                assert forall|e: int| depth <= e < hh implies on_side(
                    p[e % dd],
                    #[trigger] tests3[node_of(l, e, hh)] as int,
                    side_of(l, e, hh),
                ) by {
                    if e > depth {
                        assert(on_side(p[e % dd], tests3[node_of(l, e, hh)] as int, side_of(l, e, hh)));
                    }
                }
            }
            // pad-or-input over the final arrangement
            assert forall|l: int| lop <= l < hip implies is_pad(#[trigger] pt_at(w3, dd, l))
                || in_inputs(inputs, pt_at(w3, dd, l)) by {
                if l < midp {
                    assert(pt_at(w3, dd, l) == pt_at(w2, dd, l));
                    assert(is_pad(pt_at(w2, dd, l)) || in_inputs(inputs, pt_at(w2, dd, l)));
                }
            }
            // affordance regions: the left half's regions survive the right build
            assert forall|l: int| lop <= l < midp implies aff_region_ok(
                starts3,
                buf3,
                w3,
                inputs,
                dd,
                l,
                count2 as int,
            ) by {
                assert(aff_region_ok(starts2, buf2, w2, inputs, dd, l, count1 as int));
                let s = starts2[l] as int;
                let e = region_end(starts2, l, count1 as int);
                assert(starts3[l] == starts2[l]);
                assert(region_end(starts3, l, count2 as int) == e) by {
                    if l + 1 < starts2.len() {
                        assert(starts3[l + 1] == starts2[l + 1]);
                    } else {
                        assert(l + 1 == midp);
                        assert(starts3[l + 1] == count1);
                    }
                }
                assert(pt_at(w3, dd, l) == pt_at(w2, dd, l));
                assert forall|k: int| s <= k < e implies #[trigger] pt_at(buf3, dd, k) == pt_at(
                    buf2,
                    dd,
                    k,
                ) by {
                    lemma_mul_inequality(k + 1, count1 as int, dd);
                    lemma_mul_nonnegative(k, dd);
                    lemma_mul_is_distributive_add_other_way(dd, k, 1);
                    assert(pt_at(buf3, dd, k) =~= pt_at(buf2, dd, k));
                }
                if !is_pad(pt_at(w3, dd, l)) {
                    assert(pt_at(buf3, dd, s) == pt_at(buf2, dd, s));
                }
            }
            // the per-element leaf filter facts also survive the right build
            assert forall|l: int, e: int|
                lop <= l < midp && 0 <= e < hh implies #[trigger] tests3[node_of(l, e, hh)]
                    == tests2[node_of(l, e, hh)] by {
                lemma_node_range(l, e, hh);
                lemma_pow2i_mono(e + 1, hh);
            }
            lemma_regions_carry(
                tests2,
                tests3,
                starts2,
                starts3,
                buf2,
                buf3,
                w2,
                w3,
                inputs,
                dd,
                hh,
                lop,
                midp,
                hip,
                count1 as int,
                count2 as int,
                rsq_min as int,
                rsq_max as int,
            );
            // soundness: a candidate that a legal ball centered in a leaf's
            // cell can reach is covered by that leaf's region, via whichever
            // child the cell lies in
            assert forall|l: int, q: Seq<int>, p: Seq<int>, rsq: int|
                #![trigger scan_hits(starts3, buf3, dd, l, count2 as int, q, rsq), dist_sq(p, q)]
                rsq_min == 0 && lo <= l < lo + size && q.len() == dims && p.len() == dims && (
                forall|c: int| 0 <= c < dims ==> #[trigger] q[c] < PAD_COORD as int) && in_box(
                    vol.lo(),
                    vol.hi(),
                    q,
                ) && q_reaches(tests3, dd, hh, depth as int, l, q) && has_pt(
                    cands@,
                    dd,
                    cands_n as int,
                    p,
                ) && dist_sq(p, q) <= rsq && dist_sq(p, q) < rsq_max && rsq <= rsq_max implies
                scan_hits(starts3, buf3, dd, l, count2 as int, q, rsq) by {
                lemma_side_of_block(lop, l, depth as int, hh);
                lemma_node_of_block(lop, l, depth as int, hh);
                assert(side_of(l, depth as int, hh) == 0 <==> q[depth as int % dd] < tests3[node_of(
                    l,
                    depth as int,
                    hh,
                )] as int);
                assert(node_of(l, depth as int, hh) == node_of(lop, depth as int, hh));
                let j = choose|j: int| 0 <= j < cands_n && #[trigger] pt_at(cands@, dd, j) == p;
                lemma_dist_sq_upto_nonneg(p, q, dd);
                if l < midp {
                    assert(q[ax as int] < t as int);
                    assert(in_box(lo_vol.lo(), lo_vol.hi(), q)) by {
                        assert forall|a: int| 0 <= a < dd implies lo_vol.lo()[a] <= #[trigger] q[a]
                            <= lo_vol.hi()[a] by {
                            assert(vol.lo()[a] <= q[a] <= vol.hi()[a]);
                        }
                    }
                    assert(q_reaches(tests2, dd, hh, depth as int + 1, l, q)) by {
                        assert forall|e: int| depth + 1 <= e < hh implies (side_of(l, e, hh) == 0
                            <==> q[e % dd] < #[trigger] tests2[node_of(l, e, hh)] as int) by {
                            assert(tests3[node_of(l, e, hh)] == tests2[node_of(l, e, hh)]);
                            assert(side_of(l, e, hh) == 0 <==> q[e % dd] < tests3[node_of(
                                l,
                                e,
                                hh,
                            )] as int);
                        }
                    }
                    lemma_box_dist_le(lo_vol.lo(), lo_vol.hi(), p, q, dd);
                    lemma_dist_sq_upto_sym(q, p, dd);
                    assert(box_dist_sq(lo_vol.lo(), lo_vol.hi(), p) < rsq_max);
                    if 0 < box_far_sq(lo_vol.lo(), lo_vol.hi(), p) {
                        assert(aff_keep(
                            lo_vol.lo(),
                            lo_vol.hi(),
                            pt_at(cands@, dd, j),
                            rsq_min as int,
                            rsq_max as int,
                        ));
                        assert(has_pt(lo_cands@, dd, lo_n as int, p));
                        assert(scan_hits(starts2, buf2, dd, l, count1 as int, q, rsq));
                        let k = choose|k: int|
                            starts2[l] <= k < region_end(starts2, l, count1 as int) && dist_sq(
                                #[trigger] pt_at(buf2, dd, k),
                                q,
                            ) <= rsq;
                        assert(starts3[l] == starts2[l]);
                        assert(region_end(starts3, l, count2 as int) == region_end(
                            starts2,
                            l,
                            count1 as int,
                        )) by {
                            if l + 1 < starts2.len() {
                                assert(starts3[l + 1] == starts2[l + 1]);
                            } else {
                                assert(l + 1 == midp);
                                assert(starts3[l + 1] == count1);
                            }
                        }
                        assert(k < count1) by {
                            assert(aff_region_ok(starts2, buf2, w2, inputs, dd, l, count1 as int));
                        }
                        assert(pt_at(buf3, dd, k) == pt_at(buf2, dd, k)) by {
                            lemma_mul_inequality(k + 1, count1 as int, dd);
                            lemma_mul_nonnegative(k, dd);
                            lemma_mul_is_distributive_add_other_way(dd, k, 1);
                            assert(pt_at(buf3, dd, k) =~= pt_at(buf2, dd, k));
                        }
                        assert(scan_hits(starts3, buf3, dd, l, count2 as int, q, rsq));
                    } else {
                        // the low child volume has shrunk to the point `p`
                        // itself: the leaf's center equals `p`, and `q` too
                        lemma_far_zero_degenerate(lo_vol.lo(), lo_vol.hi(), p, dd);
                        assert forall|a: int| 0 <= a < dd implies #[trigger] q[a] == p[a] by {
                            assert(lo_vol.lo()[a] <= q[a] <= lo_vol.hi()[a]);
                            assert(lo_vol.lo()[a] == p[a]);
                            assert(lo_vol.hi()[a] == p[a]);
                        }
                        let ctr = pt_at(w3, dd, l);
                        assert(pt_at(w3, dd, l) == pt_at(w2, dd, l));
                        assert(in_box(lo_vol.lo(), lo_vol.hi(), pt_at(w2, dd, l)));
                        assert forall|a: int| 0 <= a < dd implies #[trigger] ctr[a] == p[a] by {
                            assert(lo_vol.lo()[a] <= ctr[a] <= lo_vol.hi()[a]);
                            assert(lo_vol.lo()[a] == p[a]);
                            assert(lo_vol.hi()[a] == p[a]);
                        }
                        assert(ctr =~= q);
                        assert(!is_pad(ctr)) by {
                            assert(q[0] < PAD_COORD as int);
                            assert(ctr[0] == q[0]);
                        }
                        assert(aff_region_ok(starts3, buf3, w3, inputs, dd, l, count2 as int));
                        let k = starts3[l] as int;
                        assert(pt_at(buf3, dd, k) == ctr);
                        lemma_dist_self(q, dd);
                        assert(dist_sq(pt_at(buf3, dd, k), q) == 0);
                        assert(k < region_end(starts3, l, count2 as int));
                        assert(scan_hits(starts3, buf3, dd, l, count2 as int, q, rsq));
                    }
                } else {
                    assert(q[ax as int] >= t as int);
                    assert(in_box(hi_vol.lo(), hi_vol.hi(), q)) by {
                        assert forall|a: int| 0 <= a < dd implies hi_vol.lo()[a] <= #[trigger] q[a]
                            <= hi_vol.hi()[a] by {
                            assert(vol.lo()[a] <= q[a] <= vol.hi()[a]);
                        }
                    }
                    assert(q_reaches(tests3, dd, hh, depth as int + 1, l, q)) by {
                        assert forall|e: int| depth + 1 <= e < hh implies (side_of(l, e, hh) == 0
                            <==> q[e % dd] < #[trigger] tests3[node_of(l, e, hh)] as int) by {
                            assert(side_of(l, e, hh) == 0 <==> q[e % dd] < tests3[node_of(
                                l,
                                e,
                                hh,
                            )] as int);
                        }
                    }
                    lemma_box_dist_le(hi_vol.lo(), hi_vol.hi(), p, q, dd);
                    lemma_dist_sq_upto_sym(q, p, dd);
                    assert(box_dist_sq(hi_vol.lo(), hi_vol.hi(), p) < rsq_max);
                    if 0 < box_far_sq(hi_vol.lo(), hi_vol.hi(), p) {
                        assert(aff_keep(
                            hi_vol.lo(),
                            hi_vol.hi(),
                            pt_at(cands@, dd, j),
                            rsq_min as int,
                            rsq_max as int,
                        ));
                        assert(has_pt(hi_cands@, dd, hi_n as int, p));
                        assert(scan_hits(starts3, buf3, dd, l, count2 as int, q, rsq));
                    } else {
                        lemma_far_zero_degenerate(hi_vol.lo(), hi_vol.hi(), p, dd);
                        assert forall|a: int| 0 <= a < dd implies #[trigger] q[a] == p[a] by {
                            assert(hi_vol.lo()[a] <= q[a] <= hi_vol.hi()[a]);
                            assert(hi_vol.lo()[a] == p[a]);
                            assert(hi_vol.hi()[a] == p[a]);
                        }
                        let ctr = pt_at(w3, dd, l);
                        assert(in_box(hi_vol.lo(), hi_vol.hi(), pt_at(w3, dd, l)));
                        assert forall|a: int| 0 <= a < dd implies #[trigger] ctr[a] == p[a] by {
                            assert(hi_vol.lo()[a] <= ctr[a] <= hi_vol.hi()[a]);
                            assert(hi_vol.lo()[a] == p[a]);
                            assert(hi_vol.hi()[a] == p[a]);
                        }
                        assert(ctr =~= q);
                        assert(!is_pad(ctr)) by {
                            assert(q[0] < PAD_COORD as int);
                            assert(ctr[0] == q[0]);
                        }
                        assert(aff_region_ok(starts3, buf3, w3, inputs, dd, l, count2 as int));
                        let k = starts3[l] as int;
                        assert(pt_at(buf3, dd, k) == ctr);
                        lemma_dist_self(q, dd);
                        assert(dist_sq(pt_at(buf3, dd, k), q) == 0);
                        assert(k < region_end(starts3, l, count2 as int));
                        assert(scan_hits(starts3, buf3, dd, l, count2 as int, q, rsq));
                    }
                }
            }
        }
        count2
    } else {
        proof {
            assert(size == 1);
            assert(depth == height) by {
                if depth < height {
                    lemma_pow2i_pos(hh - depth - 1);
                    assert(pow2i(hh - depth) == 2 * pow2i(hh - depth - 1));
                }
            }
            lemma_mul_inequality(lo as int + 1, pow2i(hh), dd);
            lemma_mul_nonnegative(lo as int, dd);
        }
        let center = copy_point(w, dims, lo);
        let pad = point_is_pad(&center);
        starts.push(count);
        if pad {
            proof {
                assert(pt_at(w@, dd, lo as int) == iseq(center@));
                assert(aff_region_ok(starts@, buf@, w@, inputs, dd, lo as int, count as int));
                assert(region_filtered(
                    tests@,
                    starts@,
                    buf@,
                    pt_at(w@, dd, lo as int),
                    dd,
                    hh,
                    lo as int,
                    count as int,
                    rsq_min as int,
                    rsq_max as int,
                ));
                // a padding leaf pins some axis of its volume at the
                // sentinel, so no representable query center lies in it
                assert(forall|l2: int|
                    lo <= l2 < lo + size ==> is_pad(#[trigger] pt_at(old(w)@, dd, l2)));
                assert forall|l: int, q: Seq<int>, p: Seq<int>, rsq: int|
                    #![trigger scan_hits(starts@, buf@, dd, l, count as int, q, rsq), dist_sq(p, q)]
                    rsq_min == 0 && lo <= l < lo + size && q.len() == dims && p.len() == dims && (
                    forall|c: int| 0 <= c < dims ==> #[trigger] q[c] < PAD_COORD as int) && in_box(
                        vol.lo(),
                        vol.hi(),
                        q,
                    ) && q_reaches(tests@, dd, height as int, depth as int, l, q) && has_pt(
                        cands@,
                        dd,
                        cands_n as int,
                        p,
                    ) && dist_sq(p, q) <= rsq && dist_sq(p, q) < rsq_max && rsq <= rsq_max implies
                    scan_hits(starts@, buf@, dd, l, count as int, q, rsq) by {
                    let a = choose|a: int| 0 <= a < dims && #[trigger] vol.lo()[a] >= PAD_COORD as int;
                    assert(q[a] >= vol.lo()[a]);
                    assert(false);
                }
            }
            count
        } else {
            let ghost buf_pre = buf@;
            push_point(buf, w, dims, lo);
            proof {
                lemma_mul_is_distributive_add_other_way(dd, count as int, 1);
                assert(pt_at(buf@, dd, count as int) == pt_at(w@, dd, lo as int));
                assert(buf.len() == buf@.len());
                lemma_mul_inequality(1, dd, count as int + 1);
                lemma_mul_is_commutative(dd, count as int + 1);
                assert(count + 1 <= buf@.len());
            }
            let added = append_leaf_list(
                buf,
                count + 1,
                &cands,
                cands_n,
                dims,
                &vol,
                &center,
                rsq_min,
                rsq_max,
            );
            proof {
                assert(buf.len() == buf@.len());
                lemma_mul_inequality(1, dd, count as int + 1 + added);
                lemma_mul_is_commutative(dd, count as int + 1 + added);
                assert(count as int + 1 + added <= buf@.len());
            }
            let ret = count + 1 + added;
            proof {
                assert(pt_at(w@, dd, lo as int) == iseq(center@));
                lemma_mul_inequality(count as int, count as int + 1, dd);
                assert(pt_at(buf@, dd, count as int) == pt_at(w@, dd, lo as int)) by {
                    lemma_mul_is_distributive_add_other_way(dd, count as int, 1);
                    lemma_mul_nonnegative(count as int, dd);
                    assert(pt_at(buf@, dd, count as int) =~= ipt(buf@, count as int * dd, dd));
                    assert forall|c: int| 0 <= c < dd implies buf@[count as int * dd + c]
                        == pt_at(w@, dd, lo as int)[c] by {
                        assert(ipt(buf@, buf_pre.len() as int, dd)[c] == pt_at(w@, dd, lo as int)[c]);
                    }
                    assert(ipt(buf@, count as int * dd, dd) =~= pt_at(w@, dd, lo as int));
                }
                assert(in_inputs(inputs, pt_at(w@, dd, lo as int)));
                assert forall|k: int| count < k < ret implies in_inputs(
                    inputs,
                    #[trigger] pt_at(buf@, dd, k),
                ) by {
                    assert(leaf_keep(
                        vol.lo(),
                        vol.hi(),
                        iseq(center@),
                        pt_at(buf@, dd, k),
                        rsq_min as int,
                        rsq_max as int,
                    ) && has_pt(cands@, dd, cands_n as int, pt_at(buf@, dd, k)));
                    let j2 = choose|j2: int|
                        0 <= j2 < cands_n && pt_at(cands@, dd, j2) == pt_at(buf@, dd, k);
                }
                assert(aff_region_ok(starts@, buf@, w@, inputs, dd, lo as int, ret as int));
                // the leaf's volume is exactly its descent cell, so the
                // retain conditions proved of the appended points are the
                // cell-relative filter facts
                assert forall|a: int| 0 <= a < dd implies #[trigger] cell_lo_seq(
                    tests@,
                    dd,
                    hh,
                    lo as int,
                )[a] == vol.lo()[a] by {
                    assert(vol.lo()[a] == cell_lo_upto(old(tests)@, dd, hh, lo as int, a, depth as int));
                }
                assert forall|a: int| 0 <= a < dd implies #[trigger] cell_hi_seq(
                    tests@,
                    dd,
                    hh,
                    lo as int,
                )[a] == vol.hi()[a] by {
                    assert(vol.lo()[a] == cell_lo_upto(old(tests)@, dd, hh, lo as int, a, depth as int));
                    assert(vol.hi()[a] == cell_hi_upto(old(tests)@, dd, hh, lo as int, a, depth as int));
                }
                assert(vol.lo().len() == dd);
                assert(vol.hi().len() == dd);
                assert(cell_lo_seq(tests@, dd, hh, lo as int) =~= vol.lo());
                assert(cell_hi_seq(tests@, dd, hh, lo as int) =~= vol.hi());
                assert forall|k: int|
                    starts@[lo as int] < k < region_end(starts@, lo as int, ret as int) implies
                    leaf_keep(
                    cell_lo_seq(tests@, dd, hh, lo as int),
                    cell_hi_seq(tests@, dd, hh, lo as int),
                    pt_at(w@, dd, lo as int),
                    #[trigger] pt_at(buf@, dd, k),
                    rsq_min as int,
                    rsq_max as int,
                ) by {
                    assert(count + 1 <= k < ret);
                    assert(leaf_keep(
                        vol.lo(),
                        vol.hi(),
                        iseq(center@),
                        pt_at(buf@, dd, k),
                        rsq_min as int,
                        rsq_max as int,
                    ));
                }
                assert(region_filtered(
                    tests@,
                    starts@,
                    buf@,
                    pt_at(w@, dd, lo as int),
                    dd,
                    hh,
                    lo as int,
                    ret as int,
                    rsq_min as int,
                    rsq_max as int,
                ));
                // soundness of the region for every query whose center falls
                // in this leaf's cell
                let ctr = pt_at(w@, dd, lo as int);
                assert forall|l: int, q: Seq<int>, p: Seq<int>, rsq: int|
                    #![trigger scan_hits(starts@, buf@, dd, l, ret as int, q, rsq), dist_sq(p, q)]
                    rsq_min == 0 && lo <= l < lo + size && q.len() == dims && p.len() == dims && (
                    forall|c: int| 0 <= c < dims ==> #[trigger] q[c] < PAD_COORD as int) && in_box(
                        vol.lo(),
                        vol.hi(),
                        q,
                    ) && q_reaches(tests@, dd, height as int, depth as int, l, q) && has_pt(
                        cands@,
                        dd,
                        cands_n as int,
                        p,
                    ) && dist_sq(p, q) <= rsq && dist_sq(p, q) < rsq_max && rsq <= rsq_max implies
                    scan_hits(starts@, buf@, dd, l, ret as int, q, rsq) by {
                    let s = count as int;
                    assert(starts@[l] == count);
                    assert(region_end(starts@, l, ret as int) == ret);
                    let cl = clamp_pt(vol.lo(), vol.hi(), p);
                    lemma_dist_sq_upto_nonneg(p, q, dd);
                    if p == ctr {
                        assert(pt_at(buf@, dd, s) == ctr);
                        assert(dist_sq(pt_at(buf@, dd, s), q) <= rsq);
                        assert(scan_hits(starts@, buf@, dd, l, ret as int, q, rsq));
                    } else {
                        lemma_box_dist_le(vol.lo(), vol.hi(), p, q, dd);
                        lemma_dist_sq_upto_sym(p, cl, dd);
                        lemma_dist_sq_upto_sym(p, q, dd);
                        assert(dist_sq(p, cl) <= dist_sq(p, q));
                        if !(dist_sq(p, cl) < box_far_sq(vol.lo(), vol.hi(), ctr)) {
                            lemma_box_far_ge(vol.lo(), vol.hi(), ctr, q, dd);
                            lemma_dist_sq_upto_sym(ctr, q, dd);
                            assert(dist_sq(ctr, q) <= rsq);
                            assert(pt_at(buf@, dd, s) == ctr);
                            assert(dist_sq(pt_at(buf@, dd, s), q) <= rsq);
                            assert(scan_hits(starts@, buf@, dd, l, ret as int, q, rsq));
                        } else if !(0 < dist_sq(ctr, cl)) {
                            lemma_dist_sq_upto_nonneg(ctr, cl, dd);
                            lemma_dist_zero(ctr, cl, dd);
                            assert(ctr =~= cl);
                            lemma_clamp_lipschitz(vol.lo(), vol.hi(), p, q, dd);
                            assert(dist_sq(ctr, q) <= dist_sq(p, q));
                            assert(pt_at(buf@, dd, s) == ctr);
                            assert(dist_sq(pt_at(buf@, dd, s), q) <= rsq);
                            assert(scan_hits(starts@, buf@, dd, l, ret as int, q, rsq));
                        } else {
                            assert(iseq(center@) == ctr);
                            assert(leaf_keep(
                                vol.lo(),
                                vol.hi(),
                                iseq(center@),
                                p,
                                rsq_min as int,
                                rsq_max as int,
                            ));
                            let j = choose|j: int|
                                0 <= j < cands_n && #[trigger] pt_at(cands@, dd, j) == p;
                            assert(leaf_keep(
                                vol.lo(),
                                vol.hi(),
                                iseq(center@),
                                pt_at(cands@, dd, j),
                                rsq_min as int,
                                rsq_max as int,
                            ));
                            let k = choose|k: int|
                                count + 1 <= k < ret && pt_at(buf@, dd, k) == pt_at(cands@, dd, j);
                            assert(dist_sq(pt_at(buf@, dd, k), q) <= rsq);
                            assert(scan_hits(starts@, buf@, dd, l, ret as int, q, rsq));
                        }
                    }
                }
            }
            ret
        }
    }
}


/// The expected leaf multiset: inputs then padding, as mathematical points.
pub open spec fn padded_of(inputs: Seq<Seq<int>>, dims: int, n2: int) -> Seq<Seq<int>> {
    Seq::new(n2 as nat, |i: int| if i < inputs.len() {
        inputs[i]
    } else {
        pad_pt(dims)
    })
}

/// An affordance tree: a k-d partition whose leaves carry affordance lists,
/// answering radius-collision queries for squared radii within a declared
/// range.  All query operations borrow the tree immutably; nothing a caller
/// can reach mutates it after construction.
pub struct AffordanceTree {
    dims: usize,
    n2: usize,
    height: usize,
    rsq_min: u128,
    rsq_max: u128,
    tests: Vec<i32>,
    aff_starts: Vec<usize>,
    points: Vec<i32>,
    inputs: Ghost<Seq<Seq<int>>>,
    leafs: Ghost<Seq<Seq<int>>>,
}

impl AffordanceTree {
    /// The dimension of the space.
    pub closed spec fn dims_spec(&self) -> int {
        self.dims as int
    }

    /// The number of leaves.
    pub closed spec fn num_leaves(&self) -> int {
        self.n2 as int
    }

    /// The declared smallest legal squared radius.
    pub closed spec fn rsq_min_spec(&self) -> int {
        self.rsq_min as int
    }

    /// The declared largest legal squared radius.
    pub closed spec fn rsq_max_spec(&self) -> int {
        self.rsq_max as int
    }

    /// The indexed input points, as mathematical points.
    pub closed spec fn inputs_spec(&self) -> Seq<Seq<int>> {
        self.inputs@
    }

    /// The number of points in the affordance buffer.
    pub closed spec fn total_aff(&self) -> int {
        self.aff_starts@[self.n2 as int] as int
    }

    /// Point `k` of the affordance buffer.
    pub closed spec fn buf_pt(&self, k: int) -> Seq<int> {
        pt_at(self.points@, self.dims as int, k)
    }

    /// Start of leaf `l`'s affordance region.
    pub closed spec fn aff_start(&self, l: int) -> int {
        self.aff_starts@[l] as int
    }

    /// The leaf the descent assigns to this query center.
    pub closed spec fn descent_of(&self, needle: Seq<int>) -> int {
        descent_leaf(self.tests@, self.dims as int, needle, self.height as int)
    }

    /// Does the scan of the affordance region of `center`'s leaf find a
    /// point within squared radius `rsq`?  This is exactly what `collides`
    /// computes.
    pub closed spec fn collides_spec(&self, center: Seq<int>, rsq: int) -> bool {
        let l = self.descent_of(center);
        exists|k: int|
            self.aff_start(l) <= k < self.aff_start(l + 1) && dist_sq(
                #[trigger] self.buf_pt(k),
                center,
            ) <= rsq
    }

    /// Soundness of the affordance regions, for trees declared with smallest
    /// legal squared radius zero: for every leaf, every representable query
    /// center whose descent comparisons lead to that leaf, and every indexed
    /// point within a legal squared radius of the center (strictly within
    /// the declared maximum), the leaf's scan finds some point within that
    /// radius.
    pub closed spec fn sound(&self) -> bool {
        forall|l: int, q: Seq<int>, p: Seq<int>, rsq: int|
            #![trigger scan_hits(self.aff_starts@, self.points@, self.dims as int, l, self.total_aff(), q, rsq), dist_sq(p, q)]
            self.rsq_min == 0 && 0 <= l < self.n2 && q.len() == self.dims && p.len() == self.dims
                && (forall|c: int|
                0 <= c < self.dims ==> -0x8000_0000 <= #[trigger] q[c] < PAD_COORD as int)
                && q_reaches(self.tests@, self.dims as int, self.height as int, 0, l, q)
                && in_inputs(self.inputs@, p) && dist_sq(p, q) <= rsq && dist_sq(p, q)
                < self.rsq_max && rsq <= self.rsq_max ==> scan_hits(
                self.aff_starts@,
                self.points@,
                self.dims as int,
                l,
                self.total_aff(),
                q,
                rsq,
            )
    }

    /// Structural well-formedness: array lengths agree, region bounds are
    /// monotone, every leaf's stored point respects every split on its path,
    /// a padding leaf's region is empty, any other region starts with the
    /// leaf's own point, and every buffered point is an indexed input point.
    pub closed spec fn wf(&self) -> bool {
        &&& 1 <= self.dims <= MAX_DIMS
        &&& self.height <= 31
        &&& self.n2 == pow2i(self.height as int)
        &&& self.rsq_min <= self.rsq_max
        &&& self.tests@.len() == self.n2 - 1
        &&& self.aff_starts@.len() == self.n2 + 1
        &&& self.aff_starts@[0] == 0
        &&& self.leafs@.len() == self.n2 as nat
        &&& self.points@.len() == self.total_aff() * self.dims
        &&& forall|l: int|
            0 <= l < self.n2 ==> #[trigger] self.aff_starts@[l] <= self.aff_starts@[l + 1]
        &&& forall|l: int|
            0 <= l < self.n2 ==> path_ok(
                self.tests@,
                self.dims as int,
                self.height as int,
                0,
                l,
                #[trigger] self.leafs@[l],
            )
        &&& forall|l: int| 0 <= l < self.n2 ==> (#[trigger] self.leafs@[l]).len() == self.dims
        &&& forall|l: int|
            0 <= l < self.n2 && is_pad(#[trigger] self.leafs@[l]) ==> self.aff_start(l)
                == self.aff_start(l + 1)
        &&& forall|l: int|
            0 <= l < self.n2 && !is_pad(#[trigger] self.leafs@[l]) ==> self.aff_start(l)
                < self.aff_start(l + 1) && self.buf_pt(self.aff_start(l)) == self.leafs@[l]
        &&& forall|k: int|
            0 <= k < self.total_aff() ==> in_inputs(self.inputs@, #[trigger] self.buf_pt(k))
        &&& forall|t: int| 0 <= t < self.inputs@.len() ==> (#[trigger] self.inputs@[t]).len() == self.dims
        &&& forall|t: int, c: int|
            0 <= t < self.inputs@.len() && 0 <= c < self.dims ==> #[trigger] self.inputs@[t][c]
                < PAD_COORD as int
        &&& Seq::new(self.n2 as nat, |l: int| self.leafs@[l]).to_multiset() == padded_of(
            self.inputs@,
            self.dims as int,
            self.n2 as int,
        ).to_multiset()
        &&& forall|l: int|
            0 <= l < self.n2 ==> #[trigger] region_filtered(
                self.tests@,
                self.aff_starts@,
                self.points@,
                self.leafs@[l],
                self.dims as int,
                self.height as int,
                l,
                self.total_aff(),
                self.rsq_min as int,
                self.rsq_max as int,
            )
        &&& self.sound()
    }

    /// Region starts are monotone over any span of leaves.
    proof fn lemma_starts_chain(&self, a: int, b: int)
        requires
            self.wf(),
            0 <= a <= b <= self.n2,
        ensures
            self.aff_starts@[a] <= self.aff_starts@[b],
        decreases b - a,
    {
        if a < b {
            self.lemma_starts_chain(a + 1, b);
        }
    }

    /// Construct an affordance tree over `points` for queries whose squared
    /// radii lie in `rsq_range`.  The indexed point set of the tree is
    /// exactly the input set.  At least one point is required: the dimension
    /// of the space is read from the first point, and a tree of padding
    /// alone has no point for any query to name.
    ///
    /// When `rsq_range.0 == 0`, the tree's collision queries are complete as
    /// well as sound (see `collides`); for a positive minimum only soundness
    /// is guaranteed.
    #[verifier::rlimit(100)]
    pub fn new(points: &Vec<Vec<i32>>, rsq_range: (u128, u128), rng: &mut rand_chacha::ChaCha20Rng) -> (r:
        AffordanceTree)
        requires
            1 <= points.len() <= MAX_POINTS,
            1 <= points@[0].len() <= MAX_DIMS,
            forall|i: int| 0 <= i < points.len() ==> #[trigger] points@[i].len() == points@[0].len(),
            forall|i: int, c: int|
                0 <= i < points.len() && 0 <= c < points@[0].len() ==> #[trigger] points@[i]@[c]
                    < PAD_COORD,
            rsq_range.0 <= rsq_range.1,
        ensures
            r.wf(),
            r.dims_spec() == points@[0].len(),
            r.rsq_min_spec() == rsq_range.0,
            r.rsq_max_spec() == rsq_range.1,
            r.inputs_spec() == input_seq(points@),
            points.len() <= r.num_leaves() < 2 * points.len(),
    {
        let dims = points[0].len();
        let (n2, height) = pow2_ceil(points.len());
        let ghost dd = dims as int;
        let ghost hh = height as int;
        let ghost inputs = input_seq(points@);
        let mut w = padded_points(points, dims, n2);
        let ghost w0 = w@;
        let mut tests: Vec<i32> = vec![0i32; n2 - 1];
        let mut starts: Vec<usize> = Vec::new();
        let mut buf: Vec<i32> = Vec::new();
        let cands = padded_points(points, dims, points.len());
        let ghost cands0 = cands@;
        let cands_n = points.len();
        let vol = Volume::root(dims);
        proof {
            lemma_pow2i_pos(hh);
            assert(0int % pow2i(hh) == 0) by {
                vstd::arithmetic::div_mod::lemma_small_mod(0nat, pow2i(hh) as nat);
            }
            assert(node_of(0, 0, hh) == 0) by {
                assert(pow2i(0) == 1);
                vstd::arithmetic::div_mod::lemma_basic_div(0, pow2i(hh));
            }
            assert forall|j: int| 0 <= j < cands_n implies in_inputs(
                inputs,
                #[trigger] pt_at(cands@, dd, j),
            ) by {
                assert(pt_at(cands@, dd, j) == iseq(points@[j]@));
                assert(inputs[j] == iseq(points@[j]@));
            }
            assert forall|l: int| 0 <= l < n2 implies is_pad(#[trigger] pt_at(w0, dd, l))
                || in_inputs(inputs, pt_at(w0, dd, l)) by {
                if l < points.len() {
                    assert(pt_at(w0, dd, l) == iseq(points@[l]@));
                    assert(inputs[l] == iseq(points@[l]@));
                } else {
                    assert(pt_at(w0, dd, l) == pad_pt(dd));
                }
            }
            assert forall|ti: int| 0 <= ti < inputs.len() implies (#[trigger] inputs[ti]).len()
                == dims by {
                assert(inputs[ti] == iseq(points@[ti]@));
                assert(points@[ti].len() == points@[0].len());
                assert(points@[ti]@.len() == dims);
            }
            assert forall|ti: int, c: int|
                0 <= ti < inputs.len() && 0 <= c < dims implies #[trigger] inputs[ti][c]
                    < PAD_COORD as int by {
                assert(inputs[ti] == iseq(points@[ti]@));
                assert(points@[ti].len() == points@[0].len());
                assert(points@[ti]@.len() == dims);
                assert(iseq(points@[ti]@)[c] == points@[ti]@[c] as int);
            }
            assert forall|l: int| 0 <= l < n2 implies in_box(
                vol.lo(),
                vol.hi(),
                #[trigger] pt_at(w0, dd, l),
            ) by {
                assert forall|a: int| 0 <= a < dd implies vol.lo()[a] <= #[trigger] pt_at(
                    w0,
                    dd,
                    l,
                )[a] <= vol.hi()[a] by {
                    assert(pt_at(w0, dd, l)[a] == w0[l * dd + a] as int);
                    assert(vol.lo()[a] == -(COORD_INF as int));
                    assert(vol.hi()[a] == COORD_INF as int);
                }
            }
            assert(!is_pad(pt_at(w0, dd, 0))) by {
                assert(pt_at(w0, dd, 0) == iseq(points@[0]@));
                assert(points@[0]@.len() == dims);
                assert(iseq(points@[0]@)[0] == points@[0]@[0] as int);
                assert(pt_at(w0, dd, 0)[0] < PAD_COORD as int);
            }
            assert forall|a: int| 0 <= a < dd implies #[trigger] vol.lo()[a] == cell_lo_upto(
                tests@,
                dd,
                hh,
                0,
                a,
                0,
            ) && vol.hi()[a] == cell_hi_upto(tests@, dd, hh, 0, a, 0) by {
            }
        }
        let total = build_aff(
            &mut w,
            &mut tests,
            &mut starts,
            &mut buf,
            0,
            cands,
            cands_n,
            vol,
            dims,
            height,
            0,
            0,
            n2,
            0,
            rsq_range.0,
            rsq_range.1,
            Ghost(inputs),
            rng,
        );
        let ghost starts_b = starts@;
        starts.push(total);
        let ghost leafs = Seq::new(n2 as nat, |l: int| pt_at(w@, dd, l));
        let r = AffordanceTree {
            dims,
            n2,
            height,
            rsq_min: rsq_range.0,
            rsq_max: rsq_range.1,
            tests,
            aff_starts: starts,
            points: buf,
            inputs: Ghost(inputs),
            leafs: Ghost(leafs),
        };
        proof {
            let rr = r;
            let total_i = total as int;
            assert forall|l: int| 0 <= l < n2 implies #[trigger] rr.aff_starts@[l]
                <= rr.aff_starts@[l + 1] && (is_pad(rr.leafs@[l]) ==> rr.aff_start(l)
                == rr.aff_start(l + 1)) && (!is_pad(rr.leafs@[l]) ==> rr.aff_start(l)
                < rr.aff_start(l + 1) && rr.buf_pt(rr.aff_start(l)) == rr.leafs@[l]) by {
                assert(aff_region_ok(starts_b, buf@, w@, inputs, dd, l, total_i));
                assert(rr.aff_starts@[l] == starts_b[l]);
                assert(region_end(starts_b, l, total_i) == rr.aff_starts@[l + 1] as int);
            }
            assert forall|k: int| 0 <= k < total_i implies in_inputs(
                inputs,
                #[trigger] rr.buf_pt(k),
            ) by {
                lemma_find_region(rr.aff_starts@, n2 as int, k);
                let l = choose|l: int|
                    0 <= l < n2 && #[trigger] rr.aff_starts@[l] <= k < rr.aff_starts@[l + 1];
                assert(aff_region_ok(starts_b, buf@, w@, inputs, dd, l, total_i));
                assert(region_end(starts_b, l, total_i) == rr.aff_starts@[l + 1] as int);
            }
            assert(Seq::new(n2 as nat, |l: int| rr.leafs@[l]) =~~= slice_pts(w@, dd, 0, n2 as int));
            assert(padded_of(inputs, dd, n2 as int) =~~= slice_pts(w0, dd, 0, n2 as int));
            assert(rr.points@.len() == rr.total_aff() * rr.dims);
            assert forall|l: int| 0 <= l < n2 implies path_ok(
                rr.tests@,
                dd,
                hh,
                0,
                l,
                #[trigger] rr.leafs@[l],
            ) by {
                assert(rr.leafs@[l] == pt_at(w@, dd, l));
            }
            assert forall|l: int| 0 <= l < n2 implies (#[trigger] rr.leafs@[l]).len() == dims by {
                assert(rr.leafs@[l] == pt_at(w@, dd, l));
            }
            assert forall|t: int| 0 <= t < rr.inputs@.len() implies (#[trigger] rr.inputs@[t]).len()
                == dims by {
                assert(inputs[t].len() == dims);
            }
            assert forall|t: int, c: int|
                0 <= t < rr.inputs@.len() && 0 <= c < dims implies #[trigger] rr.inputs@[t][c]
                    < PAD_COORD as int by {
                assert(inputs[t][c] < PAD_COORD as int);
            }
            lemma_regions_after_push(
                tests@,
                starts_b,
                rr.aff_starts@,
                buf@,
                w@,
                dd,
                hh,
                n2 as int,
                total as int,
                rsq_range.0 as int,
                rsq_range.1 as int,
            );
            assert forall|l: int| 0 <= l < n2 implies #[trigger] region_filtered(
                rr.tests@,
                rr.aff_starts@,
                rr.points@,
                rr.leafs@[l],
                dd,
                hh,
                l,
                rr.total_aff(),
                rr.rsq_min as int,
                rr.rsq_max as int,
            ) by {
                assert(region_filtered(
                    tests@,
                    rr.aff_starts@,
                    buf@,
                    pt_at(w@, dd, l),
                    dd,
                    hh,
                    l,
                    total as int,
                    rsq_range.0 as int,
                    rsq_range.1 as int,
                ));
                assert(rr.leafs@[l] == pt_at(w@, dd, l));
                assert(rr.total_aff() == total);
            }
            assert forall|t2: int| 0 <= t2 < inputs.len() implies has_pt(
                cands0,
                dd,
                cands_n as int,
                #[trigger] inputs[t2],
            ) by {
                assert(pt_at(cands0, dd, t2) == iseq(points@[t2]@));
                assert(inputs[t2] == iseq(points@[t2]@));
            }
            lemma_sound_lift(
                tests@,
                starts_b,
                rr.aff_starts@,
                buf@,
                cands0,
                cands_n as int,
                inputs,
                vol.lo(),
                vol.hi(),
                dd,
                hh,
                n2 as int,
                total as int,
                rsq_range.0 as int,
                rsq_range.1 as int,
            );
            assert forall|l: int, q: Seq<int>, p: Seq<int>, rsq: int|
                #![trigger scan_hits(rr.aff_starts@, rr.points@, rr.dims as int, l, rr.total_aff(), q, rsq), dist_sq(p, q)]
                rr.rsq_min == 0 && 0 <= l < rr.n2 && q.len() == rr.dims && p.len() == rr.dims && (
                forall|c: int|
                    0 <= c < rr.dims ==> -0x8000_0000 <= #[trigger] q[c] < PAD_COORD as int)
                    && q_reaches(rr.tests@, rr.dims as int, rr.height as int, 0, l, q) && in_inputs(
                    rr.inputs@,
                    p,
                ) && dist_sq(p, q) <= rsq && dist_sq(p, q) < rr.rsq_max && rsq <= rr.rsq_max
                implies scan_hits(
                rr.aff_starts@,
                rr.points@,
                rr.dims as int,
                l,
                rr.total_aff(),
                q,
                rsq,
            ) by {
                assert(rr.total_aff() == total);
                assert(scan_hits(rr.aff_starts@, buf@, dd, l, total as int, q, rsq));
            }
            assert(rr.sound());
            assert(rr.wf());
        }
        r
    }

    /// Does any indexed point lie within squared radius `r_squared` of
    /// `center`?  Descends the test array to `center`'s leaf and scans that
    /// leaf's affordance region.  The squared radius must lie in the range
    /// declared at construction.
    ///
    /// A positive answer always names a real collision: some indexed input
    /// point lies within the radius.  The converse — an indexed point within
    /// the radius forces a positive answer — is guaranteed here for trees
    /// declared with smallest legal squared radius zero, for points strictly
    /// within the declared maximum.  For a positive declared minimum the
    /// construction's domination filter may prune a point whose every legal
    /// ball is covered from the query's cell only at other radii, so no
    /// completeness is stated.
    pub fn collides(&self, center: &Vec<i32>, r_squared: u128) -> (r: bool)
        requires
            self.wf(),
            center.len() == self.dims_spec(),
            self.rsq_min_spec() <= r_squared <= self.rsq_max_spec(),
            forall|c: int| 0 <= c < center.len() ==> #[trigger] center@[c] < PAD_COORD,
        ensures
            r == self.collides_spec(iseq(center@), r_squared as int),
            r ==> exists|i: int|
                0 <= i < self.inputs_spec().len() && dist_sq(
                    #[trigger] self.inputs_spec()[i],
                    iseq(center@),
                ) <= r_squared as int,
            (self.rsq_min_spec() == 0 && exists|i: int|
                0 <= i < self.inputs_spec().len() && #[trigger] dist_sq(
                    self.inputs_spec()[i],
                    iseq(center@),
                ) <= r_squared as int && dist_sq(self.inputs_spec()[i], iseq(center@))
                < self.rsq_max_spec()) ==> r,
    {
        proof {
            lemma_pow2i_pos(self.height as int);
        }
        let leaf = descend(&self.tests, self.dims, self.height, center);
        let s = self.aff_starts[leaf];
        let e = self.aff_starts[leaf + 1];
        let ghost dd = self.dims as int;
        let ghost ll = leaf as int;
        proof {
            self.lemma_starts_chain(ll + 1, self.n2 as int);
            assert(e <= self.total_aff());
        }
        let mut k = s;
        while k < e
            invariant
                self.wf(),
                center.len() == self.dims_spec(),
                dd == self.dims as int,
                0 <= ll < self.n2,
                ll == self.descent_of(iseq(center@)),
                s == self.aff_starts@[ll],
                e == self.aff_starts@[ll + 1],
                s <= k <= e,
                e <= self.total_aff(),
                forall|t: int|
                    s <= t < k ==> dist_sq(#[trigger] self.buf_pt(t), iseq(center@))
                        > r_squared as int,
            decreases e - k,
        {
            proof {
                lemma_mul_inequality(k as int + 1, self.total_aff(), dd);
                lemma_mul_nonnegative(k as int, dd);
                lemma_mul_is_distributive_add_other_way(dd, k as int, 1);
                assert(self.points.len() == self.points@.len());
            }
            let d = dist_sq_flat(&self.points, k * self.dims, center, 0, self.dims);
            proof {
                assert(ipt(self.points@, k as int * dd, dd) == self.buf_pt(k as int));
                assert(ipt(center@, 0, dd) =~= iseq(center@));
            }
            if d <= r_squared {
                proof {
                    assert(dist_sq(self.buf_pt(k as int), iseq(center@)) <= r_squared as int);
                    assert(ll == self.descent_of(iseq(center@)));
                    assert(self.aff_start(ll) <= k as int && (k as int) < self.aff_start(ll + 1)
                        && dist_sq(self.buf_pt(k as int), iseq(center@)) <= r_squared as int);
                    assert(self.collides_spec(iseq(center@), r_squared as int));
                    self.lemma_collides_sound(iseq(center@), r_squared as int);
                }
                return true;
            }
            k = k + 1;
        }
        proof {
            if self.collides_spec(iseq(center@), r_squared as int) {
                let t = choose|t: int|
                    self.aff_start(ll) <= t < self.aff_start(ll + 1) && dist_sq(
                        #[trigger] self.buf_pt(t),
                        iseq(center@),
                    ) <= r_squared as int;
                assert(false);
            }
            if self.rsq_min_spec() == 0 && exists|i: int|
                0 <= i < self.inputs_spec().len() && #[trigger] dist_sq(
                    self.inputs_spec()[i],
                    iseq(center@),
                ) <= r_squared as int && dist_sq(self.inputs_spec()[i], iseq(center@))
                < self.rsq_max_spec() {
                let i = choose|i: int|
                    0 <= i < self.inputs_spec().len() && #[trigger] dist_sq(
                        self.inputs_spec()[i],
                        iseq(center@),
                    ) <= r_squared as int && dist_sq(self.inputs_spec()[i], iseq(center@))
                        < self.rsq_max_spec();
                self.lemma_collides_complete(iseq(center@), i, r_squared as int);
                assert(false);
            }
        }
        false
    }

    /// Does any of a batch of spheres collide with an indexed point?
    /// `centers` holds one array per coordinate (lane-major layout) and
    /// `radii_squared` one legal squared radius per lane; the answer is the
    /// disjunction of the per-lane scalar queries.
    pub fn collides_simd(&self, centers: &Vec<Vec<i32>>, radii_squared: &Vec<u128>) -> (r: bool)
        requires
            self.wf(),
            centers.len() == self.dims_spec(),
            forall|d: int| 0 <= d < centers.len() ==> #[trigger] centers@[d].len() == radii_squared.len(),
            forall|i: int|
                0 <= i < radii_squared.len() ==> self.rsq_min_spec() <= #[trigger] radii_squared@[i]
                    <= self.rsq_max_spec(),
            forall|d: int, i: int|
                0 <= d < centers.len() && 0 <= i < radii_squared.len() ==> #[trigger] centers@[d]@[i]
                    < PAD_COORD,
        ensures
            r == exists|i: int|
                0 <= i < radii_squared.len() && #[trigger] self.collides_spec(
                    crate::pkdt::lane(centers@, i),
                    radii_squared@[i] as int,
                ),
    {
        let lanes = radii_squared.len();
        let mut i: usize = 0;
        while i < lanes
            invariant
                i <= lanes,
                self.wf(),
                centers.len() == self.dims_spec(),
                lanes == radii_squared.len(),
                forall|d: int|
                    0 <= d < centers.len() ==> #[trigger] centers@[d].len() == radii_squared.len(),
                forall|t: int|
                    0 <= t < lanes ==> self.rsq_min_spec() <= #[trigger] radii_squared@[t]
                        <= self.rsq_max_spec(),
                forall|d: int, t: int|
                    0 <= d < centers.len() && 0 <= t < lanes ==> #[trigger] centers@[d]@[t]
                        < PAD_COORD,
                forall|t: int|
                    0 <= t < i ==> !#[trigger] self.collides_spec(
                        crate::pkdt::lane(centers@, t),
                        radii_squared@[t] as int,
                    ),
            decreases lanes - i,
        {
            let mut center: Vec<i32> = Vec::new();
            let mut d: usize = 0;
            while d < self.dims
                invariant
                    d <= self.dims,
                    self.wf(),
                    i < lanes,
                    centers.len() == self.dims_spec(),
                    lanes == radii_squared.len(),
                    forall|d2: int|
                        0 <= d2 < centers.len() ==> #[trigger] centers@[d2].len()
                            == radii_squared.len(),
                    forall|d2: int, t: int|
                        0 <= d2 < centers.len() && 0 <= t < lanes ==> #[trigger] centers@[d2]@[t]
                            < PAD_COORD,
                    center.len() == d,
                    forall|t: int| 0 <= t < d ==> #[trigger] center@[t] == centers@[t]@[i as int],
                decreases self.dims - d,
            {
                proof {
                    assert(centers@[d as int].len() == radii_squared.len());
                }
                let cd = &centers[d];
                center.push(cd[i]);
                d = d + 1;
            }
            proof {
                assert(iseq(center@) =~= crate::pkdt::lane(centers@, i as int));
            }
            let hit = self.collides(&center, radii_squared[i]);
            if hit {
                return true;
            }
            i = i + 1;
        }
        false
    }

    /// No false positives: whenever the collision scan answers true for a
    /// center, some indexed input point really lies within the query's
    /// squared radius of that center.
    pub proof fn lemma_collides_sound(&self, center: Seq<int>, rsq: int)
        requires
            self.wf(),
            self.collides_spec(center, rsq),
        ensures
            exists|i: int|
                0 <= i < self.inputs_spec().len() && dist_sq(
                    #[trigger] self.inputs_spec()[i],
                    center,
                ) <= rsq,
    {
        let l = self.descent_of(center);
        crate::tree::lemma_descent_leaf_range(
            self.tests@,
            self.dims as int,
            center,
            self.height as int,
        );
        let k = choose|k: int|
            self.aff_start(l) <= k < self.aff_start(l + 1) && dist_sq(
                #[trigger] self.buf_pt(k),
                center,
            ) <= rsq;
        self.lemma_starts_chain(l + 1, self.n2 as int);
        assert(0 <= k < self.total_aff());
        assert(in_inputs(self.inputs@, self.buf_pt(k)));
        let i = choose|i: int| 0 <= i < self.inputs@.len() && self.inputs@[i] == self.buf_pt(k);
        assert(dist_sq(self.inputs_spec()[i], center) <= rsq);
    }

    /// Affordance completeness for trees declared with smallest legal
    /// squared radius zero: whenever an indexed point lies within the
    /// query's squared radius, and strictly within the declared maximum, the
    /// collision query answers true.
    pub proof fn lemma_collides_complete(&self, center: Seq<int>, i: int, rsq: int)
        requires
            self.wf(),
            self.rsq_min_spec() == 0,
            center.len() == self.dims_spec(),
            forall|c: int|
                0 <= c < center.len() ==> -0x8000_0000 <= #[trigger] center[c] < PAD_COORD as int,
            0 <= i < self.inputs_spec().len(),
            dist_sq(self.inputs_spec()[i], center) <= rsq,
            dist_sq(self.inputs_spec()[i], center) < self.rsq_max_spec(),
            rsq <= self.rsq_max_spec(),
        ensures
            self.collides_spec(center, rsq),
    {
        let dd = self.dims as int;
        let hh = self.height as int;
        let l = self.descent_of(center);
        crate::tree::lemma_descent_leaf_range(self.tests@, dd, center, hh);
        assert forall|e: int| 0 <= e < hh implies (side_of(l, e, hh) == 0 <==> center[e % dd]
            < #[trigger] self.tests@[node_of(l, e, hh)] as int) by {
            crate::tree::lemma_descent_side(self.tests@, dd, center, hh, e);
        }
        assert(q_reaches(self.tests@, dd, hh, 0, l, center));
        let p = self.inputs@[i];
        assert(in_inputs(self.inputs@, p));
        assert(p.len() == self.dims);
        assert(scan_hits(self.aff_starts@, self.points@, dd, l, self.total_aff(), center, rsq));
        let k = choose|k: int|
            self.aff_starts@[l] <= k < region_end(self.aff_starts@, l, self.total_aff())
                && dist_sq(#[trigger] pt_at(self.points@, dd, k), center) <= rsq;
        assert(region_end(self.aff_starts@, l, self.total_aff()) == self.aff_start(l + 1));
        assert(self.aff_start(l) <= k && k < self.aff_start(l + 1) && dist_sq(
            self.buf_pt(k),
            center,
        ) <= rsq);
        assert(self.collides_spec(center, rsq));
    }

    /// The exact number of bytes held by this structure: a fixed header plus
    /// four bytes per test, one machine word per region boundary, and four
    /// bytes per affordance-buffer coordinate.
    pub fn memory_used(&self) -> (r: u128)
        requires
            self.wf(),
        ensures
            r == AFF_HEADER_BYTES + (self.num_leaves() - 1) * 4 + (self.num_leaves() + 1) * 8
                + self.total_aff() * self.dims_spec() * 4,
    {
        proof {
            assert(self.tests.len() == self.tests@.len());
            assert(self.aff_starts.len() == self.aff_starts@.len());
            assert(self.points.len() == self.points@.len());
        }
        AFF_HEADER_BYTES + (self.tests.len() as u128) * 4 + (self.aff_starts.len() as u128) * 8
            + (self.points.len() as u128) * 4
    }

    /// The average affordance-region length: buffered points per leaf,
    /// rounded down.
    pub fn affordance_size(&self) -> (r: usize)
        requires
            self.wf(),
        ensures
            r == self.total_aff() / self.num_leaves(),
    {
        self.aff_starts[self.n2] / self.n2
    }
}

/// The fixed per-instance cost of an affordance tree: the struct itself
/// (three machine words of shape, two 16-byte radii, three vector headers).
pub const AFF_HEADER_BYTES: u128 = 128;

/// Batched collision agreement: the batched query's contract is the
/// disjunction over lanes of the scalar query's contract, so a lane whose
/// center equals a scalar center answers exactly as the scalar query.
pub proof fn lemma_simd_lane_agrees(
    t: &AffordanceTree,
    centers: Seq<Vec<i32>>,
    i: int,
    center: Seq<i32>,
    rsq: int,
)
    requires
        crate::pkdt::lane(centers, i) == iseq(center),
    ensures
        t.collides_spec(crate::pkdt::lane(centers, i), rsq) == t.collides_spec(iseq(center), rsq),
{
}

/// The per-element leaf filter facts of the lower half survive the upper
/// half's build: its regions, buffers, blocks and path slots are untouched.
proof fn lemma_regions_carry(
    tests2: Seq<i32>,
    tests3: Seq<i32>,
    starts2: Seq<usize>,
    starts3: Seq<usize>,
    buf2: Seq<i32>,
    buf3: Seq<i32>,
    w2: Seq<i32>,
    w3: Seq<i32>,
    inputs: Seq<Seq<int>>,
    dims: int,
    h: int,
    lop: int,
    midp: int,
    hip: int,
    count1: int,
    count2: int,
    rmin: int,
    rmax: int,
)
    requires
        1 <= dims,
        0 <= lop <= midp < hip,
        starts2.len() == midp,
        starts3.len() == hip,
        forall|x: int| 0 <= x < midp ==> #[trigger] starts3[x] == starts2[x],
        starts3[midp] as int == count1,
        buf2.len() == count1 * dims,
        forall|x: int| 0 <= x < buf2.len() ==> #[trigger] buf3[x] == buf2[x],
        forall|l: int| lop <= l < midp ==> #[trigger] pt_at(w3, dims, l) == pt_at(w2, dims, l),
        forall|l: int, e: int|
            lop <= l < midp && 0 <= e < h ==> #[trigger] tests3[node_of(l, e, h)] == tests2[node_of(
                l,
                e,
                h,
            )],
        forall|l: int|
            lop <= l < midp ==> #[trigger] region_filtered(
                tests2,
                starts2,
                buf2,
                pt_at(w2, dims, l),
                dims,
                h,
                l,
                count1,
                rmin,
                rmax,
            ),
        forall|l: int| lop <= l < midp ==> #[trigger] aff_region_ok(
            starts2,
            buf2,
            w2,
            inputs,
            dims,
            l,
            count1,
        ),
        forall|l: int|
            midp <= l < hip ==> #[trigger] region_filtered(
                tests3,
                starts3,
                buf3,
                pt_at(w3, dims, l),
                dims,
                h,
                l,
                count2,
                rmin,
                rmax,
            ),
    ensures
        forall|l: int|
            lop <= l < hip ==> #[trigger] region_filtered(
                tests3,
                starts3,
                buf3,
                pt_at(w3, dims, l),
                dims,
                h,
                l,
                count2,
                rmin,
                rmax,
            ),
{
    assert forall|l: int| lop <= l < hip implies #[trigger] region_filtered(
        tests3,
        starts3,
        buf3,
        pt_at(w3, dims, l),
        dims,
        h,
        l,
        count2,
        rmin,
        rmax,
    ) by {
        if l < midp {
            assert(region_filtered(
                tests2,
                starts2,
                buf2,
                pt_at(w2, dims, l),
                dims,
                h,
                l,
                count1,
                rmin,
                rmax,
            ));
            assert(aff_region_ok(starts2, buf2, w2, inputs, dims, l, count1));
            assert(starts3[l] == starts2[l]);
            assert(region_end(starts3, l, count2) == region_end(starts2, l, count1)) by {
                if l + 1 < starts2.len() {
                    assert(starts3[l + 1] == starts2[l + 1]);
                } else {
                    assert(l + 1 == midp);
                    assert(starts3[l + 1] as int == count1);
                }
            }
            assert(cell_lo_seq(tests3, dims, h, l) =~= cell_lo_seq(tests2, dims, h, l)) by {
                assert forall|a: int| 0 <= a < dims implies cell_lo_upto(tests3, dims, h, l, a, h)
                    == #[trigger] cell_lo_upto(tests2, dims, h, l, a, h) by {
                    lemma_cell_stable(tests2, tests3, dims, h, l, a, h);
                }
            }
            assert(cell_hi_seq(tests3, dims, h, l) =~= cell_hi_seq(tests2, dims, h, l)) by {
                assert forall|a: int| 0 <= a < dims implies cell_hi_upto(tests3, dims, h, l, a, h)
                    == #[trigger] cell_hi_upto(tests2, dims, h, l, a, h) by {
                    lemma_cell_stable(tests2, tests3, dims, h, l, a, h);
                }
            }
            assert(pt_at(w3, dims, l) == pt_at(w2, dims, l));
            assert forall|k: int|
                starts3[l] < k < region_end(starts3, l, count2) implies leaf_keep(
                cell_lo_seq(tests3, dims, h, l),
                cell_hi_seq(tests3, dims, h, l),
                pt_at(w3, dims, l),
                #[trigger] pt_at(buf3, dims, k),
                rmin,
                rmax,
            ) by {
                assert(leaf_keep(
                    cell_lo_seq(tests2, dims, h, l),
                    cell_hi_seq(tests2, dims, h, l),
                    pt_at(w2, dims, l),
                    pt_at(buf2, dims, k),
                    rmin,
                    rmax,
                ));
                assert(pt_at(buf3, dims, k) == pt_at(buf2, dims, k)) by {
                    lemma_mul_inequality(k + 1, count1, dims);
                    lemma_mul_nonnegative(k, dims);
                    lemma_mul_is_distributive_add_other_way(dims, k, 1);
                    assert(pt_at(buf3, dims, k) =~= pt_at(buf2, dims, k));
                }
            }
        }
    }
}

/// Appending the final total to the region starts does not change any
/// leaf's region, so the per-element filter facts carry over.
proof fn lemma_regions_after_push(
    tests: Seq<i32>,
    sb: Seq<usize>,
    sa: Seq<usize>,
    buf: Seq<i32>,
    wseq: Seq<i32>,
    dims: int,
    h: int,
    n2: int,
    total: int,
    rmin: int,
    rmax: int,
)
    requires
        sb.len() == n2,
        sa.len() == n2 + 1,
        forall|x: int| 0 <= x < n2 ==> #[trigger] sa[x] == sb[x],
        sa[n2] as int == total,
        forall|l: int|
            0 <= l < n2 ==> #[trigger] region_filtered(
                tests,
                sb,
                buf,
                pt_at(wseq, dims, l),
                dims,
                h,
                l,
                total,
                rmin,
                rmax,
            ),
    ensures
        forall|l: int|
            0 <= l < n2 ==> #[trigger] region_filtered(
                tests,
                sa,
                buf,
                pt_at(wseq, dims, l),
                dims,
                h,
                l,
                total,
                rmin,
                rmax,
            ),
{
    assert forall|l: int| 0 <= l < n2 implies #[trigger] region_filtered(
        tests,
        sa,
        buf,
        pt_at(wseq, dims, l),
        dims,
        h,
        l,
        total,
        rmin,
        rmax,
    ) by {
        assert(region_filtered(tests, sb, buf, pt_at(wseq, dims, l), dims, h, l, total, rmin, rmax));
        assert(sa[l] == sb[l]);
        assert(region_end(sa, l, total) == region_end(sb, l, total)) by {
            if l + 1 < sb.len() {
                assert(sa[l + 1] == sb[l + 1]);
            } else {
                assert(sa[l + 1] as int == total);
            }
        }
        assert forall|k: int|
            sa[l] < k < region_end(sa, l, total) implies leaf_keep(
            cell_lo_seq(tests, dims, h, l),
            cell_hi_seq(tests, dims, h, l),
            pt_at(wseq, dims, l),
            #[trigger] pt_at(buf, dims, k),
            rmin,
            rmax,
        ) by {
            assert(sb[l] < k < region_end(sb, l, total));
        }
    }
}

/// The build's soundness fact, restated over the completed starts array and
/// the indexed input points: appending the final total changes no region,
/// the root volume admits every representable center, and every input point
/// is among the root candidates.
proof fn lemma_sound_lift(
    tests: Seq<i32>,
    sb: Seq<usize>,
    sa: Seq<usize>,
    buf: Seq<i32>,
    cands0: Seq<i32>,
    cands_n: int,
    inputs: Seq<Seq<int>>,
    rootlo: Seq<int>,
    roothi: Seq<int>,
    dims: int,
    h: int,
    n2: int,
    total: int,
    rmin: int,
    rmax: int,
)
    requires
        sb.len() == n2,
        sa.len() == n2 + 1,
        forall|x: int| 0 <= x < n2 ==> #[trigger] sa[x] == sb[x],
        sa[n2] as int == total,
        rootlo.len() == dims,
        roothi.len() == dims,
        forall|a: int| 0 <= a < dims ==> #[trigger] rootlo[a] == -(COORD_INF as int),
        forall|a: int| 0 <= a < dims ==> #[trigger] roothi[a] == COORD_INF as int,
        forall|t: int|
            0 <= t < inputs.len() ==> has_pt(cands0, dims, cands_n, #[trigger] inputs[t]),
        forall|l: int, q: Seq<int>, p: Seq<int>, rsq: int|
            #![trigger scan_hits(sb, buf, dims, l, total, q, rsq), dist_sq(p, q)]
            rmin == 0 && 0 <= l < n2 && q.len() == dims && p.len() == dims && (forall|c: int|
                0 <= c < dims ==> #[trigger] q[c] < PAD_COORD as int) && in_box(rootlo, roothi, q)
                && q_reaches(tests, dims, h, 0, l, q) && has_pt(cands0, dims, cands_n, p)
                && dist_sq(p, q) <= rsq && dist_sq(p, q) < rmax && rsq <= rmax ==> scan_hits(
                sb,
                buf,
                dims,
                l,
                total,
                q,
                rsq,
            ),
    ensures
        forall|l: int, q: Seq<int>, p: Seq<int>, rsq: int|
            #![trigger scan_hits(sa, buf, dims, l, total, q, rsq), dist_sq(p, q)]
            rmin == 0 && 0 <= l < n2 && q.len() == dims && p.len() == dims && (forall|c: int|
                0 <= c < dims ==> -0x8000_0000 <= #[trigger] q[c] < PAD_COORD as int)
                && q_reaches(tests, dims, h, 0, l, q) && in_inputs(inputs, p) && dist_sq(p, q)
                <= rsq && dist_sq(p, q) < rmax && rsq <= rmax ==> scan_hits(
                sa,
                buf,
                dims,
                l,
                total,
                q,
                rsq,
            ),
{
    assert forall|l: int, q: Seq<int>, p: Seq<int>, rsq: int|
        #![trigger scan_hits(sa, buf, dims, l, total, q, rsq), dist_sq(p, q)]
        rmin == 0 && 0 <= l < n2 && q.len() == dims && p.len() == dims && (forall|c: int|
            0 <= c < dims ==> -0x8000_0000 <= #[trigger] q[c] < PAD_COORD as int) && q_reaches(
            tests,
            dims,
            h,
            0,
            l,
            q,
        ) && in_inputs(inputs, p) && dist_sq(p, q) <= rsq && dist_sq(p, q) < rmax && rsq <= rmax
        implies scan_hits(sa, buf, dims, l, total, q, rsq) by {
        assert(in_box(rootlo, roothi, q)) by {
            assert forall|a: int| 0 <= a < dims implies rootlo[a] <= #[trigger] q[a] <= roothi[a] by {
                assert(-0x8000_0000 <= q[a] < PAD_COORD as int);
            }
        }
        let ti = choose|ti: int| 0 <= ti < inputs.len() && inputs[ti] == p;
        assert(has_pt(cands0, dims, cands_n, p));
        assert(scan_hits(sb, buf, dims, l, total, q, rsq));
        let k = choose|k: int|
            sb[l] <= k < region_end(sb, l, total) && dist_sq(#[trigger] pt_at(buf, dims, k), q)
                <= rsq;
        assert(sa[l] == sb[l]);
        assert(region_end(sa, l, total) == region_end(sb, l, total)) by {
            if l + 1 < sb.len() {
                assert(sa[l + 1] == sb[l + 1]);
            } else {
                assert(sa[l + 1] as int == total);
            }
        }
        assert(scan_hits(sa, buf, dims, l, total, q, rsq));
    }
}

/// Every buffered point index below the recorded total falls in the region
/// of some leaf: the regions tile the buffer.
proof fn lemma_find_region(starts: Seq<usize>, b: int, k: int)
    requires
        1 <= b < starts.len(),
        starts[0] == 0,
        0 <= k < starts[b],
    ensures
        exists|l: int| 0 <= l < b && #[trigger] starts[l] <= k < starts[l + 1],
    decreases b,
{
    if starts[b - 1] <= k {
        assert(starts[b - 1] <= k < starts[b]);
    } else {
        lemma_find_region(starts, b - 1, k);
        let l = choose|l: int| 0 <= l < b - 1 && #[trigger] starts[l] <= k < starts[l + 1];
        assert(0 <= l < b && starts[l] <= k < starts[l + 1]);
    }
}

} // verus!
