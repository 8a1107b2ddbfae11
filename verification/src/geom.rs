//! Geometry primitives: exact squared distances between fixed-point points,
//! and axis-aligned volumes with distance-to-box and furthest-corner-of-box
//! measures.
//!
//! Points live in `dims`-dimensional space, `0 < dims < 255`, with `i32`
//! coordinates; `i32::MAX` is the padding sentinel that stands for `+infinity`.
//! Volume bounds are `i64` values in `[-COORD_INF, COORD_INF]`, where
//! `COORD_INF = 2^32` lies strictly outside the coordinate range, so the root
//! volume is unbounded with respect to every representable point.

use vstd::prelude::*;

verus! {

/// Upper bound on the dimension of the space.
pub const MAX_DIMS: usize = 254;

/// Volume bound that stands for `+infinity`: strictly above every `i32`.
pub const COORD_INF: i64 = 0x1_0000_0000;

/// The padding sentinel coordinate; real points must stay strictly below it.
pub const PAD_COORD: i32 = i32::MAX;

/// Mathematical square.
pub open spec fn sq(x: int) -> int {
    x * x
}

/// Mathematical absolute value.
pub open spec fn abs_i(x: int) -> int {
    if x < 0 {
        -x
    } else {
        x
    }
}

/// Mathematical maximum.
pub open spec fn max_i(x: int, y: int) -> int {
    if x < y {
        y
    } else {
        x
    }
}

/// Mathematical minimum.
pub open spec fn min_i(x: int, y: int) -> int {
    if x < y {
        x
    } else {
        y
    }
}

/// Clamp `x` into `[lo, hi]`; if `x < lo` the result is `lo`, if `x > hi` it
/// is `hi`, otherwise `x` itself.
pub open spec fn clamp_s(x: int, lo: int, hi: int) -> int {
    if x < lo {
        lo
    } else if x > hi {
        hi
    } else {
        x
    }
}

/// A whole `i32` vector as a mathematical integer sequence.
pub open spec fn iseq(s: Seq<i32>) -> Seq<int> {
    Seq::new(s.len(), |i: int| s[i] as int)
}

/// A whole `i64` vector as a mathematical integer sequence.
pub open spec fn iseq64(s: Seq<i64>) -> Seq<int> {
    Seq::new(s.len(), |i: int| s[i] as int)
}

/// The point stored at offset `off` of a flat coordinate buffer, as a
/// `dims`-long integer sequence.
pub open spec fn ipt(s: Seq<i32>, off: int, dims: int) -> Seq<int> {
    Seq::new(dims as nat, |c: int| s[off + c] as int)
}

/// Point number `j` of a flat array-of-structures buffer.
pub open spec fn pt_at(s: Seq<i32>, dims: int, j: int) -> Seq<int> {
    ipt(s, j * dims, dims)
}

/// Coordinate `ax` of point `t` in a flat array-of-structures buffer.
pub open spec fn coord_at(s: Seq<i32>, dims: int, t: int, ax: int) -> int {
    s[t * dims + ax] as int
}

/// The points of blocks `lo` up to `hi` of a flat buffer, in order.
pub open spec fn slice_pts(s: Seq<i32>, dims: int, lo: int, hi: int) -> Seq<Seq<int>> {
    Seq::new((hi - lo) as nat, |t: int| pt_at(s, dims, lo + t))
}

/// The padding point: every coordinate is the sentinel.
pub open spec fn pad_pt(dims: int) -> Seq<int> {
    Seq::new(dims as nat, |c: int| PAD_COORD as int)
}

/// Is this point the padding sentinel?
pub open spec fn is_pad(p: Seq<int>) -> bool {
    forall|c: int| 0 <= c < p.len() ==> #[trigger] p[c] == PAD_COORD as int
}

/// Is this a representable (finite) point: every coordinate strictly below
/// the sentinel?
pub open spec fn real_pt(p: Seq<int>) -> bool {
    forall|c: int| 0 <= c < p.len() ==> #[trigger] p[c] < PAD_COORD as int
}

/// A point of the right dimension is the padding sentinel exactly when it
/// equals the padding point.
pub proof fn lemma_pad_eq(p: Seq<int>, dims: int)
    requires
        p.len() == dims,
    ensures
        is_pad(p) <==> p == pad_pt(dims),
{
    if is_pad(p) {
        assert(p =~= pad_pt(dims));
    }
}

/// Squared distance between the first `k` coordinates of `a` and `b`.
pub open spec fn dist_sq_upto(a: Seq<int>, b: Seq<int>, k: int) -> int
    decreases k,
{
    if k <= 0 {
        0
    } else {
        dist_sq_upto(a, b, k - 1) + sq(a[k - 1] - b[k - 1])
    }
}

/// Exact squared Euclidean distance between two points of equal dimension.
pub open spec fn dist_sq(a: Seq<int>, b: Seq<int>) -> int {
    dist_sq_upto(a, b, a.len() as int)
}

/// Does point `q` lie in the closed box `[lo, hi]`?
pub open spec fn in_box(lo: Seq<int>, hi: Seq<int>, q: Seq<int>) -> bool {
    forall|a: int| 0 <= a < lo.len() ==> lo[a] <= #[trigger] q[a] <= hi[a]
}

/// Per-axis clamp of `p` into the box: the closest point of the box to `p`.
pub open spec fn clamp_pt(lo: Seq<int>, hi: Seq<int>, p: Seq<int>) -> Seq<int> {
    Seq::new(lo.len(), |a: int| clamp_s(p[a], lo[a], hi[a]))
}

/// Squared distance from `p` to the closest point of the box; zero inside.
pub open spec fn box_dist_sq(lo: Seq<int>, hi: Seq<int>, p: Seq<int>) -> int {
    dist_sq(clamp_pt(lo, hi, p), p)
}

/// Partial sum of the furthest-corner squared distance.
pub open spec fn far_sq_upto(lo: Seq<int>, hi: Seq<int>, p: Seq<int>, k: int) -> int
    decreases k,
{
    if k <= 0 {
        0
    } else {
        far_sq_upto(lo, hi, p, k - 1) + sq(
            max_i(abs_i(lo[k - 1] - p[k - 1]), abs_i(hi[k - 1] - p[k - 1])),
        )
    }
}

/// Squared distance from `p` to the corner of the box furthest from it.
pub open spec fn box_far_sq(lo: Seq<int>, hi: Seq<int>, p: Seq<int>) -> int {
    far_sq_upto(lo, hi, p, lo.len() as int)
}

proof fn lemma_sq_nonneg(x: int)
    ensures
        sq(x) >= 0,
{
    assert(x * x >= 0) by (nonlinear_arith);
}

proof fn lemma_sq_monotone(x: int, y: int)
    requires
        abs_i(x) <= abs_i(y),
    ensures
        sq(x) <= sq(y),
{
    assert(abs_i(x) * abs_i(x) <= abs_i(y) * abs_i(y)) by (nonlinear_arith)
        requires
            0 <= abs_i(x) <= abs_i(y),
    ;
    assert(abs_i(x) * abs_i(x) == x * x) by (nonlinear_arith);
    assert(abs_i(y) * abs_i(y) == y * y) by (nonlinear_arith);
}

/// Each prefix sum of squared distances is non-negative.
pub proof fn lemma_dist_sq_upto_nonneg(a: Seq<int>, b: Seq<int>, k: int)
    ensures
        dist_sq_upto(a, b, k) >= 0,
    decreases k,
{
    if k > 0 {
        lemma_dist_sq_upto_nonneg(a, b, k - 1);
        lemma_sq_nonneg(a[k - 1] - b[k - 1]);
    }
}

/// Squared distance is symmetric.
pub proof fn lemma_dist_sq_upto_sym(a: Seq<int>, b: Seq<int>, k: int)
    ensures
        dist_sq_upto(a, b, k) == dist_sq_upto(b, a, k),
    decreases k,
{
    if k > 0 {
        lemma_dist_sq_upto_sym(a, b, k - 1);
        assert(sq(a[k - 1] - b[k - 1]) == sq(b[k - 1] - a[k - 1])) by (nonlinear_arith);
    }
}

/// If `q` lies in the box, the box is at least as close to `p` as `q` is:
/// the clamp of `p` realises the minimum distance over the box, axis by axis.
pub proof fn lemma_box_dist_le(lo: Seq<int>, hi: Seq<int>, p: Seq<int>, q: Seq<int>, k: int)
    requires
        lo.len() == hi.len() == p.len() == q.len(),
        in_box(lo, hi, q),
        k <= lo.len(),
    ensures
        dist_sq_upto(clamp_pt(lo, hi, p), p, k) <= dist_sq_upto(q, p, k),
    decreases k,
{
    if k > 0 {
        lemma_box_dist_le(lo, hi, p, q, k - 1);
        let c = clamp_s(p[k - 1], lo[k - 1], hi[k - 1]);
        assert(abs_i(c - p[k - 1]) <= abs_i(q[k - 1] - p[k - 1]));
        lemma_sq_monotone(c - p[k - 1], q[k - 1] - p[k - 1]);
    }
}

/// If `q` lies in the box, no point of the box is further from `p` than the
/// furthest corner.
pub proof fn lemma_box_far_ge(lo: Seq<int>, hi: Seq<int>, p: Seq<int>, q: Seq<int>, k: int)
    requires
        lo.len() == hi.len() == p.len() == q.len(),
        in_box(lo, hi, q),
        k <= lo.len(),
    ensures
        dist_sq_upto(q, p, k) <= far_sq_upto(lo, hi, p, k),
    decreases k,
{
    if k > 0 {
        lemma_box_far_ge(lo, hi, p, q, k - 1);
        let m = max_i(abs_i(lo[k - 1] - p[k - 1]), abs_i(hi[k - 1] - p[k - 1]));
        assert(abs_i(q[k - 1] - p[k - 1]) <= m);
        lemma_sq_monotone(q[k - 1] - p[k - 1], m);
    }
}

/// Projection onto the box is short: for `q` inside the box, the clamp of `p`
/// is at least as close to `q` as `p` itself is.
pub proof fn lemma_clamp_lipschitz(lo: Seq<int>, hi: Seq<int>, p: Seq<int>, q: Seq<int>, k: int)
    requires
        lo.len() == hi.len() == p.len() == q.len(),
        in_box(lo, hi, q),
        k <= lo.len(),
    ensures
        dist_sq_upto(clamp_pt(lo, hi, p), q, k) <= dist_sq_upto(p, q, k),
    decreases k,
{
    if k > 0 {
        lemma_clamp_lipschitz(lo, hi, p, q, k - 1);
        let c = clamp_s(p[k - 1], lo[k - 1], hi[k - 1]);
        assert(abs_i(c - q[k - 1]) <= abs_i(p[k - 1] - q[k - 1]));
        lemma_sq_monotone(c - q[k - 1], p[k - 1] - q[k - 1]);
    }
}

/// A box whose furthest corner from `p` is at distance zero is the single
/// point `p` itself.
pub proof fn lemma_far_zero_degenerate(lo: Seq<int>, hi: Seq<int>, p: Seq<int>, k: int)
    requires
        lo.len() == hi.len() == p.len(),
        k <= lo.len(),
        far_sq_upto(lo, hi, p, k) <= 0,
    ensures
        forall|a: int| 0 <= a < k ==> #[trigger] lo[a] == p[a],
        forall|a: int| 0 <= a < k ==> #[trigger] hi[a] == p[a],
    decreases k,
{
    if k > 0 {
        let m = max_i(abs_i(lo[k - 1] - p[k - 1]), abs_i(hi[k - 1] - p[k - 1]));
        lemma_sq_nonneg(m);
        lemma_dist_far_nonneg(lo, hi, p, k - 1);
        assert(sq(m) <= 0);
        assert(m * m <= 0 ==> m == 0) by (nonlinear_arith);
        assert(m == 0);
        assert(abs_i(lo[k - 1] - p[k - 1]) == 0);
        assert(abs_i(hi[k - 1] - p[k - 1]) == 0);
        lemma_far_zero_degenerate(lo, hi, p, k - 1);
        assert(lo[k - 1] == p[k - 1]);
        assert(hi[k - 1] == p[k - 1]);
    }
}

/// Furthest-corner prefix sums are non-negative.
pub proof fn lemma_dist_far_nonneg(lo: Seq<int>, hi: Seq<int>, p: Seq<int>, k: int)
    ensures
        far_sq_upto(lo, hi, p, k) >= 0,
    decreases k,
{
    if k > 0 {
        lemma_dist_far_nonneg(lo, hi, p, k - 1);
        lemma_sq_nonneg(max_i(abs_i(lo[k - 1] - p[k - 1]), abs_i(hi[k - 1] - p[k - 1])));
    }
}

/// Exact squared distance between point `off_a..off_a+dims` of flat buffer
/// `a` and point `off_b..off_b+dims` of flat buffer `b`.
pub(crate) fn dist_sq_flat(a: &Vec<i32>, off_a: usize, b: &Vec<i32>, off_b: usize, dims: usize) -> (r:
    u128)
    requires
        dims <= MAX_DIMS,
        off_a + dims <= a.len(),
        off_b + dims <= b.len(),
    ensures
        r == dist_sq(ipt(a@, off_a as int, dims as int), ipt(b@, off_b as int, dims as int)),
{
    let ghost pa = ipt(a@, off_a as int, dims as int);
    let ghost pb = ipt(b@, off_b as int, dims as int);
    let mut acc: u128 = 0;
    let mut c: usize = 0;
    while c < dims
        invariant
            c <= dims,
            dims <= MAX_DIMS,
            off_a + dims <= a.len(),
            off_b + dims <= b.len(),
            pa == ipt(a@, off_a as int, dims as int),
            pb == ipt(b@, off_b as int, dims as int),
            acc == dist_sq_upto(pa, pb, c as int),
            acc <= c * 0x1_0000_0000_0000_0000u128,
        decreases dims - c,
    {
        let xa: i64 = a[off_a + c] as i64;
        let xb: i64 = b[off_b + c] as i64;
        let d: i64 = xa - xb;
        let m: u64 = if d < 0 {
            (-d) as u64
        } else {
            d as u64
        };
        proof {
            assert(m < 0x1_0000_0000u64);
            assert((m as int) * (m as int) < 0x1_0000_0000_0000_0000) by (nonlinear_arith)
                requires
                    0 <= m < 0x1_0000_0000u64,
            ;
            assert((m as int) * (m as int) == (d as int) * (d as int)) by (nonlinear_arith)
                requires
                    m as int == abs_i(d as int),
            ;
            assert(pa[c as int] == a@[off_a + c] as int);
            assert(pb[c as int] == b@[off_b + c] as int);
        }
        let term: u128 = (m as u128) * (m as u128);
        acc = acc + term;
        c = c + 1;
    }
    proof {
        assert(acc == dist_sq_upto(pa, pb, dims as int));
    }
    acc
}

/// Exact squared distance between leaf `id` of a transposed
/// (structure-of-arrays) buffer with `n2` leaves and the point `q`.
pub(crate) fn dist_sq_transposed(pts: &Vec<i32>, n2: usize, id: usize, q: &Vec<i32>, dims: usize) -> (r:
    u128)
    requires
        0 < dims <= MAX_DIMS,
        id < n2,
        pts.len() == n2 * dims,
        q.len() == dims,
    ensures
        r == dist_sq(transposed_pt(pts@, n2 as int, id as int, dims as int), iseq(q@)),
{
    let ghost pa = transposed_pt(pts@, n2 as int, id as int, dims as int);
    let ghost qb = iseq(q@);
    let mut acc: u128 = 0;
    let mut c: usize = 0;
    while c < dims
        invariant
            c <= dims,
            0 < dims <= MAX_DIMS,
            id < n2,
            pts.len() == n2 * dims,
            q.len() == dims,
            pa == transposed_pt(pts@, n2 as int, id as int, dims as int),
            qb == iseq(q@),
            acc == dist_sq_upto(pa, qb, c as int),
            acc <= c * 0x1_0000_0000_0000_0000u128,
        decreases dims - c,
    {
        proof {
            assert(c * n2 + id < dims * n2) by (nonlinear_arith)
                requires
                    c < dims,
                    id < n2,
                    n2 >= 1,
            ;
            assert(dims * n2 == n2 * dims) by (nonlinear_arith);
        }
        let xa: i64 = pts[c * n2 + id] as i64;
        let xb: i64 = q[c] as i64;
        let d: i64 = xa - xb;
        let m: u64 = if d < 0 {
            (-d) as u64
        } else {
            d as u64
        };
        proof {
            assert(m < 0x1_0000_0000u64);
            assert((m as int) * (m as int) < 0x1_0000_0000_0000_0000) by (nonlinear_arith)
                requires
                    0 <= m < 0x1_0000_0000u64,
            ;
            assert((m as int) * (m as int) == (d as int) * (d as int)) by (nonlinear_arith)
                requires
                    m as int == abs_i(d as int),
            ;
            assert(pa[c as int] == pts@[c * n2 + id] as int);
            assert(qb[c as int] == q@[c as int] as int);
        }
        let term: u128 = (m as u128) * (m as u128);
        acc = acc + term;
        c = c + 1;
    }
    acc
}

/// A point is at distance zero from itself.
pub proof fn lemma_dist_self(a: Seq<int>, k: int)
    ensures
        dist_sq_upto(a, a, k) == 0,
    decreases k,
{
    if k > 0 {
        lemma_dist_self(a, k - 1);
    }
}

/// Two points at squared distance zero agree on every coordinate.
pub proof fn lemma_dist_zero(a: Seq<int>, b: Seq<int>, k: int)
    requires
        dist_sq_upto(a, b, k) <= 0,
    ensures
        forall|c: int| 0 <= c < k ==> #[trigger] a[c] == b[c],
    decreases k,
{
    if k > 0 {
        lemma_dist_sq_upto_nonneg(a, b, k - 1);
        lemma_sq_nonneg(a[k - 1] - b[k - 1]);
        assert(sq(a[k - 1] - b[k - 1]) <= 0);
        assert((a[k - 1] - b[k - 1]) * (a[k - 1] - b[k - 1]) <= 0 ==> a[k - 1] - b[k - 1] == 0)
            by (nonlinear_arith);
        lemma_dist_zero(a, b, k - 1);
    }
}

/// Copy point `j` of a flat buffer into its own vector.
pub(crate) fn copy_point(buf: &Vec<i32>, dims: usize, j: usize) -> (r: Vec<i32>)
    requires
        1 <= dims,
        (j + 1) * dims <= buf.len(),
    ensures
        iseq(r@) == pt_at(buf@, dims as int, j as int),
        r.len() == dims,
{
    proof {
        vstd::arithmetic::mul::lemma_mul_nonnegative(j as int, dims as int);
        vstd::arithmetic::mul::lemma_mul_is_distributive_add_other_way(dims as int, j as int, 1);
    }
    let base = j * dims;
    let mut out: Vec<i32> = Vec::new();
    let mut c: usize = 0;
    while c < dims
        invariant
            c <= dims,
            base == j * dims,
            base + dims <= buf.len(),
            out.len() == c,
            forall|t: int| 0 <= t < c ==> #[trigger] out@[t] == buf@[base + t],
        decreases dims - c,
    {
        out.push(buf[base + c]);
        c = c + 1;
    }
    proof {
        assert(iseq(out@) =~= pt_at(buf@, dims as int, j as int));
    }
    out
}

/// Exact squared distance between an `i32` point and an `i64` point whose
/// coordinates lie within the volume-bound range.
pub(crate) fn dist_sq_i64(a: &Vec<i32>, b: &Vec<i64>) -> (r: u128)
    requires
        a.len() == b.len() <= MAX_DIMS,
        forall|c: int| 0 <= c < b.len() ==> -(COORD_INF as int) <= #[trigger] b@[c] <= COORD_INF as int,
    ensures
        r == dist_sq(iseq(a@), iseq64(b@)),
{
    let ghost pa = iseq(a@);
    let ghost pb = iseq64(b@);
    let dims = a.len();
    let mut acc: u128 = 0;
    let mut c: usize = 0;
    while c < dims
        invariant
            c <= dims,
            dims == a.len() == b.len(),
            dims <= MAX_DIMS,
            forall|t: int|
                0 <= t < b.len() ==> -(COORD_INF as int) <= #[trigger] b@[t] <= COORD_INF as int,
            pa == iseq(a@),
            pb == iseq64(b@),
            acc == dist_sq_upto(pa, pb, c as int),
            acc <= c * 0x40_0000_0000_0000_0000u128,
        decreases dims - c,
    {
        let xa: i64 = a[c] as i64;
        let xb: i64 = b[c];
        let d: i64 = xa - xb;
        let m: u64 = if d < 0 {
            (-d) as u64
        } else {
            d as u64
        };
        proof {
            assert(m <= 0x3_0000_0000u64);
            assert((m as int) * (m as int) <= 0x40_0000_0000_0000_0000) by (nonlinear_arith)
                requires
                    0 <= m <= 0x3_0000_0000u64,
            ;
            assert((m as int) * (m as int) == (d as int) * (d as int)) by (nonlinear_arith)
                requires
                    m as int == abs_i(d as int),
            ;
            assert(pa[c as int] == a@[c as int] as int);
            assert(pb[c as int] == b@[c as int] as int);
        }
        let term: u128 = (m as u128) * (m as u128);
        acc = acc + term;
        c = c + 1;
    }
    acc
}

/// Does a flat buffer of `n` point blocks contain the point `p`?
pub open spec fn has_pt(buf: Seq<i32>, dims: int, n: int, p: Seq<int>) -> bool {
    exists|j: int| 0 <= j < n && pt_at(buf, dims, j) == p
}

/// Coordinate `c` of leaf `id` in a transposed buffer sits at `c * n2 + id`.
pub open spec fn transposed_pt(s: Seq<i32>, n2: int, id: int, dims: int) -> Seq<int> {
    Seq::new(dims as nat, |c: int| s[c * n2 + id] as int)
}

/// A prismatic (axis-aligned) bounding volume.
///
/// Bounds are `i64` so that `-COORD_INF` and `COORD_INF` can stand for the
/// unbounded sides of the root volume: they lie strictly outside the `i32`
/// coordinate range.
pub struct Volume {
    lower: Vec<i64>,
    upper: Vec<i64>,
}

impl Volume {
    /// The lower bounds, as mathematical integers.
    pub closed spec fn lo(&self) -> Seq<int> {
        iseq64(self.lower@)
    }

    /// The upper bounds, as mathematical integers.
    pub closed spec fn hi(&self) -> Seq<int> {
        iseq64(self.upper@)
    }

    /// The dimension of the space the volume lives in.
    pub open spec fn dims(&self) -> int {
        self.lo().len() as int
    }

    /// Well-formed: both bound vectors have the same length and every bound
    /// lies in `[-COORD_INF, COORD_INF]`.
    pub open spec fn wf(&self) -> bool {
        &&& self.lo().len() == self.hi().len()
        &&& forall|a: int|
            0 <= a < self.dims() ==> -(COORD_INF as int) <= #[trigger] self.lo()[a]
                <= COORD_INF as int
        &&& forall|a: int|
            0 <= a < self.dims() ==> -(COORD_INF as int) <= #[trigger] self.hi()[a]
                <= COORD_INF as int
    }

    /// The volume of the whole space: every axis runs from `-COORD_INF` to
    /// `COORD_INF`, strictly enclosing every representable point.
    pub fn root(dims: usize) -> (v: Volume)
        requires
            0 < dims <= MAX_DIMS,
        ensures
            v.wf(),
            v.dims() == dims,
            forall|a: int| 0 <= a < dims ==> #[trigger] v.lo()[a] == -(COORD_INF as int),
            forall|a: int| 0 <= a < dims ==> #[trigger] v.hi()[a] == COORD_INF as int,
    {
        let mut lower: Vec<i64> = Vec::new();
        let mut upper: Vec<i64> = Vec::new();
        let mut a: usize = 0;
        while a < dims
            invariant
                a <= dims,
                lower@.len() == a,
                upper@.len() == a,
                forall|i: int| 0 <= i < a ==> #[trigger] lower@[i] == -COORD_INF,
                forall|i: int| 0 <= i < a ==> #[trigger] upper@[i] == COORD_INF,
            decreases dims - a,
        {
            lower.push(-COORD_INF);
            upper.push(COORD_INF);
            a = a + 1;
        }
        Volume { lower, upper }
    }

    /// Squared distance from `point` to the closest point of the volume;
    /// zero when `point` lies inside.
    pub fn distsq_to(&self, point: &Vec<i32>) -> (r: u128)
        requires
            self.wf(),
            0 < point.len() == self.dims() <= MAX_DIMS,
        ensures
            r == box_dist_sq(self.lo(), self.hi(), iseq(point@)),
    {
        let ghost lo = self.lo();
        let ghost hi = self.hi();
        let ghost p = iseq(point@);
        let dims = self.lower.len();
        let mut acc: u128 = 0;
        let mut a: usize = 0;
        while a < dims
            invariant
                a <= dims,
                dims == self.lower.len() == self.upper.len() == point.len(),
                dims <= MAX_DIMS,
                self.wf(),
                lo == self.lo(),
                hi == self.hi(),
                p == iseq(point@),
                acc == dist_sq_upto(clamp_pt(lo, hi, p), p, a as int),
                acc <= a * 0x40_0000_0000_0000_0000u128,
            decreases dims - a,
        {
            let x: i64 = point[a] as i64;
            let l: i64 = self.lower[a];
            let u: i64 = self.upper[a];
            proof {
                assert(self.lo()[a as int] == self.lower@[a as int] as int);
                assert(self.hi()[a as int] == self.upper@[a as int] as int);
            }
            let c: i64 = if x < l {
                l
            } else if x > u {
                u
            } else {
                x
            };
            let d: i64 = c - x;
            let m: u64 = if d < 0 {
                (-d) as u64
            } else {
                d as u64
            };
            proof {
                assert(c as int == clamp_s(p[a as int], lo[a as int], hi[a as int]));
                assert(m <= 0x3_0000_0000u64);
                assert((m as int) * (m as int) <= 0x40_0000_0000_0000_0000) by (nonlinear_arith)
                    requires
                        0 <= m <= 0x3_0000_0000u64,
                ;
                assert((m as int) * (m as int) == (d as int) * (d as int)) by (nonlinear_arith)
                    requires
                        m as int == abs_i(d as int),
                ;
                assert(clamp_pt(lo, hi, p)[a as int] == c as int);
            }
            let term: u128 = (m as u128) * (m as u128);
            acc = acc + term;
            a = a + 1;
        }
        acc
    }

    /// Squared distance from `point` to the corner of the volume furthest
    /// from it.
    pub fn furthest_distsq_to(&self, point: &Vec<i32>) -> (r: u128)
        requires
            self.wf(),
            0 < point.len() == self.dims() <= MAX_DIMS,
        ensures
            r == box_far_sq(self.lo(), self.hi(), iseq(point@)),
    {
        let ghost lo = self.lo();
        let ghost hi = self.hi();
        let ghost p = iseq(point@);
        let dims = self.lower.len();
        let mut acc: u128 = 0;
        let mut a: usize = 0;
        while a < dims
            invariant
                a <= dims,
                dims == self.lower.len() == self.upper.len() == point.len(),
                dims <= MAX_DIMS,
                self.wf(),
                lo == self.lo(),
                hi == self.hi(),
                p == iseq(point@),
                acc == far_sq_upto(lo, hi, p, a as int),
                acc <= a * 0x40_0000_0000_0000_0000u128,
            decreases dims - a,
        {
            let x: i64 = point[a] as i64;
            let l: i64 = self.lower[a];
            let u: i64 = self.upper[a];
            proof {
                assert(self.lo()[a as int] == self.lower@[a as int] as int);
                assert(self.hi()[a as int] == self.upper@[a as int] as int);
            }
            let dl: i64 = if l < x {
                x - l
            } else {
                l - x
            };
            let du: i64 = if u < x {
                x - u
            } else {
                u - x
            };
            let m: i64 = if dl < du {
                du
            } else {
                dl
            };
            proof {
                assert(dl as int == abs_i(lo[a as int] - p[a as int]));
                assert(du as int == abs_i(hi[a as int] - p[a as int]));
                assert(m as int == max_i(abs_i(lo[a as int] - p[a as int]), abs_i(hi[a as int] - p[a as int])));
                assert(0 <= m <= 0x3_0000_0000i64);
                assert((m as int) * (m as int) <= 0x40_0000_0000_0000_0000) by (nonlinear_arith)
                    requires
                        0 <= m <= 0x3_0000_0000i64,
                ;
            }
            let mu: u64 = m as u64;
            let term: u128 = (mu as u128) * (mu as u128);
            acc = acc + term;
            a = a + 1;
        }
        acc
    }

    /// Split the volume at value `test` along axis `dim`: the low child keeps
    /// everything up to the plane, the high child everything from it.
    pub fn split(self, test: i32, dim: usize) -> (r: (Volume, Volume))
        requires
            self.wf(),
            dim < self.dims(),
        ensures
            r.0.wf(),
            r.1.wf(),
            r.0.lo() == self.lo(),
            r.0.hi() == self.hi().update(dim as int, test as int),
            r.1.lo() == self.lo().update(dim as int, test as int),
            r.1.hi() == self.hi(),
    {
        let ghost orig = self;
        let Volume { lower, upper } = self;
        let mut lo_lower = lower;
        let mut lo_upper = upper;
        let hi_lower_src = &lo_lower;
        let mut hi_lower: Vec<i64> = Vec::new();
        let mut a: usize = 0;
        let n = lo_lower.len();
        while a < n
            invariant
                a <= n,
                n == lo_lower.len(),
                hi_lower@.len() == a,
                forall|i: int| 0 <= i < a ==> #[trigger] hi_lower@[i] == lo_lower@[i],
            decreases n - a,
        {
            hi_lower.push(lo_lower[a]);
            a = a + 1;
        }
        let mut hi_upper: Vec<i64> = Vec::new();
        let mut b: usize = 0;
        let m = lo_upper.len();
        while b < m
            invariant
                b <= m,
                m == lo_upper.len(),
                hi_upper@.len() == b,
                forall|i: int| 0 <= i < b ==> #[trigger] hi_upper@[i] == lo_upper@[i],
            decreases m - b,
        {
            hi_upper.push(lo_upper[b]);
            b = b + 1;
        }
        lo_upper[dim] = test as i64;
        hi_lower[dim] = test as i64;
        let left = Volume { lower: lo_lower, upper: lo_upper };
        let right = Volume { lower: hi_lower, upper: hi_upper };
        proof {
            assert(left.lo() =~= orig.lo());
            assert(left.hi() =~= orig.hi().update(dim as int, test as int));
            assert(right.lo() =~= orig.lo().update(dim as int, test as int));
            assert(right.hi() =~= orig.hi());
        }
        (left, right)
    }

    /// The closest point of the volume to `query`: the per-axis clamp of
    /// `query` into the bounds.
    pub fn closest_point(&self, query: &Vec<i32>) -> (r: Vec<i64>)
        requires
            self.wf(),
            query.len() == self.dims(),
        ensures
            iseq64(r@) == clamp_pt(self.lo(), self.hi(), iseq(query@)),
    {
        let dims = self.lower.len();
        let mut out: Vec<i64> = Vec::new();
        let mut a: usize = 0;
        while a < dims
            invariant
                a <= dims,
                dims == self.lower.len() == self.upper.len() == query.len(),
                out@.len() == a,
                forall|i: int|
                    0 <= i < a ==> #[trigger] out@[i] as int == clamp_s(
                        query@[i] as int,
                        self.lo()[i],
                        self.hi()[i],
                    ),
            decreases dims - a,
        {
            let x: i64 = query[a] as i64;
            let l: i64 = self.lower[a];
            let u: i64 = self.upper[a];
            let c: i64 = if x < l {
                l
            } else if x > u {
                u
            } else {
                x
            };
            out.push(c);
            a = a + 1;
        }
        proof {
            assert(iseq64(out@) =~= clamp_pt(self.lo(), self.hi(), iseq(query@)));
        }
        out
    }
}

} // verus!
