//! B-spline curves: construction, evaluation by de Boor's algorithm, knot
//! insertion and removal, clamping, cutting, joining and degree elevation.

use vstd::prelude::*;
use crate::knot_vec::{KnotVec, KNOT_LIMIT, knots_ok, sorted, inverted, clamped, count, insert_pos};
use crate::point::{
    ControlPoint, Point2, RATIO_LIMIT, ratio_ok, POINT_LIMIT, abs_diff, lemma_lerp_between,
    lemma_undo_front, lemma_undo_rear, lemma_lerp_close,
};

verus! {

/// The ways in which building or editing a curve can fail.
#[derive(Clone, Copy, Debug, PartialEq, Eq, Structural)]
pub enum Error {
    /// No control points were given.
    EmptyControlPoints,
    /// The knot vector (first length) is not longer than the control points
    /// (second length).
    TooShortKnotVector(usize, usize),
    /// The first and the last knot coincide.
    ZeroRange,
    /// The knot at this index cannot be removed without changing the curve.
    CannotRemoveKnot(usize),
}

/// Why two curves could not be joined.
#[derive(Clone, Copy, Debug, PartialEq, Eq)]
pub enum ConcatError<P> {
    /// The back of the first knot vector and the front of the second differ.
    DisconnectedParameters(i64, i64),
    /// The end point of the first curve and the start point of the second differ.
    DisconnectedPoints(P, P),
}

/// Whether a knot vector and `n` control points make a B-spline curve.
pub open spec fn valid_parts(knots: Seq<i64>, n: nat) -> bool {
    &&& n > 0
    &&& knots.len() > n
    &&& knots_ok(knots)
    &&& knots[0] < knots.last()
}

fn reversed<P: Copy>(v: &Vec<P>) -> (r: Vec<P>)
    ensures
        r@ == v@.reverse(),
{
    let n = v.len();
    let mut r: Vec<P> = Vec::new();
    let mut i: usize = 0;
    while i < n
        invariant
            n == v@.len(),
            i <= n,
            r@ =~= v@.reverse().subrange(0, i as int),
        decreases n - i,
    {
        r.push(v[n - 1 - i]);
        i += 1;
    }
    assert(r@ =~= v@.reverse());
    r
}

/// `p + (q - p) * num / den`, where a vanishing denominator makes the ratio zero.
pub open spec fn blend<P: ControlPoint>(p: P, q: P, num: int, den: int) -> P {
    if den == 0 {
        p.spec_lerp(q, 0, 1)
    } else {
        p.spec_lerp(q, num, den)
    }
}

fn blend_exec<P: ControlPoint>(p: &P, q: &P, num: i64, den: i64) -> (r: P)
    requires
        0 <= den <= RATIO_LIMIT,
        -RATIO_LIMIT <= num <= RATIO_LIMIT,
    ensures
        r == blend(*p, *q, num as int, den as int),
{
    if den == 0 {
        p.lerp(q, 0, 1)
    } else {
        p.lerp(q, num, den)
    }
}

/// The control point before index `i`, the origin standing before the first.
pub open spec fn prev_point<P: ControlPoint>(pts: Seq<P>, i: int) -> P {
    if i == 0 {
        P::spec_origin()
    } else {
        pts[i - 1]
    }
}

/// The index at which a knot `x` goes into the non-decreasing `s`.
pub open spec fn knot_insert_index(s: Seq<i64>, x: i64) -> int {
    choose|i: int| insert_pos(s, x, i)
}

proof fn lemma_insert_index(s: Seq<i64>, x: i64, idx: int)
    requires
        insert_pos(s, x, idx),
    ensures
        knot_insert_index(s, x) == idx,
{
    let j = knot_insert_index(s, x);
    assert(insert_pos(s, x, j));
    if j < idx {
        assert(s[j] <= x);
    } else if j > idx {
        assert(s[idx] <= x);
    }
}

/// The control points of Boehm's knot insertion: the knot was put at `idx`
/// of `kn`, a curve of degree `k` had the points `pts`.
pub open spec fn inserted_points<P: ControlPoint>(
    pts: Seq<P>,
    kn: Seq<i64>,
    k: int,
    idx: int,
) -> Seq<P> {
    let n = pts.len() as int;
    let ext = if idx > n {
        pts.push(P::spec_origin())
    } else {
        pts.insert(idx - 1, pts[idx - 1])
    };
    let start = if idx > k {
        idx - k
    } else {
        0
    };
    let end = if idx > n {
        n + 1
    } else {
        idx
    };
    Seq::new(
        ext.len(),
        |i: int|
            if start <= i < end {
                blend(prev_point(ext, i), ext[i], kn[idx] - kn[i], kn[i + k + 1] - kn[i])
            } else {
                ext[i]
            },
    )
}

/// The knots and control points after adding the knot `x`. Below the range
/// the knot vector is extended and the origin becomes the first control point.
pub open spec fn add_knot_parts<P: ControlPoint>(knots: Seq<i64>, pts: Seq<P>, x: i64) -> (
    Seq<i64>,
    Seq<P>,
) {
    if x < knots[0] {
        (knots.insert(0, x), pts.insert(0, P::spec_origin()))
    } else {
        let idx = knot_insert_index(knots, x);
        let kn = knots.insert(idx, x);
        (kn, inserted_points(pts, kn, knots.len() - pts.len() - 1, idx))
    }
}

/// The points that knot removal computes from the front: the point before
/// the support of the knot at `idx`, then one point for each of the first
/// `m` knot spans, until a span gives a vanishing ratio.
pub open spec fn removal_chain<P: ControlPoint>(
    pts: Seq<P>,
    knots: Seq<i64>,
    k: int,
    idx: int,
    m: nat,
) -> Seq<P>
    decreases m,
{
    if m == 0 {
        seq![pts[idx - k - 1]]
    } else {
        let c = removal_chain(pts, knots, k, idx, (m - 1) as nat);
        let i = idx - k + m - 1;
        let num = knots[idx] - knots[i];
        let den = knots[i + k + 1] - knots[i];
        if c.len() < m || num == 0 || den == 0 {
            c
        } else {
            c.push(c.last().spec_lerp(pts[i], den, num))
        }
    }
}

/// The points that knot removal computes from the back: the point at `idx`,
/// which stands for the last point of the support, then one point for each
/// of the last `m` knot spans, going down, until a span gives a vanishing
/// complementary ratio.
pub open spec fn removal_chain_back<P: ControlPoint>(
    pts: Seq<P>,
    knots: Seq<i64>,
    k: int,
    idx: int,
    m: nat,
) -> Seq<P>
    decreases m,
{
    if m == 0 {
        seq![pts[idx]]
    } else {
        let c = removal_chain_back(pts, knots, k, idx, (m - 1) as nat);
        let i = idx - m;
        let num = knots[idx] - knots[i];
        let den = knots[i + k + 1] - knots[i];
        if c.len() < m || den - num == 0 || den == 0 {
            c
        } else {
            c.push(c.last().spec_lerp(pts[i], den, den - num))
        }
    }
}

/// How many of the knot spans under the knot at `idx`, from the front and
/// starting at span `m`, have a ratio of at least one half: those are
/// computed from the front, the others from the back, so that no step
/// magnifies by more than two where the ratios fall along the support.
pub open spec fn front_steps(knots: Seq<i64>, k: int, idx: int, m: int) -> int
    decreases k - m,
{
    if m >= k {
        k
    } else if 2 * (knots[idx] - knots[idx - k + m]) >= knots[idx + m + 1] - knots[idx - k + m] {
        front_steps(knots, k, idx, m + 1)
    } else {
        m
    }
}

/// The outcome of removing the knot at `idx`: the new knots and control
/// points, or `None` where the knot cannot be removed. The points under the
/// knot are computed from both ends; the two computations of the point where
/// they meet must be near.
pub open spec fn remove_knot_parts<P: ControlPoint>(knots: Seq<i64>, pts: Seq<P>, idx: int) -> Option<
    (Seq<i64>, Seq<P>),
> {
    let n = pts.len() as int;
    let k = knots.len() - n - 1;
    if idx < k + 1 || idx >= n {
        None
    } else {
        let l = front_steps(knots, k, idx, 0);
        let c = removal_chain(pts, knots, k, idx, l as nat);
        let b = removal_chain_back(pts, knots, k, idx, (k - l) as nat);
        if !c.last().spec_near(b.last()) {
            None
        } else {
            let written = Seq::new(
                n as nat,
                |j: int|
                    if idx - k <= j < idx - k + c.len() - 1 {
                        c[j - (idx - k) + 1]
                    } else if idx - k + l <= j < idx && idx - 1 - j < b.len() {
                        b[idx - 1 - j]
                    } else {
                        pts[j]
                    },
            );
            Some((knots.remove(idx), written.remove(idx)))
        }
    }
}

proof fn lemma_front_steps(knots: Seq<i64>, k: int, idx: int, m: int)
    requires
        0 <= m <= k,
    ensures
        m <= front_steps(knots, k, idx, m) <= k,
    decreases k - m,
{
    if m < k {
        lemma_front_steps(knots, k, idx, m + 1);
    }
}

proof fn lemma_chain_back_len<P: ControlPoint>(pts: Seq<P>, knots: Seq<i64>, k: int, idx: int, m: nat)
    ensures
        1 <= removal_chain_back(pts, knots, k, idx, m).len() <= m + 1,
    decreases m,
{
    if m > 0 {
        lemma_chain_back_len(pts, knots, k, idx, (m - 1) as nat);
    }
}

proof fn lemma_chain_len<P: ControlPoint>(pts: Seq<P>, knots: Seq<i64>, k: int, idx: int, m: nat)
    ensures
        1 <= removal_chain(pts, knots, k, idx, m).len() <= m + 1,
    decreases m,
{
    if m > 0 {
        lemma_chain_len(pts, knots, k, idx, (m - 1) as nat);
    }
}

/// The knots and control points after adding the knot `x` `m` times.
pub open spec fn add_knot_times<P: ControlPoint>(knots: Seq<i64>, pts: Seq<P>, x: i64, m: nat) -> (
    Seq<i64>,
    Seq<P>,
)
    decreases m,
{
    if m == 0 {
        (knots, pts)
    } else {
        let q = add_knot_times(knots, pts, x, (m - 1) as nat);
        add_knot_parts(q.0, q.1, x)
    }
}

/// How many more knots a run of `s` knots needs to reach `k + 1`.
pub open spec fn missing(s: int, k: int) -> nat {
    if s <= k {
        (k + 1 - s) as nat
    } else {
        0
    }
}

/// The knots and control points after clamping: the first knot is added
/// until it appears `k + 1` times, then the last knot likewise.
pub open spec fn clamp_parts<P: ControlPoint>(knots: Seq<i64>, pts: Seq<P>) -> (Seq<i64>, Seq<P>) {
    let k = knots.len() - pts.len() - 1;
    let a = add_knot_times(knots, pts, knots[0], missing(count(knots, knots[0]) as int, k));
    add_knot_times(a.0, a.1, a.0.last(), missing(count(a.0, a.0.last()) as int, k))
}

/// Whether no knot of the curve can be removed.
pub open spec fn optimal<P: ControlPoint>(knots: Seq<i64>, pts: Seq<P>) -> bool {
    forall|idx: int| 0 <= idx < knots.len() ==> #[trigger] remove_knot_parts(knots, pts, idx) is None
}

/// The two parts of a cut at the interior parameter `t`: `t` is added until it
/// appears `k + 1` times, the knot vector is split around that run, and the
/// control points are split after the first `floor - k`.
pub open spec fn cut_parts<P: ControlPoint>(knots: Seq<i64>, pts: Seq<P>, t: i64) -> (
    (Seq<i64>, Seq<P>),
    (Seq<i64>, Seq<P>),
) {
    let k = knots.len() - pts.len() - 1;
    let q = add_knot_times(knots, pts, t, missing(count(knots, t) as int, k));
    let f = knot_insert_index(q.0, t) - 1;
    (
        (q.0.subrange(0, f + 1), q.1.subrange(0, f - k)),
        (q.0.subrange(f - k, q.0.len() as int), q.1.subrange(f - k, q.1.len() as int)),
    )
}

fn sub_points<P: ControlPoint>(v: &Vec<P>, start: usize, end: usize) -> (r: Vec<P>)
    requires
        start <= end <= v@.len(),
    ensures
        r@ == v@.subrange(start as int, end as int),
{
    let mut r: Vec<P> = Vec::new();
    let mut i = start;
    while i < end
        invariant
            start <= i <= end <= v@.len(),
            r@ =~= v@.subrange(start as int, i as int),
        decreases end - i,
    {
        r.push(v[i]);
        i += 1;
    }
    r
}

/// The control points of a Bezier segment of degree `k` raised by one:
/// point `i` moves toward its predecessor by `i / (k + 1)`.
pub open spec fn elevated_points<P: ControlPoint>(pts: Seq<P>, k: int) -> Seq<P> {
    let ext = pts.push(P::spec_origin());
    Seq::new(
        ext.len(),
        |i: int|
            if i <= k + 1 {
                ext[i].spec_lerp(prev_point(ext, i), i, k + 1)
            } else {
                ext[i]
            },
    )
}

/// The knots of two curves of degree `k` put end to end: the last `k + 1`
/// knots of the first give way to the second's.
pub open spec fn joined_knots(a: Seq<i64>, b: Seq<i64>, k: int) -> Seq<i64> {
    a.subrange(0, a.len() - k - 1) + b
}

/// The control points of the derivative of a curve of degree `k > 0`: the
/// differences of neighbouring points, the origin standing before the first
/// and after the last, scaled by `k` over the knot span.
pub open spec fn derived_points<P: ControlPoint>(pts: Seq<P>, knots: Seq<i64>, k: int) -> Seq<P> {
    let ext = pts.push(P::spec_origin());
    Seq::new(
        ext.len(),
        |i: int|
            {
                let den = knots[i + k] - knots[i];
                if den == 0 {
                    prev_point(ext, i).spec_diff_scaled(ext[i], 0, 1)
                } else {
                    prev_point(ext, i).spec_diff_scaled(ext[i], k, den)
                }
            },
    )
}

/// Largest denominator of a parameter `tn / td` at which a curve is evaluated.
pub const PARAM_DEN_LIMIT: i64 = 262144;

/// The span used to evaluate at `tn / td`: the last index `s` in `lo ..= hi`
/// whose knot is not above the parameter and begins a span of positive
/// length, or `lo`.
pub open spec fn span_of(knots: Seq<i64>, tn: int, td: int, lo: int, hi: int) -> int
    decreases hi - lo,
{
    if hi <= lo {
        lo
    } else if knots[hi] * td <= tn && knots[hi] < knots[hi + 1] {
        hi
    } else {
        span_of(knots, tn, td, lo, hi - 1)
    }
}

/// De Boor's point `d[j]` at level `r` for the parameter `tn / td`, for a
/// curve of degree `k`.
pub open spec fn de_boor<P: ControlPoint>(
    pts: Seq<P>,
    knots: Seq<i64>,
    k: int,
    tn: int,
    td: int,
    r: nat,
    j: int,
) -> P
    decreases r,
{
    if r == 0 {
        pts[j]
    } else {
        blend(
            de_boor(pts, knots, k, tn, td, (r - 1) as nat, j - 1),
            de_boor(pts, knots, k, tn, td, (r - 1) as nat, j),
            tn - knots[j] * td,
            (knots[j + k + 1 - r] - knots[j]) * td,
        )
    }
}

/// The point of the curve at the parameter `tn / td`.
pub open spec fn eval<P: ControlPoint>(knots: Seq<i64>, pts: Seq<P>, tn: int, td: int) -> P {
    let n = pts.len() as int;
    let k = knots.len() - n - 1;
    let s = span_of(knots, tn, td, k, n - 1);
    de_boor(pts, knots, k, tn, td, k as nat, s)
}

/// Whether `tn / td` lies where the curve of these knots and `n` points is
/// evaluated: between the knots at the degree and at `n`.
pub open spec fn in_domain(knots: Seq<i64>, n: int, tn: int, td: int) -> bool {
    let k = knots.len() - n - 1;
    &&& k < n
    &&& 0 < td <= PARAM_DEN_LIMIT
    &&& knots[k] * td <= tn <= knots[n] * td
}

proof fn lemma_span_of(knots: Seq<i64>, tn: int, td: int, k: int, hi: int)
    requires
        0 <= k <= hi,
        hi + 1 < knots.len(),
        sorted(knots),
        td > 0,
        knots[k] * td <= tn <= knots[hi + 1] * td,
    ensures
        k <= span_of(knots, tn, td, k, hi) <= hi,
        knots[span_of(knots, tn, td, k, hi)] * td <= tn <= knots[span_of(knots, tn, td, k, hi)
            + 1] * td,
    decreases hi - k,
{
    if hi > k && !(knots[hi] * td <= tn && knots[hi] < knots[hi + 1]) {
        if knots[hi] * td > tn {
        } else {
            assert(knots[hi] == knots[hi + 1]);
        }
        lemma_span_of(knots, tn, td, k, hi - 1);
    } else if hi == k {
        assert(knots[k] <= knots[hi + 1]);
    }
}

/// The sample parameters of a closeness test: `div` points in each knot span
/// of positive length, as `(knots[i] * div + (knots[i + 1] - knots[i]) * j) / div`.
pub open spec fn sample_num(knots: Seq<i64>, div: int, i: int, j: int) -> int {
    knots[i] * div + (knots[i + 1] - knots[i]) * j
}

/// Whether two curves with the same range agree at every sample parameter,
/// by first-order (`second == false`) or second-order closeness.
pub open spec fn agree_at_samples<P: ControlPoint>(
    k0: Seq<i64>,
    p0: Seq<P>,
    k1: Seq<i64>,
    p1: Seq<P>,
    div: int,
    second: bool,
) -> bool {
    forall|i: int, j: int|
        0 <= i < k0.len() - 1 && k0[i] < k0[i + 1] && 0 <= j < div ==> {
            let a = eval(k0, p0, #[trigger] sample_num(k0, div, i, j), div);
            let b = eval(k1, p1, sample_num(k0, div, i, j), div);
            if second {
                a.spec_near2(b)
            } else {
                a.spec_near(b)
            }
        }
}

/// The parts left after clamping and then cutting `m` times from the back,
/// at the distinct knot values `vals` before the last: the front part and
/// the cut-off parts in the order they came off.
pub open spec fn cut_pieces<P: ControlPoint>(knots: Seq<i64>, pts: Seq<P>, vals: Seq<i64>, m: nat) -> (
    (Seq<i64>, Seq<P>),
    Seq<(Seq<i64>, Seq<P>)>,
)
    decreases m,
{
    if m == 0 {
        (clamp_parts(knots, pts), seq![])
    } else {
        let q = cut_pieces(knots, pts, vals, (m - 1) as nat);
        let c = cut_parts(q.0.0, q.0.1, vals[vals.len() - 1 - m]);
        (c.0, q.1.push(c.1))
    }
}

/// The Bezier segments of a curve, in order: the clamped curve cut at each
/// interior distinct knot value.
pub open spec fn bezier_pieces<P: ControlPoint>(knots: Seq<i64>, pts: Seq<P>) -> Seq<(Seq<i64>, Seq<P>)> {
    let vals = crate::knot_vec::dedup(knots);
    let q = cut_pieces(knots, pts, vals, (vals.len() - 2) as nat);
    seq![q.0] + q.1.reverse()
}

/// The knots and control points of each curve.
pub open spec fn curve_parts<P: ControlPoint>(v: Seq<BSplineCurve<P>>) -> Seq<(Seq<i64>, Seq<P>)> {
    Seq::new(v.len(), |i: int| (v[i].knots(), v[i].points()))
}

/// The degree that a knot vector and control points give.
pub open spec fn parts_degree<P: ControlPoint>(q: (Seq<i64>, Seq<P>)) -> int {
    q.0.len() - q.1.len() - 1
}

/// A clamped Bezier segment raised by one degree.
pub open spec fn elevated_parts<P: ControlPoint>(q: (Seq<i64>, Seq<P>)) -> (Seq<i64>, Seq<P>) {
    (
        q.0.insert(knot_insert_index(q.0, q.0[0]), q.0[0]).push(q.0.last()),
        elevated_points(q.1, parts_degree(q)),
    )
}

/// Two curves of one degree put end to end.
pub open spec fn join_parts<P: ControlPoint>(a: (Seq<i64>, Seq<P>), b: (Seq<i64>, Seq<P>)) -> (
    Seq<i64>,
    Seq<P>,
) {
    (joined_knots(a.0, b.0, parts_degree(a)), a.1 + b.1)
}

/// The first `m` segments, each raised by one degree, put end to end.
pub open spec fn elevate_fold<P: ControlPoint>(pieces: Seq<(Seq<i64>, Seq<P>)>, m: int) -> (
    Seq<i64>,
    Seq<P>,
)
    decreases m,
{
    if m <= 1 {
        elevated_parts(pieces[0])
    } else {
        join_parts(elevate_fold(pieces, m - 1), elevated_parts(pieces[m - 1]))
    }
}

/// The curve raised by one degree, segment by segment.
pub open spec fn elevated_curve<P: ControlPoint>(knots: Seq<i64>, pts: Seq<P>) -> (Seq<i64>, Seq<P>) {
    let ps = bezier_pieces(knots, pts);
    elevate_fold(ps, ps.len() as int)
}

/// The curve raised `m` times by one degree.
pub open spec fn elevated_times<P: ControlPoint>(q: (Seq<i64>, Seq<P>), m: nat) -> (Seq<i64>, Seq<P>)
    decreases m,
{
    if m == 0 {
        q
    } else {
        let e = elevated_times(q, (m - 1) as nat);
        elevated_curve(e.0, e.1)
    }
}

/// How many times a curve of degree `d` is raised to reach degree `to`.
pub open spec fn raise_count(d: int, to: int) -> nat {
    if d < to {
        (to - d) as nat
    } else {
        0
    }
}

/// Whether every control point of a segment is near its first one.
pub open spec fn const_parts<P: ControlPoint>(q: (Seq<i64>, Seq<P>)) -> bool {
    forall|i: int| 0 <= i < q.1.len() ==> #[trigger] q.1[i].spec_near(q.1[0])
}

/// The index of the first segment from `i` on that is not constant, or the
/// number of segments.
pub open spec fn first_nonconst<P: ControlPoint>(ps: Seq<(Seq<i64>, Seq<P>)>, i: int) -> int
    decreases ps.len() - i,
{
    if i >= ps.len() {
        ps.len() as int
    } else if !const_parts(ps[i]) {
        i
    } else {
        first_nonconst(ps, i + 1)
    }
}

/// The curve built from segment `f` and the non-constant segments after it
/// up to `m`, each moved back over the constant segments before it, and the
/// length moved back so far.
pub open spec fn injective_fold<P: ControlPoint>(ps: Seq<(Seq<i64>, Seq<P>)>, f: int, m: int) -> (
    (Seq<i64>, Seq<P>),
    int,
)
    decreases m - f,
{
    if m <= f + 1 {
        (ps[f], 0)
    } else {
        let prev = injective_fold(ps, f, m - 1);
        let q = ps[m - 1];
        if const_parts(q) {
            (prev.0, prev.1 + q.0.last() - q.0[0])
        } else {
            (join_parts(prev.0, (crate::knot_vec::translated(q.0, -prev.1), q.1)), prev.1)
        }
    }
}

/// The knots and control points after removing the knots at `idxs` in turn,
/// each the highest index whose knot can be removed at that point, or `None`
/// where one of them is not.
pub open spec fn removals<P: ControlPoint>(q: (Seq<i64>, Seq<P>), idxs: Seq<int>) -> Option<
    (Seq<i64>, Seq<P>),
>
    decreases idxs.len(),
{
    if idxs.len() == 0 {
        Some(q)
    } else {
        match removals(q, idxs.drop_last()) {
            Some(p) => if forall|j: int|
                idxs.last() < j < p.0.len() ==> #[trigger] remove_knot_parts(p.0, p.1, j) is None {
                remove_knot_parts(p.0, p.1, idxs.last())
            } else {
                None
            },
            None => None,
        }
    }
}

/// The knots and control points after adding the knots `xs` in turn.
pub open spec fn add_knots<P: ControlPoint>(q: (Seq<i64>, Seq<P>), xs: Seq<i64>) -> (Seq<i64>, Seq<P>)
    decreases xs.len(),
{
    if xs.len() == 0 {
        q
    } else {
        let p = add_knots(q, xs.drop_last());
        add_knot_parts(p.0, p.1, xs.last())
    }
}

proof fn lemma_add_knots_push<P: ControlPoint>(q: (Seq<i64>, Seq<P>), xs: Seq<i64>, x: i64)
    ensures
        add_knots(q, xs.push(x)) == ({
            let p = add_knots(q, xs);
            add_knot_parts(p.0, p.1, x)
        }),
{
    assert(xs.push(x).drop_last() =~= xs);
}

/// `front` followed by `tail` in reverse order.
fn front_then_reversed<P: ControlPoint>(front: BSplineCurve<P>, tail: Vec<BSplineCurve<P>>) -> (r: Vec<
    BSplineCurve<P>,
>)
    ensures
        r@ == seq![front] + tail@.reverse(),
{
    let ghost t0 = tail@;
    let mut tail = tail;
    let mut result: Vec<BSplineCurve<P>> = Vec::new();
    result.push(front);
    proof {
        assert(result@ =~= seq![front] + t0.reverse().subrange(0, 0));
        assert(tail@ =~= t0.subrange(0, t0.len() as int));
    }
    while tail.len() > 0
        invariant
            tail@ == t0.subrange(0, tail@.len() as int),
            tail@.len() <= t0.len(),
            result@.len() == 1 + t0.len() - tail@.len(),
            result@ == seq![front] + t0.reverse().subrange(0, t0.len() - tail@.len()),
        decreases tail@.len(),
    {
        let ghost tl = tail@;
        let ghost r0 = result@;
        let piece = tail.pop().unwrap();
        result.push(piece);
        proof {
            assert(piece == t0[tl.len() - 1]);
            assert(tail@ =~= t0.subrange(0, tail@.len() as int));
            assert(result@ =~= seq![front] + t0.reverse().subrange(0, t0.len() - tail@.len()));
        }
    }
    assert(t0.reverse().subrange(0, t0.len() as int) =~= t0.reverse());
    result
}

/// The sorted union of two non-decreasing knot sequences, each value as
/// often as in the sequence that holds it more often.
pub open spec fn merged(a: Seq<i64>, b: Seq<i64>) -> Seq<i64>
    decreases a.len() + b.len(),
{
    if a.len() == 0 {
        b
    } else if b.len() == 0 {
        a
    } else if a[0] == b[0] {
        seq![a[0]] + merged(a.drop_first(), b.drop_first())
    } else if a[0] < b[0] {
        seq![a[0]] + merged(a.drop_first(), b)
    } else {
        seq![b[0]] + merged(a, b.drop_first())
    }
}

proof fn lemma_merged_constant(a: Seq<i64>, b: Seq<i64>, v: i64)
    requires
        forall|j: int| 0 <= j < a.len() ==> #[trigger] a[j] == v,
        forall|j: int| 0 <= j < b.len() ==> #[trigger] b[j] == v,
    ensures
        merged(a, b) =~= Seq::new(if a.len() >= b.len() { a.len() } else { b.len() }, |j: int| v),
    decreases a.len() + b.len(),
{
    if a.len() > 0 && b.len() > 0 {
        lemma_merged_constant(a.drop_first(), b.drop_first(), v);
    }
}

/// A B-spline curve: a knot vector and its control points.
#[derive(Clone, Debug, PartialEq)]
pub struct BSplineCurve<P> {
    knot_vec: KnotVec,
    control_points: Vec<P>,
}

impl<P: ControlPoint> BSplineCurve<P> {
    /// The knots of the curve.
    pub closed spec fn knots(&self) -> Seq<i64> {
        self.knot_vec@
    }

    /// The control points of the curve.
    pub closed spec fn points(&self) -> Seq<P> {
        self.control_points@
    }

    pub open spec fn wf(&self) -> bool {
        valid_parts(self.knots(), self.points().len())
    }

    pub open spec fn spec_degree(&self) -> int {
        self.knots().len() - self.points().len() - 1
    }

    /// Builds a curve from parts that make one.
    pub fn new(knot_vec: KnotVec, control_points: Vec<P>) -> (r: BSplineCurve<P>)
        requires
            knot_vec.wf(),
            valid_parts(knot_vec@, control_points@.len()),
        ensures
            r.wf(),
            r.knots() == knot_vec@,
            r.points() == control_points@,
    {
        BSplineCurve { knot_vec, control_points }
    }

    /// Builds a curve, or says which rule the parts break.
    pub fn try_new(knot_vec: KnotVec, control_points: Vec<P>) -> (r: Result<
        BSplineCurve<P>,
        Error,
    >)
        requires
            knot_vec.wf(),
        ensures
            control_points@.len() == 0 ==> r == Err::<BSplineCurve<P>, Error>(
                Error::EmptyControlPoints,
            ),
            control_points@.len() > 0 && knot_vec@.len() <= control_points@.len() ==> r
                == Err::<BSplineCurve<P>, Error>(
                Error::TooShortKnotVector(knot_vec@.len() as usize, control_points@.len() as usize),
            ),
            control_points@.len() > 0 && knot_vec@.len() > control_points@.len()
                && knot_vec@.last() == knot_vec@[0] ==> r == Err::<BSplineCurve<P>, Error>(
                Error::ZeroRange,
            ),
            r is Ok <==> valid_parts(knot_vec@, control_points@.len()),
            r matches Ok(c) ==> c.wf() && c.knots() == knot_vec@ && c.points()
                == control_points@,
    {
        if control_points.len() == 0 {
            Err(Error::EmptyControlPoints)
        } else if knot_vec.len() <= control_points.len() {
            Err(Error::TooShortKnotVector(knot_vec.len(), control_points.len()))
        } else if knot_vec.range_length() == 0 {
            Err(Error::ZeroRange)
        } else {
            Ok(BSplineCurve::new_unchecked(knot_vec, control_points))
        }
    }

    /// Builds a curve without checking the parts: the caller has made sure
    /// that they make one.
    pub fn new_unchecked(knot_vec: KnotVec, control_points: Vec<P>) -> (r: BSplineCurve<P>)
        requires
            knot_vec.wf(),
            valid_parts(knot_vec@, control_points@.len()),
        ensures
            r.wf(),
            r.knots() == knot_vec@,
            r.points() == control_points@,
    {
        BSplineCurve { knot_vec, control_points }
    }

    /// Builds a curve from parts that make one; the same as `new`.
    pub fn debug_new(knot_vec: KnotVec, control_points: Vec<P>) -> (r: BSplineCurve<P>)
        requires
            knot_vec.wf(),
            valid_parts(knot_vec@, control_points@.len()),
        ensures
            r.wf(),
            r.knots() == knot_vec@,
            r.points() == control_points@,
    {
        BSplineCurve::new(knot_vec, control_points)
    }

    pub fn knot_vec(&self) -> (r: &KnotVec)
        ensures
            r@ == self.knots(),
            r.wf() <== self.wf(),
    {
        &self.knot_vec
    }

    pub fn knot(&self, idx: usize) -> (r: i64)
        requires
            idx < self.knots().len(),
        ensures
            r == self.knots()[idx as int],
    {
        self.knot_vec.get(idx)
    }

    /// The first and the last knot.
    pub fn parameter_range(&self) -> (r: (i64, i64))
        requires
            self.wf(),
        ensures
            r == (self.knots()[0], self.knots().last()),
    {
        (self.knot_vec.get(0), self.knot_vec.get(self.knot_vec.len() - 1))
    }

    pub fn control_points(&self) -> (r: &Vec<P>)
        ensures
            r@ == self.points(),
    {
        &self.control_points
    }

    pub fn control_point(&self, idx: usize) -> (r: &P)
        requires
            idx < self.points().len(),
        ensures
            *r == self.points()[idx as int],
    {
        &self.control_points[idx]
    }

    /// The number of knots minus the number of control points, minus one.
    pub fn degree(&self) -> (r: usize)
        requires
            self.wf(),
        ensures
            r == self.spec_degree(),
    {
        self.knot_vec.len() - self.control_points.len() - 1
    }

    /// Reverses the curve: the knots are reflected in the middle of the range
    /// and the control points are taken in reverse order.
    pub fn invert(&mut self) -> (r: &mut Self)
        requires
            old(self).wf(),
        ensures
            r.wf(),
            r.knots() == inverted(old(self).knots()),
            r.points() == old(self).points().reverse(),
            *final(self) == *final(r),
    {
        self.knot_vec.invert();
        self.control_points = reversed(&self.control_points);
        proof {
            let o = old(self).knots();
            let s = self.knots();
            assert(s[0] == o[0] + o.last() - o.last());
            assert(s.last() == o[0] + o.last() - o[0]);
        }
        self
    }

    /// Whether both ends of the knot vector carry `degree + 1` equal knots.
    pub fn is_clamped(&self) -> (r: bool)
        requires
            self.wf(),
        ensures
            r == clamped(self.knots(), self.spec_degree() as nat),
    {
        self.knot_vec.is_clamped(self.degree())
    }

    /// Whether every control point is near the first one.
    pub fn is_const(&self) -> (r: bool)
        requires
            self.wf(),
        ensures
            r == const_parts((self.knots(), self.points())),
    {
        let n = self.control_points.len();
        let mut i: usize = 0;
        while i < n
            invariant
                n == self.points().len(),
                n > 0,
                i <= n,
                forall|j: int| 0 <= j < i ==> #[trigger] self.points()[j].spec_near(
                    self.points()[0],
                ),
            decreases n - i,
        {
            if !self.control_points[i].near(&self.control_points[0]) {
                proof {
                    let q = (self.knots(), self.points());
                    assert(!q.1[i as int].spec_near(q.1[0]));
                }
                return false;
            }
            i += 1;
        }
        true
    }
    /// Inserts the knot `x` by Boehm's algorithm, which keeps the shape of
    /// the curve in its range. Below the range the knot vector is extended.
    #[verifier::spinoff_prover]
    pub fn add_knot(&mut self, x: i64) -> (r: &mut Self)
        requires
            old(self).wf(),
            -KNOT_LIMIT <= x <= KNOT_LIMIT,
        ensures
            r.wf(),
            (r.knots(), r.points()) == add_knot_parts(
                old(self).knots(),
                old(self).points(),
                x,
            ),
            r.knots().len() == old(self).knots().len() + 1,
            r.points().len() == old(self).points().len() + 1,
            x >= old(self).knots()[0] ==> {
                &&& insert_pos(old(self).knots(), x, knot_insert_index(old(self).knots(), x))
                &&& r.knots() == old(self).knots().insert(
                    knot_insert_index(old(self).knots(), x),
                    x,
                )
            },
            *final(self) == *final(r),
    {
        let ghost ok = old(self).knots();
        let ghost op = old(self).points();
        if x < self.knot_vec.get(0) {
            let idx = self.knot_vec.add_knot(x);
            self.control_points.insert(0, P::origin());
            proof {
                assert(idx == 0) by {
                    if idx > 0 {
                        assert(ok[0] <= x);
                    }
                }
            }
            return self;
        }
        let k = self.degree();
        let n = self.control_points.len();
        let idx = self.knot_vec.add_knot(x);
        let _kl = self.knot_vec.len();
        proof {
            lemma_insert_index(ok, x, idx as int);
            if idx == 0 {
                assert(x < ok[0]);
            }
        }
        let start = if idx > k {
            idx - k
        } else {
            0
        };
        let end = if idx > n {
            self.control_points.push(P::origin());
            n + 1
        } else {
            let p = self.control_points[idx - 1];
            self.control_points.insert(idx - 1, p);
            idx
        };
        let ghost ext = self.control_points@;
        let ghost kn = self.knot_vec@;
        let ghost target = inserted_points(op, kn, k as int, idx as int);
        assert(target.len() == ext.len());
        let mut i = end;
        while i > start
            invariant
                self.knot_vec@ == kn,
                kn.len() == n + k + 2,
                kn.len() <= usize::MAX,
                knots_ok(kn),
                kn[idx as int] == x,
                1 <= idx <= n + k + 1,
                start <= i <= end <= n + 1,
                start == (if idx > k { idx - k } else { 0int }),
                end == (if idx > n { n + 1 } else { idx as int }),
                ext.len() == n + 1,
                op.len() == n,
                target == inserted_points(op, kn, k as int, idx as int),
                ext == (if idx > n { op.push(P::spec_origin()) } else { op.insert(idx - 1, op[idx - 1]) }),
                self.control_points@.len() == ext.len(),
                forall|j: int| 0 <= j < i ==> #[trigger] self.control_points@[j] == ext[j],
                forall|j: int| i <= j < ext.len() ==> #[trigger] self.control_points@[j] == target[j],
            decreases i,
        {
            i -= 1;
            assert(kn[i as int] <= kn[i + k + 1]);
            let num = x - self.knot_vec.get(i);
            let den = self.knot_vec.get(i + k + 1) - self.knot_vec.get(i);
            let p = if i == 0 {
                P::origin()
            } else {
                self.control_points[i - 1]
            };
            let q = self.control_points[i];
            let r = blend_exec(&p, &q, num, den);
            assert(target[i as int] == blend(prev_point(ext, i as int), ext[i as int], kn[idx as int] - kn[i as int], kn[i + k + 1] - kn[i as int]));
            self.control_points.set(i, r);
        }
        proof {
            assert(self.control_points@ =~= target);
            let nk = self.knot_vec@;
            assert(nk[0] == ok[0]);
            if idx == ok.len() {
                assert(nk.last() == x);
                assert(ok[0] < ok.last() <= x);
            } else {
                assert(nk.last() == ok.last());
            }
        }
        self
    }

    /// Removes the knot at `idx` where that does not change the curve beyond
    /// the tolerance, and leaves the curve as it is otherwise.
    #[verifier::spinoff_prover]
    pub fn try_remove_knot(&mut self, idx: usize) -> (r: Result<(), Error>)
        requires
            old(self).wf(),
        ensures
            final(self).wf(),
            final(self).spec_degree() == old(self).spec_degree(),
            match remove_knot_parts(old(self).knots(), old(self).points(), idx as int) {
                Some(parts) => r is Ok && (final(self).knots(), final(self).points()) == parts
                    && final(self).knots().len() == old(self).knots().len() - 1,
                None => r == Err::<(), Error>(Error::CannotRemoveKnot(idx)) && *final(self)
                    == *old(self),
            },
    {
        let ghost ok = old(self).knots();
        let ghost op = old(self).points();
        let k = self.degree();
        let n = self.control_points.len();
        let kl = self.knot_vec.len();
        if idx < k + 1 || idx >= n {
            return Err(Error::CannotRemoveKnot(idx));
        }
        let mut l: usize = 0;
        let mut more = true;
        while l < k && more
            invariant
                self.knot_vec@ == ok,
                knots_ok(ok),
                ok.len() == n + k + 1,
                kl == ok.len(),
                k + 1 <= idx < n,
                l <= k,
                front_steps(ok, k as int, idx as int, 0) == front_steps(
                    ok,
                    k as int,
                    idx as int,
                    l as int,
                ),
                !more ==> front_steps(ok, k as int, idx as int, l as int) == l,
            decreases k - l + if more { 1int } else { 0int },
        {
            let i = idx - k + l;
            assert(ok[i as int] <= ok[idx as int] && ok[i as int] <= ok[idx + l + 1]);
            let num = self.knot_vec.get(idx) - self.knot_vec.get(i);
            let den = self.knot_vec.get(idx + l + 1) - self.knot_vec.get(i);
            if 2 * num >= den {
                l += 1;
            } else {
                more = false;
            }
        }
        let ghost gl = l as int;
        proof {
            assert(front_steps(ok, k as int, idx as int, 0) == gl);
        }
        let mut chain: Vec<P> = Vec::new();
        chain.push(self.control_points[idx - k - 1]);
        let mut m: usize = 0;
        let mut stopped = false;
        while m < l
            invariant
                self.knot_vec@ == ok,
                self.control_points@ == op,
                op.len() == n,
                knots_ok(ok),
                ok.len() == n + k + 1,
                kl == ok.len(),
                k + 1 <= idx < n,
                l <= k,
                m <= l,
                chain@ == removal_chain(op, ok, k as int, idx as int, m as nat),
                stopped <==> chain@.len() < m + 1,
            decreases l - m,
        {
            proof {
                lemma_chain_len(op, ok, k as int, idx as int, m as nat);
            }
            let i = idx - k + m;
            assert(ok[i as int] <= ok[idx as int] && ok[i as int] <= ok[i + k + 1]);
            let num = self.knot_vec.get(idx) - self.knot_vec.get(i);
            let den = self.knot_vec.get(i + k + 1) - self.knot_vec.get(i);
            if !stopped {
                if num == 0 || den == 0 {
                    stopped = true;
                } else {
                    let last = chain[chain.len() - 1];
                    let p = last.lerp(&self.control_points[i], den, num);
                    chain.push(p);
                }
            }
            m += 1;
        }
        let mut back: Vec<P> = Vec::new();
        back.push(self.control_points[idx]);
        let mut m: usize = 0;
        let mut stopped = false;
        while m < k - l
            invariant
                self.knot_vec@ == ok,
                self.control_points@ == op,
                op.len() == n,
                knots_ok(ok),
                ok.len() == n + k + 1,
                kl == ok.len(),
                k + 1 <= idx < n,
                l <= k,
                m <= k - l,
                back@ == removal_chain_back(op, ok, k as int, idx as int, m as nat),
                stopped <==> back@.len() < m + 1,
            decreases k - l - m,
        {
            proof {
                lemma_chain_back_len(op, ok, k as int, idx as int, m as nat);
            }
            let i = idx - 1 - m;
            assert(ok[i as int] <= ok[idx as int] && ok[idx as int] <= ok[i + k + 1]);
            let num = self.knot_vec.get(idx) - self.knot_vec.get(i);
            let den = self.knot_vec.get(i + k + 1) - self.knot_vec.get(i);
            if !stopped {
                if den - num == 0 || den == 0 {
                    stopped = true;
                } else {
                    let last = back[back.len() - 1];
                    let p = last.lerp(&self.control_points[i], den, den - num);
                    back.push(p);
                }
            }
            m += 1;
        }
        proof {
            lemma_chain_len(op, ok, k as int, idx as int, l as nat);
            lemma_chain_back_len(op, ok, k as int, idx as int, (k - l) as nat);
        }
        let c_last = chain[chain.len() - 1];
        let b_last = back[back.len() - 1];
        if !c_last.near(&b_last) {
            return Err(Error::CannotRemoveKnot(idx));
        }
        let ghost c = chain@;
        let ghost b = back@;
        let mut j: usize = 1;
        while j < chain.len()
            invariant
                self.knot_vec@ == ok,
                knots_ok(ok),
                ok.len() == n + k + 1,
                chain@ == c,
                1 <= j <= c.len() <= l + 1,
                l <= k,
                k + 1 <= idx < n,
                self.control_points@.len() == n,
                forall|a: int|
                    0 <= a < n ==> #[trigger] self.control_points@[a] == if idx - k <= a < idx - k
                        + j - 1 {
                        c[a - (idx - k) + 1]
                    } else {
                        op[a]
                    },
            decreases c.len() - j,
        {
            let p = chain[j];
            self.control_points.set(idx - k + j - 1, p);
            j += 1;
        }
        let mut q: usize = 0;
        while q < back.len() && q < k - l
            invariant
                self.knot_vec@ == ok,
                knots_ok(ok),
                ok.len() == n + k + 1,
                chain@ == c,
                back@ == b,
                1 <= c.len() <= l + 1,
                1 <= b.len() <= k - l + 1,
                q <= b.len(),
                q <= k - l,
                l <= k,
                k + 1 <= idx < n,
                self.control_points@.len() == n,
                forall|a: int|
                    0 <= a < n ==> #[trigger] self.control_points@[a] == if idx - k <= a < idx - k
                        + c.len() - 1 {
                        c[a - (idx - k) + 1]
                    } else if idx - q <= a < idx {
                        b[idx - 1 - a]
                    } else {
                        op[a]
                    },
            decreases k - l - q,
        {
            let p = back[q];
            self.control_points.set(idx - 1 - q, p);
            q += 1;
        }
        let ghost written = self.control_points@;
        self.control_points.remove(idx);
        self.knot_vec.remove(idx);
        proof {
            let parts = remove_knot_parts(ok, op, idx as int).unwrap();
            assert(written =~= Seq::new(
                n as nat,
                |a: int|
                    if idx - k <= a < idx - k + c.len() - 1 {
                        c[a - (idx - k) + 1]
                    } else if idx - k + gl <= a < idx && idx - 1 - a < b.len() {
                        b[idx - 1 - a]
                    } else {
                        op[a]
                    },
            ));
            assert(self.control_points@ =~= parts.1);
            let nk = self.knot_vec@;
            assert(nk[0] == ok[0]);
            assert(nk.last() == ok.last());
        }
        Ok(())
    }

    /// Removes the knot at `idx` where `try_remove_knot` can, and does nothing
    /// otherwise.
    pub fn remove_knot(&mut self, idx: usize) -> (r: &mut Self)
        requires
            old(self).wf(),
        ensures
            r.wf(),
            match remove_knot_parts(old(self).knots(), old(self).points(), idx as int) {
                Some(parts) => (r.knots(), r.points()) == parts,
                None => *r == *old(self),
            },
            *final(self) == *final(r),
    {
        let _ = self.try_remove_knot(idx);
        self
    }
    /// Adds the boundary knots until both ends carry `degree + 1` equal knots.
    #[verifier::spinoff_prover]
    pub fn clamp(&mut self) -> (r: &mut Self)
        requires
            old(self).wf(),
        ensures
            r.wf(),
            r.spec_degree() == old(self).spec_degree(),
            clamped(r.knots(), r.spec_degree() as nat),
            r.knots()[0] == old(self).knots()[0],
            r.knots().last() == old(self).knots().last(),
            (r.knots(), r.points()) == clamp_parts(
                old(self).knots(),
                old(self).points(),
            ),
            *final(self) == *final(r),
    {
        let ghost k0 = self.knots();
        let ghost p0 = self.points();
        let degree = self.degree();
        let x0 = self.knot_vec.get(0);
        let f0 = self.knot_vec.floor(x0).unwrap();
        let s = self.knot_vec.multiplicity(0);
        proof {
            crate::knot_vec::lemma_count_run(k0, x0, f0 as int);
            assert forall|j: int| 0 <= j < s implies #[trigger] k0[j] == x0 by {
                assert(k0[0] <= k0[j] <= k0[f0 as int]);
            }
        }
        let mut c = s;
        while c <= degree
            invariant
                self.wf(),
                self.spec_degree() == degree,
                self.knots()[0] == x0,
                self.knots().last() == k0.last(),
                s <= c,
                c <= degree + 1 || c == s,
                c <= self.knots().len(),
                forall|j: int| 0 <= j < c ==> #[trigger] self.knots()[j] == x0,
                (self.knots(), self.points()) == add_knot_times(k0, p0, x0, (c - s) as nat),
            decreases degree + 1 - c,
        {
            let ghost kb = self.knots();
            self.add_knot(x0);
            proof {
                let idx = knot_insert_index(kb, x0);
                assert forall|j: int| 0 <= j < c implies j < idx && #[trigger] kb[j] == x0 by {
                    if j >= idx {
                        assert(x0 < kb[j]);
                    }
                }
                if idx == 0 {
                    assert(x0 < kb[0]);
                }
                if idx == kb.len() {
                    assert(kb[kb.len() - 1] <= x0);
                }
                assert forall|j: int| 0 <= j < c + 1 implies #[trigger] self.knots()[j] == x0 by {
                    if j < idx {
                        assert(self.knots()[j] == kb[j]);
                    }
                }
                assert(self.knots().last() == kb.last());
            }
            let _l = self.knot_vec.len();
            c += 1;
        }
        let ghost a = self.knots();
        let ghost ap = self.points();
        proof {
            assert(s > degree ==> c == s);
            assert((a, ap) == add_knot_times(k0, p0, x0, missing(s as int, degree as int)));
        }
        let n = self.knot_vec.len();
        let x1 = self.knot_vec.get(n - 1);
        let s1 = self.knot_vec.multiplicity(n - 1);
        proof {
            crate::knot_vec::lemma_count_run(a, x1, n - 1);
        }
        let mut c = s1;
        while c <= degree
            invariant
                self.wf(),
                self.spec_degree() == degree,
                self.knots()[0] == x0,
                self.knots().last() == x1,
                x1 == a.last(),
                s1 <= c,
                c <= degree + 1 || c == s1,
                c <= self.knots().len(),
                n <= self.knots().len(),
                forall|j: int| 0 <= j <= degree ==> #[trigger] self.knots()[j] == x0,
                forall|j: int|
                    self.knots().len() - c <= j < self.knots().len() ==> #[trigger] self.knots()[j]
                        == x1,
                (self.knots(), self.points()) == add_knot_times(a, ap, x1, (c - s1) as nat),
            decreases degree + 1 - c,
        {
            let ghost kb = self.knots();
            self.add_knot(x1);
            proof {
                let idx = knot_insert_index(kb, x1);
                if idx < kb.len() {
                    assert(x1 < kb[kb.len() - 1]);
                }
                assert(idx == kb.len());
                assert(self.knots() =~= kb.push(x1));
            }
            let _l = self.knot_vec.len();
            c += 1;
        }
        proof {
            assert(s1 > degree ==> c == s1);
        }
        self
    }

    /// Removes knots, trying from the back, until no knot can be removed.
    #[verifier::spinoff_prover]
    pub fn optimize(&mut self) -> (r: &mut Self)
        requires
            old(self).wf(),
        ensures
            r.wf(),
            r.knots().len() <= old(self).knots().len(),
            r.spec_degree() == old(self).spec_degree(),
            optimal(r.knots(), r.points()),
            optimal(old(self).knots(), old(self).points()) ==> *r == *old(self),
            exists|idxs: Seq<int>|
                removals((old(self).knots(), old(self).points()), idxs) == Some(
                    (r.knots(), r.points()),
                ),
            *final(self) == *final(r),
    {
        let mut done = false;
        let ghost mut changed = false;
        let ghost mut idxs: Seq<int> = Seq::empty();
        while !done
            invariant
                self.wf(),
                self.knots().len() <= old(self).knots().len(),
                done ==> optimal(self.knots(), self.points()),
                !changed ==> *self == *old(self),
                changed ==> !optimal(old(self).knots(), old(self).points()),
                self.spec_degree() == old(self).spec_degree(),
                removals((old(self).knots(), old(self).points()), idxs) == Some(
                    (self.knots(), self.points()),
                ),
            decreases self.knots().len() + if done {
                0int
            } else {
                1int
            },
        {
            let n = self.knot_vec.len();
            let mut i: usize = 0;
            let mut removed = false;
            let ghost before = *self;
            while i < n && !removed
                invariant
                    self.wf(),
                    0 <= i <= n,
                    n == before.knots().len(),
                    before.wf(),
                    !removed ==> *self == before,
                    removed ==> self.knots().len() == n - 1,
                    !removed ==> forall|j: int|
                        n - i <= j < n ==> #[trigger] remove_knot_parts(
                            before.knots(),
                            before.points(),
                            j,
                        ) is None,
                    removed ==> remove_knot_parts(before.knots(), before.points(), n - i) == Some(
                        (self.knots(), self.points()),
                    ),
                    removed ==> forall|j: int|
                        n - i < j < n ==> #[trigger] remove_knot_parts(
                            before.knots(),
                            before.points(),
                            j,
                        ) is None,
                    self.spec_degree() == before.spec_degree(),
                decreases n - i,
            {
                let res = self.try_remove_knot(n - 1 - i);
                if res.is_ok() {
                    removed = true;
                }
                i += 1;
            }
            if !removed {
                done = true;
            } else {
                proof {
                    if !changed {
                        assert(!optimal(old(self).knots(), old(self).points())) by {
                            assert(remove_knot_parts(
                                old(self).knots(),
                                old(self).points(),
                                n - i,
                            ) is Some);
                        }
                    }
                    changed = true;
                    let ghost prev = idxs;
                    idxs = idxs.push(n - i);
                    assert(idxs.drop_last() =~= prev);
                }
            }
        }
        self
    }
    /// A copy of the curve.
    pub fn copy_of(&self) -> (r: BSplineCurve<P>)
        requires
            self.wf(),
        ensures
            r.wf(),
            r.knots() == self.knots(),
            r.points() == self.points(),
    {
        let n = self.knot_vec.len();
        BSplineCurve {
            knot_vec: self.knot_vec.sub_vec(0, n),
            control_points: sub_points(&self.control_points, 0, self.control_points.len()),
        }
    }

    /// Splits the curve at `t`: the part before `t` stays, the part after it
    /// is returned. Below the range the curve becomes a single point on the
    /// knots `t` and the old front, and the whole curve is returned.
    #[verifier::rlimit(60)]
    pub fn cut(&mut self, t: i64) -> (r: BSplineCurve<P>)
        requires
            old(self).wf(),
            -KNOT_LIMIT <= t <= KNOT_LIMIT,
            t != old(self).knots()[0],
            t != old(self).knots().last(),
        ensures
            final(self).wf(),
            r.wf(),
            t < old(self).knots()[0] ==> {
                &&& final(self).knots() == seq![t, old(self).knots()[0]]
                &&& final(self).points() == seq![P::spec_origin()]
                &&& r.knots() == old(self).knots()
                &&& r.points() == old(self).points()
            },
            t > old(self).knots().last() ==> {
                &&& final(self).knots() == seq![old(self).knots().last(), t]
                &&& final(self).points() == seq![P::spec_origin()]
                &&& r.knots() == old(self).knots()
                &&& r.points() == old(self).points()
            },
            old(self).knots()[0] < t < old(self).knots().last() ==> {
                &&& ((final(self).knots(), final(self).points()), (r.knots(), r.points()))
                    == cut_parts(old(self).knots(), old(self).points(), t)
                &&& final(self).spec_degree() == old(self).spec_degree()
                &&& r.spec_degree() == old(self).spec_degree()
                &&& final(self).knots()[0] == old(self).knots()[0]
                &&& r.knots().last() == old(self).knots().last()
                &&& final(self).knots().last() == t
                &&& r.knots()[0] == t
                &&& forall|j: int|
                    final(self).knots().len() - 1 - old(self).spec_degree() <= j
                        < final(self).knots().len() ==> #[trigger] final(self).knots()[j] == t
                &&& forall|j: int| 0 <= j <= old(self).spec_degree() ==> #[trigger] r.knots()[j] == t
                &&& clamped(old(self).knots(), old(self).spec_degree() as nat) ==> clamped(
                    final(self).knots(),
                    old(self).spec_degree() as nat,
                ) && clamped(r.knots(), old(self).spec_degree() as nat)
            },
    {
        let ghost k0 = self.knots();
        let ghost p0 = self.points();
        let degree = self.degree();
        let first = self.knot_vec.get(0);
        if t < first {
            let whole = self.copy_of();
            let mut v: Vec<i64> = Vec::new();
            v.push(t);
            v.push(first);
            proof {
                assert(knots_ok(v@));
            }
            let kv = KnotVec::from_sorted(v).unwrap();
            let mut pts: Vec<P> = Vec::new();
            pts.push(P::origin());
            *self = BSplineCurve { knot_vec: kv, control_points: pts };
            proof {
                assert(self.knots() =~= seq![t, k0[0]]);
                assert(self.points() =~= seq![P::spec_origin()]);
            }
            return whole;
        }
        let last = self.knot_vec.get(self.knot_vec.len() - 1);
        if t > last {
            let whole = self.copy_of();
            let mut v: Vec<i64> = Vec::new();
            v.push(last);
            v.push(t);
            proof {
                assert(knots_ok(v@));
            }
            let kv = KnotVec::from_sorted(v).unwrap();
            let mut pts: Vec<P> = Vec::new();
            pts.push(P::origin());
            *self = BSplineCurve { knot_vec: kv, control_points: pts };
            proof {
                assert(self.knots() =~= seq![k0.last(), t]);
                assert(self.points() =~= seq![P::spec_origin()]);
            }
            return whole;
        }
        let idx = self.knot_vec.floor(t).unwrap();
        let s = if t == self.knot_vec.get(idx) {
            self.knot_vec.multiplicity(idx)
        } else {
            0
        };
        proof {
            crate::knot_vec::lemma_count_run(k0, t, idx as int);
            if t != k0[idx as int] && count(k0, t) > 0 {
                assert(k0[idx as int] == t);
            }
            assert(s == count(k0, t));
            lemma_insert_index(k0, t, idx + 1);
        }
        let ghost mut f: int = idx as int;
        let mut c = s;
        while c <= degree
            invariant
                self.wf(),
                self.spec_degree() == degree,
                self.knots()[0] == k0[0],
                self.knots().last() == k0.last(),
                k0[0] < t < k0.last(),
                s == count(k0, t),
                s <= c,
                c <= degree + 1 || c == s,
                0 <= f < self.knots().len(),
                insert_pos(self.knots(), t, f + 1),
                forall|j: int| f - c < j <= f ==> #[trigger] self.knots()[j] == t,
                (self.knots(), self.points()) == add_knot_times(k0, p0, t, (c - s) as nat),
                clamped(k0, degree as nat) ==> clamped(self.knots(), degree as nat),
            decreases degree + 1 - c,
        {
            let ghost kb = self.knots();
            proof {
                lemma_insert_index(kb, t, f + 1);
            }
            self.add_knot(t);
            proof {
                let kn = self.knots();
                assert(kn == kb.insert(f + 1, t));
                assert forall|i: int| 0 <= i < f + 2 implies #[trigger] kn[i] <= t by {
                    if i <= f {
                        assert(kn[i] == kb[i]);
                    }
                }
                assert forall|i: int| f + 2 <= i < kn.len() implies t < #[trigger] kn[i] by {
                    assert(kn[i] == kb[i - 1]);
                }
                assert forall|j: int| f + 1 - (c + 1) < j <= f + 1 implies #[trigger] kn[j] == t by {
                    if j <= f {
                        assert(kn[j] == kb[j]);
                    }
                }
                if clamped(k0, degree as nat) {
                    assert forall|j: int| 0 <= j <= degree implies #[trigger] kn[j] == kn[0] by {
                        assert(kb[j] == kb[0]);
                        if j >= f + 1 {
                            assert(t < kb[j]);
                        }
                        assert(kn[j] == kb[j]);
                    }
                    assert forall|j: int| kn.len() - 1 - degree <= j < kn.len() implies #[trigger] kn[j] == kn[kn.len() - 1] by {
                        assert(kb[kb.len() - 1] == kb[j - 1]);
                        if j - 1 < f + 1 {
                            assert(kb[j - 1] <= t);
                        }
                        assert(kn[j] == kb[j - 1]);
                    }
                }
                f = f + 1;
            }
            let _l = self.knot_vec.len();
            c += 1;
        }
        proof {
            assert(s > degree ==> c == s);
            assert((self.knots(), self.points()) == add_knot_times(
                k0,
                p0,
                t,
                missing(count(k0, t) as int, degree as int),
            ));
            lemma_insert_index(self.knots(), t, f + 1);
        }
        let kf = self.knot_vec.floor(t).unwrap();
        proof {
            assert(insert_pos(self.knots(), t, kf + 1));
            lemma_insert_index(self.knots(), t, kf + 1);
            assert(kf == f);
            let kn = self.knots();
            assert(kn[kf - degree] == t);
            if kf - degree == 0 {
                assert(kn[0] == k0[0]);
            }
            if kf + 1 == kn.len() {
                assert(kn.last() == k0.last());
            }
        }
        let m = self.knot_vec.len();
        let n = self.control_points.len();
        let knot_vec0 = self.knot_vec.sub_vec(0, kf + 1);
        let knot_vec1 = self.knot_vec.sub_vec(kf - degree, m);
        let control_points0 = sub_points(&self.control_points, 0, kf - degree);
        let control_points1 = sub_points(&self.control_points, kf - degree, n);
        let ghost kn = self.knots();
        *self = BSplineCurve { knot_vec: knot_vec0, control_points: control_points0 };
        let right = BSplineCurve { knot_vec: knot_vec1, control_points: control_points1 };
        proof {
            assert(self.knots()[0] == kn[0]);
            assert(self.knots().last() == kn[kf as int]);
            assert(right.knots()[0] == kn[kf - degree]);
            assert(right.knots().last() == kn.last());
            assert forall|j: int| 0 <= j <= degree implies #[trigger] right.knots()[j] == t by {
                assert(right.knots()[j] == kn[kf - degree + j]);
            }
            assert forall|j: int|
                self.knots().len() - 1 - degree <= j < self.knots().len() implies #[trigger] self.knots()[j] == t by {
                assert(self.knots()[j] == kn[j]);
            }
            assert(knots_ok(self.knots()));
            assert(knots_ok(right.knots()));
            if clamped(k0, degree as nat) {
                assert forall|j: int| 0 <= j <= degree implies #[trigger] self.knots()[j] == self.knots()[0] by {
                    assert(self.knots()[j] == kn[j]);
                }
                assert forall|j: int| right.knots().len() - 1 - degree <= j < right.knots().len() implies #[trigger] right.knots()[j] == right.knots()[right.knots().len() - 1] by {
                    assert(right.knots()[j] == kn[kf - degree + j]);
                }
            }
        }
        right
    }
    /// Raises the degree of a clamped Bezier-like segment by one.
    #[verifier::spinoff_prover]
    fn elevate_degree_bezier(&mut self)
        requires
            old(self).wf(),
            clamped(old(self).knots(), old(self).spec_degree() as nat),
            old(self).spec_degree() + 1 < RATIO_LIMIT,
        ensures
            final(self).wf(),
            final(self).spec_degree() == old(self).spec_degree() + 1,
            clamped(final(self).knots(), final(self).spec_degree() as nat),
            final(self).knots()[0] == old(self).knots()[0],
            final(self).knots().last() == old(self).knots().last(),
            final(self).knots() == old(self).knots().insert(
                knot_insert_index(old(self).knots(), old(self).knots()[0]),
                old(self).knots()[0],
            ).push(old(self).knots().last()),
            final(self).points() == elevated_points(
                old(self).points(),
                old(self).spec_degree(),
            ),
    {
        let ghost k0 = self.knots();
        let ghost p0 = self.points();
        let k = self.degree();
        let n = self.control_points.len();
        proof {
            assert(k0[k as int] == k0[0]);
            assert(k0[k0.len() - 1 - k] == k0.last());
            if k0.len() - 1 - k <= k {
                assert(k0[k0.len() - 1 - k] <= k0[k as int]);
            }
        }
        let x0 = self.knot_vec.get(0);
        let i0 = self.knot_vec.add_knot(x0);
        let ghost k1 = self.knot_vec@;
        proof {
            assert forall|j: int| 0 <= j <= k implies j < i0 && #[trigger] k0[j] == x0 by {
                assert(k0[j] == x0);
                if j >= i0 {
                    assert(x0 < k0[j]);
                }
            }
            if i0 == k0.len() {
                assert(k0.last() <= x0);
            }
            lemma_insert_index(k0, x0, i0 as int);
        }
        let m = self.knot_vec.len();
        let xl = self.knot_vec.get(m - 1);
        let i1 = self.knot_vec.add_knot(xl);
        proof {
            if i1 < k1.len() {
                assert(xl < k1[k1.len() - 1]);
            }
            assert(self.knot_vec@ =~= k1.push(xl));
        }
        self.control_points.push(P::origin());
        let ghost ext = self.control_points@;
        let mut i: usize = k + 2;
        while i > 0
            invariant
                self.knot_vec@ == k1.push(xl),
                k1 == k0.insert(i0 as int, x0),
                ext == p0.push(P::spec_origin()),
                p0.len() == n,
                n >= k + 1,
                k + 1 < RATIO_LIMIT,
                i <= k + 2,
                self.control_points@.len() == ext.len(),
                forall|j: int| 0 <= j < i ==> #[trigger] self.control_points@[j] == ext[j],
                forall|j: int|
                    i <= j < ext.len() ==> #[trigger] self.control_points@[j] == elevated_points(
                        p0,
                        k as int,
                    )[j],
            decreases i,
        {
            i -= 1;
            let prev = if i == 0 {
                P::origin()
            } else {
                self.control_points[i - 1]
            };
            let cur = self.control_points[i];
            let r = cur.lerp(&prev, i as i64, (k + 1) as i64);
            self.control_points.set(i, r);
        }
        proof {
            assert(self.control_points@ =~= elevated_points(p0, k as int));
            let kn = self.knots();
            assert forall|j: int| 0 <= j <= k + 1 implies #[trigger] kn[j] == kn[0] by {
                assert(kn[j] == k1[j]);
                assert(kn[0] == k0[0]);
                if j < i0 {
                    assert(k1[j] == k0[j]);
                    assert(k0[0] <= k0[j] <= x0);
                }
            }
            assert forall|j: int| kn.len() - 2 - k <= j < kn.len() implies #[trigger] kn[j] == kn[kn.len() - 1] by {
                if j < kn.len() - 1 {
                    assert(kn[j] == k1[j]);
                    assert(k1[j] == k0[j - 1]);
                }
            }
        }
    }

    /// Puts `other` after `self`: both have one degree and `other` starts
    /// where `self` ends.
    #[verifier::spinoff_prover]
    fn join(&mut self, other: BSplineCurve<P>)
        requires
            old(self).wf(),
            other.wf(),
            old(self).spec_degree() == other.spec_degree(),
            old(self).knots().last() == other.knots()[0],
        ensures
            final(self).wf(),
            final(self).spec_degree() == old(self).spec_degree(),
            final(self).knots() == joined_knots(
                old(self).knots(),
                other.knots(),
                old(self).spec_degree(),
            ),
            final(self).points() == old(self).points() + other.points(),
            final(self).knots()[0] == old(self).knots()[0],
            final(self).knots().last() == other.knots().last(),
    {
        let ghost a = self.knots();
        let ghost b = other.knots();
        let k = self.degree();
        let m = self.knot_vec.len();
        let mut v: Vec<i64> = Vec::new();
        let mut i: usize = 0;
        while i < m - k - 1
            invariant
                self.knot_vec@ == a,
                a.len() == m,
                m - k - 1 >= 1,
                i <= m - k - 1,
                v@ =~= a.subrange(0, i as int),
            decreases m - k - 1 - i,
        {
            v.push(self.knot_vec.get(i));
            i += 1;
        }
        let ob = other.knot_vec.as_vec();
        let mut j: usize = 0;
        while j < ob.len()
            invariant
                ob@ == b,
                j <= b.len(),
                v@ =~= a.subrange(0, m - k - 1) + b.subrange(0, j as int),
            decreases b.len() - j,
        {
            v.push(ob[j]);
            j += 1;
        }
        proof {
            assert(b.subrange(0, b.len() as int) =~= b);
            let t = v@;
            assert(knots_ok(t)) by {
                assert forall|p: int, q: int| 0 <= p <= q < t.len() implies t[p] <= t[q] by {
                    if q < m - k - 1 {
                    } else if p >= m - k - 1 {
                        assert(b[p - (m - k - 1)] <= b[q - (m - k - 1)]);
                    } else {
                        assert(a[p] <= a[m - 1]);
                        assert(b[0] <= b[q - (m - k - 1)]);
                    }
                }
            }
        }
        let kv = KnotVec::from_sorted(v).unwrap();
        let BSplineCurve { knot_vec: _, control_points: mut other_points } = other;
        let mut pts: Vec<P> = sub_points(&self.control_points, 0, self.control_points.len());
        pts.append(&mut other_points);
        self.knot_vec = kv;
        self.control_points = pts;
        proof {
            assert(self.points() =~= old(self).points() + other.points());
        }
    }

    /// Splits the clamped copy of the curve at each interior knot value, into
    /// segments in order.
    #[verifier::spinoff_prover]
    #[verifier::rlimit(100)]
    pub fn bezier_decomposition(&self) -> (r: Vec<BSplineCurve<P>>)
        requires
            self.wf(),
        ensures
            r@.len() > 0,
            forall|i: int|
                0 <= i < r@.len() ==> #[trigger] r@[i].wf() && r@[i].spec_degree()
                    == self.spec_degree() && clamped(r@[i].knots(), self.spec_degree() as nat),
            r@[0].knots()[0] == self.knots()[0],
            r@.last().knots().last() == self.knots().last(),
            forall|i: int|
                0 <= i < r@.len() - 1 ==> #[trigger] r@[i].knots().last() == r@[i + 1].knots()[0],
            curve_parts(r@) == bezier_pieces(self.knots(), self.points()),
    {
        let k = self.degree();
        let mut bspline = self.copy_of();
        bspline.clamp();
        let vals = self.knot_vec.single_values();
        let n = vals.len();
        let mut tail: Vec<BSplineCurve<P>> = Vec::new();
        let mut i: usize = 2;
        proof {
            assert(vals@.len() > 1) by {
                if vals@.len() == 1 {
                    assert(self.knots()[0] == self.knots().last());
                }
            }
        }
        while i < n
            invariant
                n == vals@.len(),
                n >= 2,
                2 <= i <= n,
                vals@[0] == self.knots()[0],
                vals@[n - 1] == self.knots().last(),
                forall|p: int, q: int| 0 <= p < q < n ==> vals@[p] < vals@[q],
                forall|p: int| 0 <= p < n ==> self.knots().contains(#[trigger] vals@[p]),
                knots_ok(self.knots()),
                bspline.wf(),
                bspline.spec_degree() == k,
                k == self.spec_degree(),
                clamped(bspline.knots(), k as nat),
                bspline.knots()[0] == vals@[0],
                bspline.knots().last() == vals@[n - i + 1],
                tail@.len() == i - 2,
                vals@ == crate::knot_vec::dedup(self.knots()),
                (bspline.knots(), bspline.points()) == cut_pieces(
                    self.knots(),
                    self.points(),
                    vals@,
                    (i - 2) as nat,
                ).0,
                curve_parts(tail@) == cut_pieces(self.knots(), self.points(), vals@, (i - 2) as nat).1,
                forall|j: int|
                    0 <= j < tail@.len() ==> #[trigger] tail@[j].wf() && tail@[j].spec_degree() == k
                        && clamped(tail@[j].knots(), k as nat) && tail@[j].knots()[0] == vals@[n - 2
                        - j] && tail@[j].knots().last() == vals@[n - 1 - j],
            decreases n - i,
        {
            let t = vals[n - i];
            proof {
                let w = choose|w: int| 0 <= w < self.knots().len() && self.knots()[w] == t;
                assert(-KNOT_LIMIT <= self.knots()[w]);
                assert(vals@[0] < vals@[n - i]);
                assert(vals@[n - i] < vals@[n - i + 1]);
            }
            let ghost bk = bspline;
            let piece = bspline.cut(t);
            let ghost tl = tail@;
            tail.push(piece);
            proof {
                assert(clamped(bk.knots(), k as nat));
                assert forall|j: int| 0 <= j < tail@.len() implies #[trigger] tail@[j].wf()
                    && tail@[j].spec_degree() == k && clamped(tail@[j].knots(), k as nat)
                    && tail@[j].knots()[0] == vals@[n - 2 - j] && tail@[j].knots().last()
                    == vals@[n - 1 - j] by {
                    if j < tl.len() {
                        assert(tail@[j] == tl[j]);
                        assert(tl[j].wf());
                    } else {
                        assert(tail@[j] == piece);
                    }
                }
                assert(curve_parts(tail@) =~= curve_parts(tl).push((piece.knots(), piece.points())));
            }
            i += 1;
        }
        let ghost t0 = tail@;
        let ghost b0 = bspline;
        let result = front_then_reversed(bspline, tail);
        proof {
            let nt = t0.len() as int;
            assert(nt == n - 2);
            assert(curve_parts(result@) =~= seq![(b0.knots(), b0.points())] + curve_parts(t0).reverse());
            assert forall|j: int| 0 <= j < result@.len() implies #[trigger] result@[j].wf()
                && result@[j].spec_degree() == k && clamped(result@[j].knots(), k as nat)
                && result@[j].knots()[0] == vals@[j] && result@[j].knots().last() == vals@[j + 1] by {
                if j > 0 {
                    assert(result@[j] == t0[nt - j]);
                    assert(t0[nt - j].wf());
                }
            }
            assert forall|j: int| 0 <= j < result@.len() - 1 implies #[trigger] result@[j].knots().last()
                == result@[j + 1].knots()[0] by {
                assert(result@[j].wf());
                assert(result@[j + 1].wf());
            }
            assert(result@[result@.len() - 1].wf());
        }
        result
    }

    /// Raises the degree by one: each Bezier segment is raised and the
    /// segments are put back together.
    #[verifier::spinoff_prover]
    pub fn elevate_degree(&mut self) -> (r: &mut Self)
        requires
            old(self).wf(),
            old(self).spec_degree() + 1 < RATIO_LIMIT,
        ensures
            r.wf(),
            r.spec_degree() == old(self).spec_degree() + 1,
            r.knots()[0] == old(self).knots()[0],
            r.knots().last() == old(self).knots().last(),
            (r.knots(), r.points()) == elevated_curve(
                old(self).knots(),
                old(self).points(),
            ),
            *final(self) == *final(r),
    {
        let pieces = self.bezier_decomposition();
        let ghost ps = curve_parts(pieces@);
        proof {
            assert(pieces@[0].wf());
            assert(ps[0] == (pieces@[0].knots(), pieces@[0].points()));
        }
        let mut acc = pieces[0].copy_of();
        acc.elevate_degree_bezier();
        let mut i: usize = 1;
        while i < pieces.len()
            invariant
                1 <= i <= pieces@.len(),
                forall|j: int|
                    0 <= j < pieces@.len() ==> #[trigger] pieces@[j].wf() && pieces@[j].spec_degree()
                        == old(self).spec_degree() && clamped(
                        pieces@[j].knots(),
                        old(self).spec_degree() as nat,
                    ),
                forall|j: int|
                    0 <= j < pieces@.len() - 1 ==> #[trigger] pieces@[j].knots().last()
                        == pieces@[j + 1].knots()[0],
                old(self).spec_degree() + 1 < RATIO_LIMIT,
                acc.wf(),
                acc.spec_degree() == old(self).spec_degree() + 1,
                acc.knots()[0] == old(self).knots()[0],
                acc.knots().last() == pieces@[i - 1].knots().last(),
                ps == curve_parts(pieces@),
                (acc.knots(), acc.points()) == elevate_fold(ps, i as int),
            decreases pieces@.len() - i,
        {
            proof {
                assert(ps[i as int] == (pieces@[i as int].knots(), pieces@[i as int].points()));
                assert(pieces@[i as int].wf());
                assert(pieces@[i - 1].knots().last() == pieces@[i as int].knots()[0]);
            }
            let mut b = pieces[i].copy_of();
            b.elevate_degree_bezier();
            acc.join(b);
            i += 1;
        }
        *self = acc;
        self
    }
    /// Brings both curves to the higher of their degrees; the curve that
    /// already has it is left as it is.
    #[verifier::spinoff_prover]
    pub fn syncro_degree(&mut self, other: &mut BSplineCurve<P>)
        requires
            old(self).wf(),
            old(other).wf(),
            old(self).spec_degree() + 1 < RATIO_LIMIT,
            old(other).spec_degree() + 1 < RATIO_LIMIT,
        ensures
            final(self).wf(),
            final(other).wf(),
            final(self).spec_degree() == final(other).spec_degree(),
            final(self).spec_degree() == if old(self).spec_degree() >= old(other).spec_degree() {
                old(self).spec_degree()
            } else {
                old(other).spec_degree()
            },
            final(self).knots()[0] == old(self).knots()[0],
            final(self).knots().last() == old(self).knots().last(),
            final(other).knots()[0] == old(other).knots()[0],
            final(other).knots().last() == old(other).knots().last(),
            old(self).spec_degree() >= old(other).spec_degree() ==> *final(self) == *old(self),
            old(other).spec_degree() >= old(self).spec_degree() ==> *final(other) == *old(other),
            (final(self).knots(), final(self).points()) == elevated_times(
                (old(self).knots(), old(self).points()),
                raise_count(old(self).spec_degree(), old(other).spec_degree()),
            ),
            (final(other).knots(), final(other).points()) == elevated_times(
                (old(other).knots(), old(other).points()),
                raise_count(old(other).spec_degree(), old(self).spec_degree()),
            ),
    {
        let d0 = self.degree();
        let d1 = other.degree();
        let mut i = d0;
        while i < d1
            invariant
                self.wf(),
                d0 <= i,
                i <= d1 || i == d0,
                self.spec_degree() == i,
                d1 + 1 < RATIO_LIMIT,
                self.knots()[0] == old(self).knots()[0],
                self.knots().last() == old(self).knots().last(),
                i == d0 ==> *self == *old(self),
                (self.knots(), self.points()) == elevated_times(
                    (old(self).knots(), old(self).points()),
                    (i - d0) as nat,
                ),
            decreases d1 - i,
        {
            self.elevate_degree();
            i += 1;
        }
        let mut j = d1;
        while j < d0
            invariant
                other.wf(),
                d1 <= j,
                j <= d0 || j == d1,
                other.spec_degree() == j,
                d0 + 1 < RATIO_LIMIT,
                other.knots()[0] == old(other).knots()[0],
                other.knots().last() == old(other).knots().last(),
                j == d1 ==> *other == *old(other),
                (other.knots(), other.points()) == elevated_times(
                    (old(other).knots(), old(other).points()),
                    (j - d1) as nat,
                ),
            decreases d0 - j,
        {
            other.elevate_degree();
            j += 1;
        }
    }

    /// Joins `other` after `self`, both brought to one degree and clamped
    /// first. Fails where the last knot of `self` is not the first of
    /// `other`, or where the points that meet are not near.
    #[verifier::spinoff_prover]
    pub fn try_concat(&self, other: &BSplineCurve<P>) -> (r: Result<
        BSplineCurve<P>,
        ConcatError<P>,
    >)
        requires
            self.wf(),
            other.wf(),
            self.spec_degree() + 1 < RATIO_LIMIT,
            other.spec_degree() + 1 < RATIO_LIMIT,
        ensures
            self.knots().last() != other.knots()[0] <==> r == Err::<BSplineCurve<P>, ConcatError<P>>(
                ConcatError::DisconnectedParameters(self.knots().last(), other.knots()[0]),
            ),
            r matches Err(ConcatError::DisconnectedPoints(p, q)) ==> !p.spec_near(q),
            r matches Ok(c) ==> {
                &&& c.wf()
                &&& c.knots()[0] == self.knots()[0]
                &&& c.knots().last() == other.knots().last()
                &&& c.spec_degree() == if self.spec_degree() >= other.spec_degree() {
                    self.spec_degree()
                } else {
                    other.spec_degree()
                }
            },
            self.knots().last() == other.knots()[0] ==> {
                let dm = if self.spec_degree() >= other.spec_degree() {
                    self.spec_degree()
                } else {
                    other.spec_degree()
                };
                let a0 = elevated_times(
                    (self.knots(), self.points()),
                    raise_count(self.spec_degree(), dm),
                );
                let b0 = elevated_times(
                    (other.knots(), other.points()),
                    raise_count(other.spec_degree(), dm),
                );
                let a = clamp_parts(a0.0, a0.1);
                let b = clamp_parts(b0.0, b0.1);
                if a.1.last().spec_near(b.1[0]) {
                    r matches Ok(c) && (c.knots(), c.points()) == join_parts(a, b)
                } else {
                    r == Err::<BSplineCurve<P>, ConcatError<P>>(
                        ConcatError::DisconnectedPoints(a.1.last(), b.1[0]),
                    )
                }
            },
    {
        let mut curve0 = self.copy_of();
        let mut curve1 = other.copy_of();
        curve0.syncro_degree(&mut curve1);
        curve0.clamp();
        curve1.clamp();
        let back = curve0.knot_vec.get(curve0.knot_vec.len() - 1);
        let front = curve1.knot_vec.get(0);
        if back != front {
            return Err(ConcatError::DisconnectedParameters(back, front));
        }
        let p = curve0.control_points[curve0.control_points.len() - 1];
        let q = curve1.control_points[0];
        if !p.near(&q) {
            return Err(ConcatError::DisconnectedPoints(p, q));
        }
        curve0.join(curve1);
        Ok(curve0)
    }

    /// Shifts the knot vector by `x`.
    pub fn knot_translate(&mut self, x: i64) -> (r: &mut Self)
        requires
            old(self).wf(),
            forall|i: int|
                0 <= i < old(self).knots().len() ==> -KNOT_LIMIT <= #[trigger] old(self).knots()[i]
                    + x <= KNOT_LIMIT,
        ensures
            r.wf(),
            r.knots() == crate::knot_vec::translated(old(self).knots(), x as int),
            r.points() == old(self).points(),
            *final(self) == *final(r),
    {
        self.knot_vec.translate(x);
        proof {
            let o = old(self).knots();
            assert(self.knots()[0] == o[0] + x);
            assert(self.knots().last() == o.last() + x);
        }
        self
    }

    /// Drops the constant Bezier segments: the first non-constant segment is
    /// kept, each later non-constant one is moved back over the constant
    /// segments before it and joined. A curve with no non-constant segment is
    /// left as it is.
    #[verifier::spinoff_prover]
    pub fn make_locally_injective(&mut self) -> (r: &mut Self)
        requires
            old(self).wf(),
        ensures
            r.wf(),
            r.spec_degree() == old(self).spec_degree(),
            old(self).knots()[0] <= r.knots()[0],
            r.knots().last() <= old(self).knots().last(),
            ({
                let ps = bezier_pieces(old(self).knots(), old(self).points());
                let f = first_nonconst(ps, 0);
                if f == ps.len() {
                    *r == *old(self)
                } else {
                    (r.knots(), r.points()) == injective_fold(
                        ps,
                        f,
                        ps.len() as int,
                    ).0
                }
            }),
            *final(self) == *final(r),
    {
        let k = self.degree();
        let pieces = self.bezier_decomposition();
        let ghost ps = curve_parts(pieces@);
        let n = pieces.len();
        let mut i: usize = 0;
        let mut found = false;
        while i < n && !found
            invariant
                n == pieces@.len(),
                i <= n,
                found ==> i < n && !const_parts(ps[i as int]),
                ps == curve_parts(pieces@),
                first_nonconst(ps, 0) == first_nonconst(ps, i as int),
                forall|j: int|
                    0 <= j < n ==> #[trigger] pieces@[j].wf() && pieces@[j].spec_degree() == k
                        && clamped(pieces@[j].knots(), k as nat),
                forall|j: int| 0 <= j < n - 1 ==> #[trigger] pieces@[j].knots().last() == pieces@[j + 1].knots()[0],
                pieces@[n - 1].knots().last() == self.knots().last(),
                pieces@[0].knots()[0] == self.knots()[0],
            decreases n - i + if found { 0int } else { 1int },
        {
            proof {
                assert(ps[i as int] == (pieces@[i as int].knots(), pieces@[i as int].points()));
                assert(pieces@[i as int].wf());
            }
            if pieces[i].is_const() {
                i += 1;
            } else {
                found = true;
            }
        }
        let ghost f = i as int;
        proof {
            if i < n {
                assert(first_nonconst(ps, i as int) == i);
            } else {
                assert(ps.len() == n);
                assert(first_nonconst(ps, i as int) == n);
            }
            assert(f == first_nonconst(ps, 0));
        }
        if i == n {
            return self;
        }
        proof {
            assert(pieces@[i as int].wf());
            lemma_last_bound(pieces@, i as int);
            assert forall|j: int| 0 <= j <= i implies self.knots()[0] <= #[trigger] pieces@[j].knots()[0] by {
                lemma_pieces_ordered(pieces@, j);
            }
        }
        let mut acc = pieces[i].copy_of();
        let mut x: i64 = 0;
        proof {
            assert(ps[f] == (pieces@[f].knots(), pieces@[f].points()));
        }
        i += 1;
        while i < n
            invariant
                n == pieces@.len(),
                1 <= i <= n,
                0 <= f < i,
                ps == curve_parts(pieces@),
                ((acc.knots(), acc.points()), x as int) == injective_fold(ps, f, i as int),
                forall|j: int|
                    0 <= j < n ==> #[trigger] pieces@[j].wf() && pieces@[j].spec_degree() == k
                        && clamped(pieces@[j].knots(), k as nat),
                forall|j: int| 0 <= j < n - 1 ==> #[trigger] pieces@[j].knots().last() == pieces@[j + 1].knots()[0],
                pieces@[n - 1].knots().last() == self.knots().last(),
                knots_ok(self.knots()),
                k == self.spec_degree(),
                acc.wf(),
                acc.spec_degree() == k,
                self.knots()[0] <= acc.knots()[0],
                acc.knots().last() + x == pieces@[i - 1].knots().last(),
                0 <= x,
                -KNOT_LIMIT <= acc.knots().last(),
                pieces@[i - 1].knots().last() <= self.knots().last(),
                acc.knots().last() <= pieces@[i - 1].knots().last(),
            decreases n - i,
        {
            let ghost pc = pieces@[i as int];
            proof {
                assert(ps[i as int] == (pc.knots(), pc.points()));
                assert(pc.wf());
                assert(pieces@[i - 1].knots().last() == pc.knots()[0]);
                lemma_last_bound(pieces@, i as int);
            }
            if pieces[i].is_const() {
                let len = pieces[i].knot_vec.range_length();
                x = x + len;
            } else {
                let mut b = pieces[i].copy_of();
                proof {
                    assert forall|j: int| 0 <= j < b.knots().len() implies -KNOT_LIMIT <= #[trigger] b.knots()[j] + (-x) <= KNOT_LIMIT by {
                        assert(b.knots()[0] <= b.knots()[j] <= b.knots().last());
                    }
                }
                b.knot_translate(-x);
                acc.join(b);
            }
            i += 1;
        }
        *self = acc;
        self
    }

    /// The derivative as a curve: one control point more, on the same knots.
    /// A curve of degree zero has a zero derivative.
    #[verifier::spinoff_prover]
    pub fn derivation(&self) -> (r: BSplineCurve<P>)
        requires
            self.wf(),
            self.spec_degree() < RATIO_LIMIT,
        ensures
            r.wf(),
            r.knots() == self.knots(),
            self.spec_degree() == 0 ==> r.points() == Seq::new(
                self.points().len(),
                |i: int| P::spec_origin(),
            ),
            self.spec_degree() > 0 ==> r.points() == derived_points(
                self.points(),
                self.knots(),
                self.spec_degree(),
            ),
    {
        let n = self.control_points.len();
        let k = self.degree();
        let knot_vec = self.knot_vec.sub_vec(0, self.knot_vec.len());
        let mut new_points: Vec<P> = Vec::new();
        if k > 0 {
            let ghost ext = self.points().push(P::spec_origin());
            let mut i: usize = 0;
            while i <= n
                invariant
                    i <= n + 1,
                    n == self.points().len(),
                    k == self.spec_degree(),
                    k > 0,
                    k < RATIO_LIMIT,
                    self.wf(),
                    ext == self.points().push(P::spec_origin()),
                    new_points@ =~= derived_points(self.points(), self.knots(), k as int).subrange(
                        0,
                        i as int,
                    ),
                decreases n + 1 - i,
            {
                let p = if i == 0 {
                    P::origin()
                } else {
                    self.control_points[i - 1]
                };
                let q = if i == n {
                    P::origin()
                } else {
                    self.control_points[i]
                };
                proof {
                    assert(self.knots()[i as int] <= self.knots()[i + k]);
                    assert(ext[i as int] == q);
                }
                let _kl = self.knot_vec.len();
                let den = self.knot_vec.get(i + k) - self.knot_vec.get(i);
                let d = if den == 0 {
                    p.diff_scaled(&q, 0, 1)
                } else {
                    p.diff_scaled(&q, k as i64, den)
                };
                new_points.push(d);
                i += 1;
            }
        } else {
            let mut i: usize = 0;
            while i < n
                invariant
                    i <= n,
                    new_points@ =~= Seq::new(i as nat, |j: int| P::spec_origin()),
                decreases n - i,
            {
                new_points.push(P::origin());
                i += 1;
            }
        }
        BSplineCurve { knot_vec, control_points: new_points }
    }

    /// A mutable reference to the control point at `idx`.
    pub fn control_point_mut(&mut self, idx: usize) -> (r: &mut P)
        requires
            idx < old(self).points().len(),
        ensures
            *r == old(self).points()[idx as int],
            final(self).knots() == old(self).knots(),
            final(self).points() == old(self).points().update(idx as int, *final(r)),
    {
        &mut self.control_points[idx]
    }

    /// Replaces each control point by its image under `f`.
    pub fn transform_control_points<F: Fn(P) -> P>(&mut self, f: F)
        requires
            forall|i: int| 0 <= i < old(self).points().len() ==> f.requires((#[trigger] old(self).points()[i],)),
        ensures
            final(self).knots() == old(self).knots(),
            final(self).points().len() == old(self).points().len(),
            forall|i: int|
                0 <= i < old(self).points().len() ==> f.ensures(
                    (#[trigger] old(self).points()[i],),
                    final(self).points()[i],
                ),
    {
        let n = self.control_points.len();
        let mut i: usize = 0;
        while i < n
            invariant
                n == old(self).points().len(),
                self.knots() == old(self).knots(),
                self.points().len() == n,
                i <= n,
                forall|j: int| 0 <= j < n ==> f.requires((#[trigger] old(self).points()[j],)),
                forall|j: int| i <= j < n ==> #[trigger] self.points()[j] == old(self).points()[j],
                forall|j: int| 0 <= j < i ==> f.ensures((#[trigger] old(self).points()[j],), self.points()[j]),
            decreases n - i,
        {
            let p = self.control_points[i];
            let q = f(p);
            self.control_points.set(i, q);
            i += 1;
        }
    }
    /// The point of the curve at the parameter `tn / td`, by de Boor's
    /// algorithm on the span that holds it.
    #[verifier::spinoff_prover]
    pub fn subs(&self, tn: i64, td: i64) -> (r: P)
        requires
            self.wf(),
            in_domain(self.knots(), self.points().len() as int, tn as int, td as int),
        ensures
            r == eval(self.knots(), self.points(), tn as int, td as int),
    {
        let ghost kn = self.knots();
        let ghost pts = self.points();
        let n = self.control_points.len();
        let k = self.degree();
        let kl = self.knot_vec.len();
        let mut s = n - 1;
        assert(-KNOT_LIMIT <= kn[s as int] <= KNOT_LIMIT);
        assert(-KNOT_LIMIT * PARAM_DEN_LIMIT <= kn[s as int] * td <= KNOT_LIMIT * PARAM_DEN_LIMIT)
            by (nonlinear_arith)
            requires
                -KNOT_LIMIT <= kn[s as int] <= KNOT_LIMIT,
                0 < td <= PARAM_DEN_LIMIT,
        ;
        while s > k && (self.knot_vec.get(s) * td > tn || self.knot_vec.get(s) == self.knot_vec.get(
            s + 1,
        ))
            invariant
                k <= s < n,
                n == pts.len(),
                kn == self.knots(),
                knots_ok(kn),
                kn.len() == n + k + 1,
                kl == kn.len(),
                0 < td <= PARAM_DEN_LIMIT,
                span_of(kn, tn as int, td as int, k as int, n - 1) == span_of(
                    kn,
                    tn as int,
                    td as int,
                    k as int,
                    s as int,
                ),
                -KNOT_LIMIT * PARAM_DEN_LIMIT <= kn[s as int] * td <= KNOT_LIMIT * PARAM_DEN_LIMIT,
            decreases s,
        {
            s -= 1;
            assert(-KNOT_LIMIT <= kn[s as int] <= KNOT_LIMIT);
            assert(-KNOT_LIMIT * PARAM_DEN_LIMIT <= kn[s as int] * td <= KNOT_LIMIT * PARAM_DEN_LIMIT)
                by (nonlinear_arith)
                requires
                    -KNOT_LIMIT <= kn[s as int] <= KNOT_LIMIT,
                    0 < td <= PARAM_DEN_LIMIT,
            ;
        }
        proof {
            lemma_span_of(kn, tn as int, td as int, k as int, n - 1);
            assert(s == span_of(kn, tn as int, td as int, k as int, n - 1));
        }
        let base = s - k;
        let mut d: Vec<P> = sub_points(&self.control_points, base, s + 1);
        let mut r: usize = 1;
        while r <= k
            invariant
                1 <= r <= k + 1,
                k <= s < n,
                kl == kn.len(),
                base == s - k,
                n == pts.len(),
                pts == self.points(),
                kn == self.knots(),
                knots_ok(kn),
                kn.len() == n + k + 1,
                0 < td <= PARAM_DEN_LIMIT,
                kn[s as int] * td <= tn <= kn[s + 1] * td,
                d@.len() == k + 1,
                forall|a: int|
                    r - 1 <= a <= k ==> #[trigger] d@[a] == de_boor(
                        pts,
                        kn,
                        k as int,
                        tn as int,
                        td as int,
                        (r - 1) as nat,
                        base + a,
                    ),
            decreases k + 1 - r,
        {
            let mut a = k;
            while a >= r
                invariant
                    1 <= r <= k,
                    r - 1 <= a <= k,
                    k <= s < n,
                    kl == kn.len(),
                    base == s - k,
                    kn == self.knots(),
                    knots_ok(kn),
                    kn.len() == n + k + 1,
                    0 < td <= PARAM_DEN_LIMIT,
                    kn[s as int] * td <= tn <= kn[s + 1] * td,
                    d@.len() == k + 1,
                    forall|b: int|
                        a < b <= k ==> #[trigger] d@[b] == de_boor(
                            pts,
                            kn,
                            k as int,
                            tn as int,
                            td as int,
                            r as nat,
                            base + b,
                        ),
                    forall|b: int|
                        r - 1 <= b <= a ==> #[trigger] d@[b] == de_boor(
                            pts,
                            kn,
                            k as int,
                            tn as int,
                            td as int,
                            (r - 1) as nat,
                            base + b,
                        ),
                decreases a,
            {
                let j = base + a;
                let lo = self.knot_vec.get(j);
                let hi = self.knot_vec.get(j + k + 1 - r);
                proof {
                    assert(kn[j as int] <= kn[s as int]);
                    assert(kn[s + 1] <= kn[j + k + 1 - r]);
                    assert(-KNOT_LIMIT <= lo <= KNOT_LIMIT);
                    assert(-KNOT_LIMIT <= hi <= KNOT_LIMIT);
                    assert(-KNOT_LIMIT * PARAM_DEN_LIMIT <= lo * td <= KNOT_LIMIT * PARAM_DEN_LIMIT)
                        by (nonlinear_arith)
                        requires
                            -KNOT_LIMIT <= lo <= KNOT_LIMIT,
                            0 < td <= PARAM_DEN_LIMIT,
                    ;
                    assert(0 <= (hi - lo) * td <= 2 * KNOT_LIMIT * PARAM_DEN_LIMIT)
                        by (nonlinear_arith)
                        requires
                            lo <= hi,
                            -KNOT_LIMIT <= lo <= KNOT_LIMIT,
                            -KNOT_LIMIT <= hi <= KNOT_LIMIT,
                            0 < td <= PARAM_DEN_LIMIT,
                    ;
                    assert(lo * td <= tn <= hi * td) by {
                        assert(lo * td <= kn[s as int] * td) by (nonlinear_arith)
                            requires
                                lo <= kn[s as int],
                                td > 0,
                        ;
                        assert(kn[s + 1] * td <= hi * td) by (nonlinear_arith)
                            requires
                                kn[s + 1] <= hi,
                                td > 0,
                        ;
                    }
                }
                proof {
                    assert(tn - lo * td <= (hi - lo) * td) by (nonlinear_arith)
                        requires
                            tn <= hi * td,
                    ;
                }
                let num = tn - lo * td;
                let den = (hi - lo) * td;
                let prev = d[a - 1];
                let cur = d[a];
                let v = blend_exec(&prev, &cur, num, den);
                d.set(a, v);
                a -= 1;
            }
            r += 1;
        }
        d[k]
    }

    /// Whether the two curves have the same range and agree, at first or
    /// second order, at `max(degree) * div_coef` points of each knot span of
    /// `self`.
    #[verifier::spinoff_prover]
    pub fn sub_near_as_curve(&self, other: &BSplineCurve<P>, div_coef: usize, second: bool) -> (r: bool)
        requires
            self.wf(),
            other.wf(),
            clamped(self.knots(), self.spec_degree() as nat),
            clamped(other.knots(), other.spec_degree() as nat),
            1 <= div_coef,
            self.spec_degree() * div_coef <= PARAM_DEN_LIMIT,
            other.spec_degree() * div_coef <= PARAM_DEN_LIMIT,
        ensures
            r == ({
                let d0 = self.spec_degree();
                let d1 = other.spec_degree();
                let div = (if d0 >= d1 { d0 } else { d1 }) * div_coef;
                &&& self.knots()[0] == other.knots()[0]
                &&& self.knots().last() == other.knots().last()
                &&& agree_at_samples(self.knots(), self.points(), other.knots(), other.points(), div, second)
            }),
    {
        let ghost k0 = self.knots();
        let ghost k1 = other.knots();
        let m = self.knot_vec.len();
        let m1 = other.knot_vec.len();
        if self.knot_vec.get(0) != other.knot_vec.get(0) || self.knot_vec.get(m - 1) != other.knot_vec.get(m1 - 1) {
            return false;
        }
        let d0 = self.degree();
        let d1 = other.degree();
        let dmax = if d0 >= d1 { d0 } else { d1 };
        assert(dmax * div_coef <= PARAM_DEN_LIMIT);
        let division = dmax * div_coef;
        let ghost div = division as int;
        assert(div == (if self.spec_degree() >= other.spec_degree() {
            self.spec_degree()
        } else {
            other.spec_degree()
        }) * div_coef);
        let mut i: usize = 0;
        while i < m - 1
            invariant
                m == k0.len(),
                k0 == self.knots(),
                k1 == other.knots(),
                self.wf(),
                other.wf(),
                clamped(k0, self.spec_degree() as nat),
                clamped(k1, other.spec_degree() as nat),
                k0[0] == k1[0],
                k0.last() == k1.last(),
                0 <= division <= PARAM_DEN_LIMIT,
                div == division,
                div == (if self.spec_degree() >= other.spec_degree() {
                    self.spec_degree()
                } else {
                    other.spec_degree()
                }) * div_coef,
                i <= m - 1,
                forall|a: int, j: int|
                    0 <= a < i && k0[a] < k0[a + 1] && 0 <= j < div ==> {
                        let x = eval(k0, self.points(), #[trigger] sample_num(k0, div, a, j), div);
                        let y = eval(k1, other.points(), sample_num(k0, div, a, j), div);
                        if second {
                            x.spec_near2(y)
                        } else {
                            x.spec_near(y)
                        }
                    },
            decreases m - 1 - i,
        {
            let lo = self.knot_vec.get(i);
            let hi = self.knot_vec.get(i + 1);
            if lo < hi {
                let mut j: usize = 0;
                while j < division
                    invariant
                        m == k0.len(),
                        k0 == self.knots(),
                        k1 == other.knots(),
                        self.wf(),
                        other.wf(),
                        clamped(k0, self.spec_degree() as nat),
                        clamped(k1, other.spec_degree() as nat),
                        k0[0] == k1[0],
                        k0.last() == k1.last(),
                        0 <= division <= PARAM_DEN_LIMIT,
                        div == division,
                        div == (if self.spec_degree() >= other.spec_degree() {
                            self.spec_degree()
                        } else {
                            other.spec_degree()
                        }) * div_coef,
                        i < m - 1,
                        lo == k0[i as int],
                        hi == k0[i + 1],
                        lo < hi,
                        j <= division,
                        forall|a: int, jj: int|
                            0 <= a < i && k0[a] < k0[a + 1] && 0 <= jj < div ==> {
                                let x = eval(k0, self.points(), #[trigger] sample_num(k0, div, a, jj), div);
                                let y = eval(k1, other.points(), sample_num(k0, div, a, jj), div);
                                if second {
                                    x.spec_near2(y)
                                } else {
                                    x.spec_near(y)
                                }
                            },
                        forall|jj: int|
                            0 <= jj < j ==> {
                                let x = eval(k0, self.points(), #[trigger] sample_num(k0, div, i as int, jj), div);
                                let y = eval(k1, other.points(), sample_num(k0, div, i as int, jj), div);
                                if second {
                                    x.spec_near2(y)
                                } else {
                                    x.spec_near(y)
                                }
                            },
                    decreases division - j,
                {
                    proof {
                        lemma_sample_in_domain(self, other, i as int, j as int, div);
                    }
                    let tn = lo * (division as i64) + (hi - lo) * (j as i64);
                    let a = self.subs(tn, division as i64);
                    let b = other.subs(tn, division as i64);
                    let ok = if second {
                        a.near2(&b)
                    } else {
                        a.near(&b)
                    };
                    if !ok {
                        proof {
                            let t = sample_num(k0, div, i as int, j as int);
                            assert(k0[i as int] < k0[i + 1]);
                            assert(tn == t);
                            assert(a == eval(k0, self.points(), t, div));
                            assert(b == eval(k1, other.points(), t, div));
                            assert(!(if second { a.spec_near2(b) } else { a.spec_near(b) }));
                            assert(!agree_at_samples(k0, self.points(), k1, other.points(), div, second));
                        }
                        return false;
                    }
                    j += 1;
                }
            }
            i += 1;
        }
        true
    }

    /// Whether the curves agree at first order at the samples of each span.
    pub fn near_as_curve(&self, other: &BSplineCurve<P>) -> (r: bool)
        requires
            self.wf(),
            other.wf(),
            clamped(self.knots(), self.spec_degree() as nat),
            clamped(other.knots(), other.spec_degree() as nat),
            self.spec_degree() <= PARAM_DEN_LIMIT,
            other.spec_degree() <= PARAM_DEN_LIMIT,
        ensures
            r == ({
                let d0 = self.spec_degree();
                let d1 = other.spec_degree();
                &&& self.knots()[0] == other.knots()[0]
                &&& self.knots().last() == other.knots().last()
                &&& agree_at_samples(self.knots(), self.points(), other.knots(), other.points(), if d0 >= d1 { d0 } else { d1 }, false)
            }),
    {
        self.sub_near_as_curve(other, 1, false)
    }

    /// Whether the curves agree at second order at the samples of each span.
    pub fn near2_as_curve(&self, other: &BSplineCurve<P>) -> (r: bool)
        requires
            self.wf(),
            other.wf(),
            clamped(self.knots(), self.spec_degree() as nat),
            clamped(other.knots(), other.spec_degree() as nat),
            self.spec_degree() <= PARAM_DEN_LIMIT,
            other.spec_degree() <= PARAM_DEN_LIMIT,
        ensures
            r == ({
                let d0 = self.spec_degree();
                let d1 = other.spec_degree();
                &&& self.knots()[0] == other.knots()[0]
                &&& self.knots().last() == other.knots().last()
                &&& agree_at_samples(self.knots(), self.points(), other.knots(), other.points(), if d0 >= d1 { d0 } else { d1 }, true)
            }),
    {
        self.sub_near_as_curve(other, 1, true)
    }
    /// The first derivative at `tn / td`: the derived curve evaluated there.
    pub fn der(&self, tn: i64, td: i64) -> (r: P)
        requires
            self.wf(),
            clamped(self.knots(), self.spec_degree() as nat),
            1 <= self.spec_degree() < RATIO_LIMIT,
            0 < td <= PARAM_DEN_LIMIT,
            self.knots()[0] * td <= tn <= self.knots().last() * td,
        ensures
            r == eval(
                self.knots(),
                derived_points(self.points(), self.knots(), self.spec_degree()),
                tn as int,
                td as int,
            ),
    {
        let d = self.derivation();
        proof {
            let kn = self.knots();
            let k = self.spec_degree();
            let n = self.points().len() as int;
            assert(kn[k - 1] == kn[0]);
            assert(kn[n + 1] == kn.last());
        }
        d.subs(tn, td)
    }

    /// The second derivative at `tn / td`: the twice derived curve evaluated
    /// there; zero for a curve of degree below two.
    pub fn der2(&self, tn: i64, td: i64) -> (r: P)
        requires
            self.wf(),
            clamped(self.knots(), self.spec_degree() as nat),
            self.spec_degree() < RATIO_LIMIT,
            0 < td <= PARAM_DEN_LIMIT,
            self.knots()[0] * td <= tn <= self.knots().last() * td,
        ensures
            self.spec_degree() < 2 ==> r == P::spec_origin(),
            self.spec_degree() >= 2 ==> r == eval(
                self.knots(),
                derived_points(
                    derived_points(self.points(), self.knots(), self.spec_degree()),
                    self.knots(),
                    self.spec_degree() - 1,
                ),
                tn as int,
                td as int,
            ),
    {
        let k = self.degree();
        if k < 2 {
            return P::origin();
        }
        let d = self.derivation();
        let d2 = d.derivation();
        proof {
            let kn = self.knots();
            let n = self.points().len() as int;
            assert(kn[k - 2] == kn[0]);
            assert(kn[n + 2] == kn.last());
        }
        d2.subs(tn, td)
    }
    /// Brings both curves onto one knot vector without changing their
    /// degrees: each range is moved to start at zero and stretched by the
    /// other's range length, so both run over `[0, r0 * r1]`, and then each
    /// curve receives the knots of the other that it lacks.
    #[verifier::spinoff_prover]
    #[verifier::rlimit(100)]
    pub fn syncro_knots(&mut self, other: &mut BSplineCurve<P>)
        requires
            old(self).wf(),
            old(other).wf(),
            (old(self).knots().last() - old(self).knots()[0]) * (old(other).knots().last()
                - old(other).knots()[0]) <= KNOT_LIMIT,
        ensures
            final(self).wf(),
            final(other).wf(),
            final(self).knots() == final(other).knots(),
            final(self).spec_degree() == old(self).spec_degree(),
            final(other).spec_degree() == old(other).spec_degree(),
            final(self).knots()[0] == 0,
            final(self).knots() == merged(
                crate::knot_vec::rescaled(
                    old(self).knots(),
                    old(other).knots().last() - old(other).knots()[0],
                ),
                crate::knot_vec::rescaled(
                    old(other).knots(),
                    old(self).knots().last() - old(self).knots()[0],
                ),
            ),
            final(self).knots().last() == (old(self).knots().last() - old(self).knots()[0]) * (
            old(other).knots().last() - old(other).knots()[0]),
            exists|xs: Seq<i64>|
                (final(self).knots(), final(self).points()) == #[trigger] add_knots(
                    (
                        crate::knot_vec::rescaled(
                            old(self).knots(),
                            old(other).knots().last() - old(other).knots()[0],
                        ),
                        old(self).points(),
                    ),
                    xs,
                ),
            exists|xs: Seq<i64>|
                (final(other).knots(), final(other).points()) == #[trigger] add_knots(
                    (
                        crate::knot_vec::rescaled(
                            old(other).knots(),
                            old(self).knots().last() - old(self).knots()[0],
                        ),
                        old(other).points(),
                    ),
                    xs,
                ),
    {
        let r0 = self.knot_vec.range_length();
        let r1 = other.knot_vec.range_length();
        let ghost big = r0 * r1;
        proof {
            assert(r0 * r1 == r1 * r0) by (nonlinear_arith);
            assert(r0 <= r0 * r1 && r1 <= r0 * r1) by (nonlinear_arith)
                requires
                    r0 >= 1,
                    r1 >= 1,
            ;
        }
        self.knot_vec.rescale(r1);
        other.knot_vec.rescale(r0);
        let ghost q0 = (self.knots(), self.points());
        let ghost q1 = (other.knots(), other.points());
        let ghost mut xs0: Seq<i64> = Seq::empty();
        let ghost mut xs1: Seq<i64> = Seq::empty();
        assert(q0 == (crate::knot_vec::rescaled(old(self).knots(), r1 as int), old(self).points()));
        assert(q1 == (crate::knot_vec::rescaled(old(other).knots(), r0 as int), old(other).points()));
        let l = r0 * r1;
        proof {
            let a = self.knots();
            let b = other.knots();
            assert(a[0] == 0 && b[0] == 0);
            assert(a.last() == l);
            assert(b.last() == r1 * r0);
            assert(b.last() == l);
            assert(a[0] < a.last());
        }
        let ghost ka = q0.0;
        let ghost kb = q1.0;
        let ghost mut ia: int = 0;
        let ghost mut ib: int = 0;
        assert(ka.subrange(0, ka.len() as int) =~= ka);
        assert(kb.subrange(0, kb.len() as int) =~= kb);
        assert(merged(ka, kb) =~= self.knots().subrange(0, 0) + merged(ka.subrange(0, ka.len() as int), kb.subrange(0, kb.len() as int)));
        let mut i: usize = 0;
        while self.knot_vec.get(i) != l || other.knot_vec.get(i) != l
            invariant
                0 <= ia <= ka.len(),
                0 <= ib <= kb.len(),
                self.knots().subrange(i as int, self.knots().len() as int) == ka.subrange(ia, ka.len() as int),
                other.knots().subrange(i as int, other.knots().len() as int) == kb.subrange(ib, kb.len() as int),
                merged(ka, kb) == self.knots().subrange(0, i as int) + merged(
                    ka.subrange(ia, ka.len() as int),
                    kb.subrange(ib, kb.len() as int),
                ),
                (self.knots(), self.points()) == add_knots(q0, xs0),
                (other.knots(), other.points()) == add_knots(q1, xs1),
                self.wf(),
                other.wf(),
                self.spec_degree() == old(self).spec_degree(),
                other.spec_degree() == old(other).spec_degree(),
                self.knots()[0] == 0,
                other.knots()[0] == 0,
                self.knots().last() == l,
                other.knots().last() == l,
                i < self.knots().len(),
                i < other.knots().len(),
                0 < l <= KNOT_LIMIT,
                forall|j: int| 0 <= j < i ==> #[trigger] self.knots()[j] == other.knots()[j] && self.knots()[j] < l,
            decreases (self.knots().len() - i) + (other.knots().len() - i),
        {
            let a = self.knot_vec.get(i);
            let b = other.knot_vec.get(i);
            let ghost sk = self.knots();
            let ghost ok = other.knots();
            let ghost ra = ka.subrange(ia, ka.len() as int);
            let ghost rb = kb.subrange(ib, kb.len() as int);
            proof {
                assert(sk.subrange(i as int, sk.len() as int)[0] == sk[i as int]);
                assert(ok.subrange(i as int, ok.len() as int)[0] == ok[i as int]);
                assert(ra.len() > 0 && ra[0] == a);
                assert(rb.len() > 0 && rb[0] == b);
            }
            if a > b {
                proof {
                    assert(ok[0] <= b);
                }
                self.add_knot(b);
                proof {
                    lemma_add_knots_push(q0, xs0, b);
                    xs0 = xs0.push(b);
                    let idx = knot_insert_index(sk, b);
                    assert forall|j: int| 0 <= j < i implies j < idx && #[trigger] sk[j] <= b by {
                        assert(sk[j] == ok[j] && ok[j] <= ok[i as int]);
                        if j >= idx {
                            assert(b < sk[j]);
                        }
                    }
                    assert(insert_pos(sk, b, idx));
                    if idx > i {
                        assert(sk[i as int] <= b);
                    }
                    if idx < i {
                        assert(sk[idx] == ok[idx] && ok[idx] <= ok[i as int]);
                        assert(b < sk[idx]);
                    }
                    assert(idx == i);
                    assert(self.knots().last() == l);
                }
            } else if b > a {
                proof {
                    assert(sk[0] <= a);
                }
                other.add_knot(a);
                proof {
                    lemma_add_knots_push(q1, xs1, a);
                    xs1 = xs1.push(a);
                    let idx = knot_insert_index(ok, a);
                    assert forall|j: int| 0 <= j < i implies j < idx && #[trigger] ok[j] <= a by {
                        assert(ok[j] == sk[j] && sk[j] <= sk[i as int]);
                        if j >= idx {
                            assert(a < ok[j]);
                        }
                    }
                    assert(insert_pos(ok, a, idx));
                    if idx > i {
                        assert(ok[i as int] <= a);
                    }
                    if idx < i {
                        assert(ok[idx] == sk[idx] && sk[idx] <= sk[i as int]);
                        assert(a < ok[idx]);
                    }
                    assert(idx == i);
                    assert(other.knots().last() == l);
                }
            }
            proof {
                let s2 = self.knots();
                let o2 = other.knots();
                if a > b {
                    assert(s2 == sk.insert(i as int, b));
                    assert(o2 == ok);
                    assert(merged(ra, rb) == seq![b] + merged(ra, rb.drop_first()));
                    assert(rb.drop_first() =~= kb.subrange(ib + 1, kb.len() as int));
                    assert(s2.subrange(i + 1, s2.len() as int) =~= sk.subrange(i as int, sk.len() as int));
                    assert(o2.subrange(i + 1, o2.len() as int) =~= ok.subrange(i as int, ok.len() as int).drop_first());
                    assert(s2.subrange(0, i + 1) =~= sk.subrange(0, i as int) + seq![b]);
                    ib = ib + 1;
                } else if b > a {
                    assert(o2 == ok.insert(i as int, a));
                    assert(s2 == sk);
                    assert(merged(ra, rb) == seq![a] + merged(ra.drop_first(), rb));
                    assert(ra.drop_first() =~= ka.subrange(ia + 1, ka.len() as int));
                    assert(o2.subrange(i + 1, o2.len() as int) =~= ok.subrange(i as int, ok.len() as int));
                    assert(s2.subrange(i + 1, s2.len() as int) =~= sk.subrange(i as int, sk.len() as int).drop_first());
                    assert(s2.subrange(0, i + 1) =~= sk.subrange(0, i as int) + seq![a]);
                    ia = ia + 1;
                } else {
                    assert(s2 == sk && o2 == ok);
                    assert(merged(ra, rb) == seq![a] + merged(ra.drop_first(), rb.drop_first()));
                    assert(ra.drop_first() =~= ka.subrange(ia + 1, ka.len() as int));
                    assert(rb.drop_first() =~= kb.subrange(ib + 1, kb.len() as int));
                    assert(s2.subrange(i + 1, s2.len() as int) =~= sk.subrange(i as int, sk.len() as int).drop_first());
                    assert(o2.subrange(i + 1, o2.len() as int) =~= ok.subrange(i as int, ok.len() as int).drop_first());
                    assert(s2.subrange(0, i + 1) =~= sk.subrange(0, i as int) + seq![a]);
                    ia = ia + 1;
                    ib = ib + 1;
                }
                assert(s2[i as int] == o2[i as int]);
                assert(s2[i as int] < l) by {
                    assert(s2[i as int] <= s2.last());
                    assert(o2[i as int] <= o2.last());
                }
                assert(i + 1 < s2.len()) by {
                    if i + 1 >= s2.len() {
                        assert(s2[i as int] == s2.last());
                    }
                }
                assert(i + 1 < o2.len()) by {
                    if i + 1 >= o2.len() {
                        assert(o2[i as int] == o2.last());
                    }
                }
            }
            let _l = self.knot_vec.len();
            i += 1;
        }
        let ghost at: int = i as int;
        let ghost prefix = self.knots().subrange(0, at);
        let ghost m_len: int = if self.knots().len() >= other.knots().len() {
            self.knots().len() as int
        } else {
            other.knots().len() as int
        };
        proof {
            let s2 = self.knots();
            let o2 = other.knots();
            assert forall|j: int| at <= j < s2.len() implies #[trigger] s2[j] == l by {
                assert(s2[at] <= s2[j] <= s2.last());
            }
            assert forall|j: int| at <= j < o2.len() implies #[trigger] o2[j] == l by {
                assert(o2[at] <= o2[j] <= o2.last());
            }
            let ra = ka.subrange(ia, ka.len() as int);
            let rb = kb.subrange(ib, kb.len() as int);
            assert forall|j: int| 0 <= j < ra.len() implies #[trigger] ra[j] == l by {
                assert(ra[j] == s2.subrange(at, s2.len() as int)[j]);
                assert(s2[at + j] == l);
            }
            assert forall|j: int| 0 <= j < rb.len() implies #[trigger] rb[j] == l by {
                assert(rb[j] == o2.subrange(at, o2.len() as int)[j]);
                assert(o2[at + j] == l);
            }
            lemma_merged_constant(ra, rb, l);
            assert(ra.len() == s2.len() - at);
            assert(rb.len() == o2.len() - at);
            assert(prefix =~= o2.subrange(0, at));
            assert(merged(ka, kb) =~= prefix + Seq::new((m_len - at) as nat, |j: int| l));
        }
        while self.knot_vec.len() < other.knot_vec.len()
            invariant
                (self.knots(), self.points()) == add_knots(q0, xs0),
                (other.knots(), other.points()) == add_knots(q1, xs1),
                self.wf(),
                other.wf(),
                self.spec_degree() == old(self).spec_degree(),
                other.spec_degree() == old(other).spec_degree(),
                self.knots()[0] == 0,
                self.knots().last() == l,
                0 < l <= KNOT_LIMIT,
                at < self.knots().len(),
                at < other.knots().len(),
                forall|j: int| 0 <= j < at ==> #[trigger] self.knots()[j] == other.knots()[j],
                forall|j: int| at <= j < self.knots().len() ==> #[trigger] self.knots()[j] == l,
                forall|j: int| at <= j < other.knots().len() ==> #[trigger] other.knots()[j] == l,
                prefix.len() == at,
                forall|j: int| 0 <= j < at ==> #[trigger] prefix[j] == self.knots()[j],
                merged(ka, kb) == prefix + Seq::new((m_len - at) as nat, |j: int| l),
                self.knots().len() <= m_len,
                other.knots().len() <= m_len,
                other.knots().len() == m_len || self.knots().len() == m_len,
            decreases other.knots().len() - self.knots().len(),
        {
            let ghost sk = self.knots();
            self.add_knot(l);
            proof {
                lemma_add_knots_push(q0, xs0, l);
                xs0 = xs0.push(l);
                let idx = knot_insert_index(sk, l);
                if idx < sk.len() {
                    assert(l < sk[sk.len() - 1]);
                }
                assert(self.knots() =~= sk.push(l));
            }
        }
        while other.knot_vec.len() < self.knot_vec.len()
            invariant
                (self.knots(), self.points()) == add_knots(q0, xs0),
                (other.knots(), other.points()) == add_knots(q1, xs1),
                self.wf(),
                other.wf(),
                self.spec_degree() == old(self).spec_degree(),
                other.spec_degree() == old(other).spec_degree(),
                self.knots()[0] == 0,
                self.knots().last() == l,
                other.knots().last() == l,
                0 < l <= KNOT_LIMIT,
                at < self.knots().len(),
                at < other.knots().len(),
                other.knots().len() <= self.knots().len(),
                forall|j: int| 0 <= j < at ==> #[trigger] self.knots()[j] == other.knots()[j],
                forall|j: int| at <= j < self.knots().len() ==> #[trigger] self.knots()[j] == l,
                forall|j: int| at <= j < other.knots().len() ==> #[trigger] other.knots()[j] == l,
                prefix.len() == at,
                forall|j: int| 0 <= j < at ==> #[trigger] prefix[j] == self.knots()[j],
                merged(ka, kb) == prefix + Seq::new((m_len - at) as nat, |j: int| l),
                self.knots().len() == m_len,
            decreases self.knots().len() - other.knots().len(),
        {
            let ghost ok = other.knots();
            other.add_knot(l);
            proof {
                lemma_add_knots_push(q1, xs1, l);
                xs1 = xs1.push(l);
                let idx = knot_insert_index(ok, l);
                if idx < ok.len() {
                    assert(l < ok[ok.len() - 1]);
                }
                assert(other.knots() =~= ok.push(l));
            }
        }
        proof {
            assert(self.knots() =~= other.knots());
            let s2 = self.knots();
            assert(s2 =~= prefix + Seq::new((m_len - at) as nat, |j: int| l)) by {
                assert forall|j: int| 0 <= j < s2.len() implies s2[j] == (prefix + Seq::new((m_len - at) as nat, |j: int| l))[j] by {
                    if j < at {
                        assert(prefix[j] == s2[j]);
                    }
                }
            }
        }
    }
}

proof fn lemma_pieces_ordered<P: ControlPoint>(pieces: Seq<BSplineCurve<P>>, j: int)
    requires
        0 <= j < pieces.len(),
        forall|i: int| 0 <= i < pieces.len() ==> #[trigger] pieces[i].wf(),
        forall|i: int|
            0 <= i < pieces.len() - 1 ==> #[trigger] pieces[i].knots().last() == pieces[i
                + 1].knots()[0],
    ensures
        pieces[0].knots()[0] <= pieces[j].knots()[0],
    decreases j,
{
    if j > 0 {
        lemma_pieces_ordered(pieces, j - 1);
        assert(pieces[j - 1].wf());
        assert(pieces[j - 1].knots()[0] < pieces[j - 1].knots().last());
    }
}

proof fn lemma_last_bound<P: ControlPoint>(pieces: Seq<BSplineCurve<P>>, j: int)
    requires
        0 <= j < pieces.len(),
        forall|i: int| 0 <= i < pieces.len() ==> #[trigger] pieces[i].wf(),
        forall|i: int|
            0 <= i < pieces.len() - 1 ==> #[trigger] pieces[i].knots().last() == pieces[i
                + 1].knots()[0],
    ensures
        pieces[j].knots().last() <= pieces[pieces.len() - 1].knots().last(),
    decreases pieces.len() - j,
{
    if j < pieces.len() - 1 {
        lemma_last_bound(pieces, j + 1);
        assert(pieces[j + 1].wf());
        assert(pieces[j + 1].knots()[0] < pieces[j + 1].knots().last());
    }
}

/// A knot vector and control points that make a curve have a degree, the
/// number of knots minus the number of points minus one, of at least zero.
pub proof fn lemma_degree_of_valid_parts(knots: Seq<i64>, n: nat)
    requires
        valid_parts(knots, n),
    ensures
        knots.len() - n - 1 >= 0,
{
}

/// Inverting twice gives back the knots and the control points.
pub proof fn lemma_invert_involution<P: ControlPoint>(knots: Seq<i64>, pts: Seq<P>)
    requires
        valid_parts(knots, pts.len()),
    ensures
        inverted(inverted(knots)) == knots,
        pts.reverse().reverse() == pts,
{
    let once = inverted(knots);
    let n = knots.len() as int;
    assert(once[0] == knots[0]);
    assert(once[n - 1] == knots[n - 1]);
    assert(inverted(once) =~= knots);
    assert(pts.reverse().reverse() =~= pts);
}

proof fn lemma_sample_in_domain<P: ControlPoint>(
    c0: &BSplineCurve<P>,
    c1: &BSplineCurve<P>,
    i: int,
    j: int,
    div: int,
)
    requires
        c0.wf(),
        c1.wf(),
        clamped(c0.knots(), c0.spec_degree() as nat),
        clamped(c1.knots(), c1.spec_degree() as nat),
        c0.knots()[0] == c1.knots()[0],
        c0.knots().last() == c1.knots().last(),
        0 <= i < c0.knots().len() - 1,
        0 <= j < div <= PARAM_DEN_LIMIT,
    ensures
        in_domain(c0.knots(), c0.points().len() as int, sample_num(c0.knots(), div, i, j), div),
        in_domain(c1.knots(), c1.points().len() as int, sample_num(c0.knots(), div, i, j), div),
        -RATIO_LIMIT <= c0.knots()[i] * div <= RATIO_LIMIT,
        -RATIO_LIMIT <= (c0.knots()[i + 1] - c0.knots()[i]) * j <= RATIO_LIMIT,
        -RATIO_LIMIT <= sample_num(c0.knots(), div, i, j) <= RATIO_LIMIT,
{
    let kn = c0.knots();
    let lo = kn[i];
    let hi = kn[i + 1];
    let first = kn[0];
    let last = kn.last();
    assert(first <= lo <= hi <= last);
    assert(-KNOT_LIMIT <= first && last <= KNOT_LIMIT);
    let t = sample_num(kn, div, i, j);
    assert(first * div <= lo * div <= t <= hi * div <= last * div) by (nonlinear_arith)
        requires
            first <= lo <= hi <= last,
            0 <= j < div,
            t == lo * div + (hi - lo) * j,
    ;
    assert(-KNOT_LIMIT * PARAM_DEN_LIMIT <= first * div && last * div <= KNOT_LIMIT * PARAM_DEN_LIMIT)
        by (nonlinear_arith)
        requires
            -KNOT_LIMIT <= first,
            last <= KNOT_LIMIT,
            0 < div <= PARAM_DEN_LIMIT,
            first <= last,
    ;
    assert(0 <= (hi - lo) * j <= 2 * KNOT_LIMIT * PARAM_DEN_LIMIT) by (nonlinear_arith)
        requires
            lo <= hi,
            -KNOT_LIMIT <= lo,
            hi <= KNOT_LIMIT,
            0 <= j < PARAM_DEN_LIMIT,
    ;
    assert(-KNOT_LIMIT * PARAM_DEN_LIMIT <= lo * div <= KNOT_LIMIT * PARAM_DEN_LIMIT)
        by (nonlinear_arith)
        requires
            -KNOT_LIMIT <= lo <= KNOT_LIMIT,
            0 < div <= PARAM_DEN_LIMIT,
    ;
    let k0 = c0.spec_degree();
    let n0 = c0.points().len() as int;
    assert(kn[k0] == first);
    assert(kn[n0] == last);
    if n0 <= k0 {
        assert(kn[n0] == first);
    }
    let k1 = c1.spec_degree();
    let n1 = c1.points().len() as int;
    assert(c1.knots()[k1] == first);
    assert(c1.knots()[n1] == last);
    if n1 <= k1 {
        assert(c1.knots()[n1] == c1.knots()[0]);
    }
}

/// Whether `lo` and `hi` are the corners of the smallest box around `pts`.
pub open spec fn is_bounding_box(pts: Seq<Point2>, lo: Point2, hi: Point2) -> bool {
    &&& forall|i: int|
        0 <= i < pts.len() ==> lo.x <= #[trigger] pts[i].x <= hi.x && lo.y <= pts[i].y <= hi.y
    &&& exists|i: int| 0 <= i < pts.len() && pts[i].x == lo.x
    &&& exists|i: int| 0 <= i < pts.len() && pts[i].y == lo.y
    &&& exists|i: int| 0 <= i < pts.len() && pts[i].x == hi.x
    &&& exists|i: int| 0 <= i < pts.len() && pts[i].y == hi.y
}

impl BSplineCurve<Point2> {
    /// The smallest box around the control points, as its lower and upper
    /// corners; it holds the whole curve.
    pub fn roughly_bounding_box(&self) -> (r: (Point2, Point2))
        requires
            self.wf(),
        ensures
            is_bounding_box(self.points(), r.0, r.1),
    {
        let pts = &self.control_points;
        let n = pts.len();
        let mut lo = pts[0];
        let mut hi = pts[0];
        let mut i: usize = 1;
        proof {
            let a = pts@.subrange(0, 1);
            assert(a[0] == lo);
        }
        while i < n
            invariant
                n == pts@.len(),
                pts@ == self.points(),
                1 <= i <= n,
                is_bounding_box(pts@.subrange(0, i as int), lo, hi),
            decreases n - i,
        {
            let q = pts[i];
            let ghost old_lo = lo;
            let ghost old_hi = hi;
            if q.x < lo.x {
                lo = Point2 { x: q.x, y: lo.y };
            }
            if q.y < lo.y {
                lo = Point2 { x: lo.x, y: q.y };
            }
            if q.x > hi.x {
                hi = Point2 { x: q.x, y: hi.y };
            }
            if q.y > hi.y {
                hi = Point2 { x: hi.x, y: q.y };
            }
            proof {
                let a = pts@.subrange(0, i as int);
                let b = pts@.subrange(0, i as int + 1);
                assert forall|j: int| 0 <= j < b.len() implies lo.x <= #[trigger] b[j].x <= hi.x && lo.y <= b[j].y <= hi.y by {
                    if j < i {
                        assert(b[j] == a[j]);
                    }
                }
                assert(b[i as int] == q);
                if lo.x == old_lo.x {
                    let w = choose|w: int| 0 <= w < a.len() && a[w].x == old_lo.x;
                    assert(b[w] == a[w]);
                }
                if lo.y == old_lo.y {
                    let w = choose|w: int| 0 <= w < a.len() && a[w].y == old_lo.y;
                    assert(b[w] == a[w]);
                }
                if hi.x == old_hi.x {
                    let w = choose|w: int| 0 <= w < a.len() && a[w].x == old_hi.x;
                    assert(b[w] == a[w]);
                }
                if hi.y == old_hi.y {
                    let w = choose|w: int| 0 <= w < a.len() && a[w].y == old_hi.y;
                    assert(b[w] == a[w]);
                }
            }
            i += 1;
        }
        assert(pts@.subrange(0, n as int) =~= pts@);
        (lo, hi)
    }
}

proof fn lemma_insert_pos_exists(s: Seq<i64>, x: i64)
    requires
        sorted(s),
    ensures
        exists|idx: int| insert_pos(s, x, idx),
    decreases s.len(),
{
    if s.len() == 0 {
        assert(insert_pos(s, x, 0));
    } else if s.last() <= x {
        assert forall|i: int| 0 <= i < s.len() implies #[trigger] s[i] <= x by {
            assert(s[i] <= s.last());
        }
        assert(insert_pos(s, x, s.len() as int));
    } else {
        let t = s.drop_last();
        lemma_insert_pos_exists(t, x);
        let idx = choose|idx: int| insert_pos(t, x, idx);
        assert(insert_pos(s, x, idx)) by {
            assert forall|i: int| idx <= i < s.len() implies x < #[trigger] s[i] by {
                if i < t.len() {
                    assert(s[i] == t[i]);
                }
            }
            assert forall|i: int| 0 <= i < idx implies #[trigger] s[i] <= x by {
                assert(s[i] == t[i]);
            }
        }
    }
}

/// Adding a knot inside the range and then removing it again, where the
/// removal succeeds, gives back the knot vector and the number of control
/// points.
pub proof fn lemma_knot_round_trip<P: ControlPoint>(knots: Seq<i64>, pts: Seq<P>, x: i64)
    requires
        valid_parts(knots, pts.len()),
        knots[0] <= x <= KNOT_LIMIT,
    ensures
        ({
            let q = add_knot_parts(knots, pts, x);
            remove_knot_parts(q.0, q.1, knot_insert_index(knots, x)) is Some ==> {
                &&& remove_knot_parts(q.0, q.1, knot_insert_index(knots, x)).unwrap().0 == knots
                &&& remove_knot_parts(q.0, q.1, knot_insert_index(knots, x)).unwrap().1.len()
                    == pts.len()
            }
        }),
{
    lemma_insert_pos_exists(knots, x);
    let idx = knot_insert_index(knots, x);
    assert(insert_pos(knots, x, idx));
    let q = add_knot_parts(knots, pts, x);
    assert(q.0 == knots.insert(idx, x));
    assert(q.0.remove(idx) =~= knots);
}


/// Whether every coordinate of the points stays within [`POINT_LIMIT`].
pub open spec fn points_bounded(pts: Seq<Point2>) -> bool {
    forall|j: int|
        0 <= j < pts.len() ==> -POINT_LIMIT <= #[trigger] pts[j].x <= POINT_LIMIT && -POINT_LIMIT
            <= pts[j].y <= POINT_LIMIT
}

/// Whether two points differ by at most `e` in each coordinate.
pub open spec fn within_units(p: Point2, q: Point2, e: int) -> bool {
    &&& abs_diff(p.x as int, q.x as int) <= e
    &&& abs_diff(p.y as int, q.y as int) <= e
}

proof fn lemma_undo_point_front(a: Point2, b: Point2, c: Point2, e: int, n: int, d: int)
    requires
        0 < n <= d,
        2 * n >= d,
        points_bounded(seq![a, b]),
        within_units(c, a, e),
        0 <= e <= 1000,
    ensures
        within_units(c.spec_lerp(a.spec_lerp(b, n, d), d, n), b, e + 2),
{
    assert(-POINT_LIMIT <= seq![a, b][0].x <= POINT_LIMIT);
    assert(-POINT_LIMIT <= seq![a, b][1].x <= POINT_LIMIT);
    lemma_lerp_between(a.x as int, b.x as int, n, d);
    lemma_lerp_between(a.y as int, b.y as int, n, d);
    lemma_undo_front(a.x as int, b.x as int, c.x as int, e, n, d);
    lemma_undo_front(a.y as int, b.y as int, c.y as int, e, n, d);
}

proof fn lemma_undo_point_rear(a: Point2, b: Point2, c: Point2, e: int, n: int, d: int)
    requires
        0 <= n,
        2 * n < d,
        points_bounded(seq![a, b]),
        within_units(c, b, e),
        0 <= e <= 1000,
    ensures
        within_units(c.spec_lerp(a.spec_lerp(b, n, d), d, d - n), a, e + 2),
{
    assert(-POINT_LIMIT <= seq![a, b][0].x <= POINT_LIMIT);
    assert(-POINT_LIMIT <= seq![a, b][1].x <= POINT_LIMIT);
    lemma_lerp_between(a.x as int, b.x as int, n, d);
    lemma_lerp_between(a.y as int, b.y as int, n, d);
    lemma_undo_rear(a.x as int, b.x as int, c.x as int, e, n, d);
    lemma_undo_rear(a.y as int, b.y as int, c.y as int, e, n, d);
}

/// The numerator of the ratio of the knot span at `i` under the knot at `idx`.
pub open spec fn span_num(kn: Seq<i64>, idx: int, i: int) -> int {
    kn[idx] - kn[i]
}

/// The denominator of the ratio of the knot span at `i`, for degree `k`.
pub open spec fn span_den(kn: Seq<i64>, k: int, i: int) -> int {
    kn[i + k + 1] - kn[i]
}

/// What a freshly inserted knot at `idx` leaves among the points `p2` made
/// from `pts`: each point under the knot blends its two neighbours of `pts`.
pub open spec fn inserted_shape(p2: Seq<Point2>, pts: Seq<Point2>, kn: Seq<i64>, k: int, idx: int) -> bool {
    &&& 1 <= k
    &&& k + 1 <= idx < p2.len()
    &&& p2.len() == pts.len() + 1
    &&& kn.len() == p2.len() + k + 1
    &&& points_bounded(pts)
    &&& p2[idx - k - 1] == pts[idx - k - 1]
    &&& p2[idx] == pts[idx - 1]
    &&& (forall|j: int| 0 <= j < idx - k ==> #[trigger] p2[j] == pts[j])
    &&& (forall|j: int| idx < j < p2.len() ==> #[trigger] p2[j] == pts[j - 1])
    &&& forall|i: int|
        idx - k <= i < idx ==> {
            &&& 0 <= #[trigger] span_num(kn, idx, i) < span_den(kn, k, i)
            &&& p2[i] == pts[i - 1].spec_lerp(pts[i], span_num(kn, idx, i), span_den(kn, k, i))
        }
}

proof fn lemma_bounded_pair(pts: Seq<Point2>, i: int)
    requires
        points_bounded(pts),
        1 <= i < pts.len(),
    ensures
        points_bounded(seq![pts[i - 1], pts[i]]),
{
    assert(seq![pts[i - 1], pts[i]][0] == pts[i - 1]);
    assert(seq![pts[i - 1], pts[i]][1] == pts[i]);
}

#[verifier::spinoff_prover]
proof fn lemma_front_chain(p2: Seq<Point2>, pts: Seq<Point2>, kn: Seq<i64>, k: int, idx: int, m: nat)
    requires
        inserted_shape(p2, pts, kn, k, idx),
        m <= k,
        m <= 300,
        forall|j: int| 0 <= j < m ==> 2 * #[trigger] span_num(kn, idx, idx - k + j) >= span_den(kn, k, idx - k + j),
    ensures
        removal_chain(p2, kn, k, idx, m).len() == m + 1,
        forall|j: int|
            0 <= j <= m ==> within_units(
                #[trigger] removal_chain(p2, kn, k, idx, m)[j],
                pts[idx - k - 1 + j],
                2 * j,
            ),
    decreases m,
{
    let c = removal_chain(p2, kn, k, idx, m);
    if m == 0 {
        assert(within_units(c[0], pts[idx - k - 1], 0));
    } else {
        let prev = removal_chain(p2, kn, k, idx, (m - 1) as nat);
        lemma_front_chain(p2, pts, kn, k, idx, (m - 1) as nat);
        let i = idx - k + m - 1;
        let num = span_num(kn, idx, i);
        let den = span_den(kn, k, i);
        assert(0 <= num < den);
        assert(2 * num >= den);
        assert(num > 0);
        assert(c == prev.push(prev.last().spec_lerp(p2[i], den, num)));
        assert(within_units(prev[m - 1], pts[idx - k - 1 + m - 1], 2 * (m - 1)));
        lemma_bounded_pair(pts, i);
        lemma_undo_point_front(pts[i - 1], pts[i], prev[m - 1], 2 * (m - 1), num, den);
        assert forall|j: int| 0 <= j <= m implies within_units(
            #[trigger] c[j],
            pts[idx - k - 1 + j],
            2 * j,
        ) by {
            if j < m {
                assert(c[j] == prev[j]);
            }
        }
    }
}

#[verifier::spinoff_prover]
proof fn lemma_back_chain(
    p2: Seq<Point2>,
    pts: Seq<Point2>,
    kn: Seq<i64>,
    k: int,
    idx: int,
    l: int,
    m: nat,
)
    requires
        inserted_shape(p2, pts, kn, k, idx),
        0 <= l <= k,
        m <= k - l,
        m <= 300,
        forall|i: int| idx - k + l <= i < idx ==> 2 * #[trigger] span_num(kn, idx, i) < span_den(kn, k, i),
    ensures
        removal_chain_back(p2, kn, k, idx, m).len() == m + 1,
        forall|j: int|
            0 <= j <= m ==> within_units(
                #[trigger] removal_chain_back(p2, kn, k, idx, m)[j],
                pts[idx - 1 - j],
                2 * j,
            ),
    decreases m,
{
    let c = removal_chain_back(p2, kn, k, idx, m);
    if m == 0 {
        assert(within_units(c[0], pts[idx - 1], 0));
    } else {
        let prev = removal_chain_back(p2, kn, k, idx, (m - 1) as nat);
        lemma_back_chain(p2, pts, kn, k, idx, l, (m - 1) as nat);
        let i = idx - m;
        let num = span_num(kn, idx, i);
        let den = span_den(kn, k, i);
        assert(0 <= num < den);
        assert(2 * num < den);
        assert(c == prev.push(prev.last().spec_lerp(p2[i], den, den - num)));
        assert(within_units(prev[m - 1], pts[idx - 1 - (m - 1)], 2 * (m - 1)));
        lemma_bounded_pair(pts, i);
        lemma_undo_point_rear(pts[i - 1], pts[i], prev[m - 1], 2 * (m - 1), num, den);
        assert forall|j: int| 0 <= j <= m implies within_units(
            #[trigger] c[j],
            pts[idx - 1 - j],
            2 * j,
        ) by {
            if j < m {
                assert(c[j] == prev[j]);
            }
        }
    }
}

proof fn lemma_front_steps_facts(kn: Seq<i64>, k: int, idx: int, m: int)
    requires
        0 <= m <= k,
    ensures
        m <= front_steps(kn, k, idx, m) <= k,
        forall|j: int|
            m <= j < front_steps(kn, k, idx, m) ==> 2 * #[trigger] span_num(kn, idx, idx - k + j) >= span_den(
                kn,
                k,
                idx - k + j,
            ),
        front_steps(kn, k, idx, m) < k ==> 2 * span_num(
            kn,
            idx,
            idx - k + front_steps(kn, k, idx, m),
        ) < span_den(kn, k, idx - k + front_steps(kn, k, idx, m)),
    decreases k - m,
{
    if m < k {
        lemma_front_steps_facts(kn, k, idx, m + 1);
    }
}

proof fn lemma_ratio_falls(ti: int, tj: int, x: int, tik: int, tjk: int)
    requires
        ti <= tj <= x < tik <= tjk,
    ensures
        (x - tj) * (tik - ti) <= (x - ti) * (tjk - tj),
{
    assert((x - tj) * (tik - ti) <= (x - ti) * (tjk - tj)) by (nonlinear_arith)
        requires
            ti <= tj <= x < tik <= tjk,
    ;
}

/// The knot vector and the points after inserting `x` into a clamped curve
/// strictly inside its range have the shape that knot removal undoes.
#[verifier::spinoff_prover]
proof fn lemma_inserted_shape(knots: Seq<i64>, pts: Seq<Point2>, x: i64)
    requires
        valid_parts(knots, pts.len()),
        1 <= knots.len() - pts.len() - 1,
        clamped(knots, (knots.len() - pts.len() - 1) as nat),
        knots[0] < x < knots.last(),
        points_bounded(pts),
    ensures
        ({
            let k = knots.len() - pts.len() - 1;
            let idx = knot_insert_index(knots, x);
            let q = add_knot_parts(knots, pts, x);
            &&& k + 1 <= idx <= pts.len()
            &&& q.0 == knots.insert(idx, x)
            &&& inserted_shape(q.1, pts, q.0, k, idx)
            &&& forall|j: int| 0 <= j < idx - k ==> #[trigger] q.1[j] == pts[j]
            &&& forall|j: int| idx < j <= pts.len() ==> #[trigger] q.1[j] == pts[j - 1]
            &&& forall|i: int|
                idx - k <= i < idx ==> q.0[i] == knots[i] && q.0[i + k + 1] == knots[i + k]
                    && #[trigger] knots[i] <= x < knots[i + k]
        }),
{
    let n = pts.len() as int;
    let k = knots.len() - n - 1;
    lemma_insert_pos_exists(knots, x);
    let idx = knot_insert_index(knots, x);
    assert(insert_pos(knots, x, idx));
    assert(idx >= k + 1) by {
        if idx < k + 1 {
            assert(knots[idx] == knots[0]);
            assert(x < knots[idx]);
        }
    }
    assert(knots[n] == knots.last());
    assert(idx <= n) by {
        if idx > n {
            assert(knots[n] <= x);
        }
    }
    let kn = knots.insert(idx, x);
    let q = add_knot_parts(knots, pts, x);
    assert(q.0 == kn);
    let p2 = q.1;
    let ext = pts.insert(idx - 1, pts[idx - 1]);
    assert(p2 == inserted_points(pts, kn, k, idx));
    assert(p2.len() == n + 1);
    assert(kn.len() == n + k + 2);
    assert forall|i: int| idx - k <= i < idx implies {
        &&& 0 <= #[trigger] span_num(kn, idx, i) < span_den(kn, k, i)
        &&& p2[i] == pts[i - 1].spec_lerp(pts[i], span_num(kn, idx, i), span_den(kn, k, i))
    } by {
        assert(kn[i] == knots[i]);
        assert(kn[i + k + 1] == knots[i + k]);
        assert(knots[i] <= x);
        assert(knots[idx] <= knots[i + k]);
        assert(x < knots[idx]);
        assert(ext[i - 1] == pts[i - 1]);
        assert(ext[i] == pts[i]);
        assert(prev_point(ext, i) == pts[i - 1]);
    }
    assert forall|i: int| idx - k <= i < idx implies kn[i] == knots[i] && kn[i + k + 1] == knots[i
        + k] && #[trigger] knots[i] <= x < knots[i + k] by {
        assert(knots[idx] <= knots[i + k]);
    }
    assert(p2[idx - k - 1] == ext[idx - k - 1]);
    assert(p2[idx] == ext[idx]);
    assert forall|j: int| 0 <= j < idx - k implies #[trigger] p2[j] == pts[j] by {
        assert(p2[j] == ext[j]);
    }
    assert forall|j: int| idx < j <= n implies #[trigger] p2[j] == pts[j - 1] by {
        assert(p2[j] == ext[j]);
    }
}

/// The spans under the knot from the first that is computed from the back
/// on all have a ratio below one half, as the ratios fall along the support.
#[verifier::spinoff_prover]
proof fn lemma_rear_ratios(knots: Seq<i64>, pts: Seq<Point2>, x: i64)
    requires
        valid_parts(knots, pts.len()),
        1 <= knots.len() - pts.len() - 1,
        clamped(knots, (knots.len() - pts.len() - 1) as nat),
        knots[0] < x < knots.last(),
        points_bounded(pts),
    ensures
        ({
            let k = knots.len() - pts.len() - 1;
            let idx = knot_insert_index(knots, x);
            let kn = add_knot_parts(knots, pts, x).0;
            let l = front_steps(kn, k, idx, 0);
            &&& 0 <= l <= k
            &&& forall|j: int| 0 <= j < l ==> 2 * #[trigger] span_num(kn, idx, idx - k + j) >= span_den(kn, k, idx - k + j)
            &&& forall|i: int| idx - k + l <= i < idx ==> 2 * #[trigger] span_num(kn, idx, i) < span_den(kn, k, i)
        }),
{
    let n = pts.len() as int;
    let k = knots.len() - n - 1;
    lemma_inserted_shape(knots, pts, x);
    let idx = knot_insert_index(knots, x);
    let kn = add_knot_parts(knots, pts, x).0;
    let l = front_steps(kn, k, idx, 0);
    lemma_front_steps_facts(kn, k, idx, 0);
    assert forall|i: int| idx - k + l <= i < idx implies 2 * #[trigger] span_num(kn, idx, i) < span_den(kn, k, i) by {
        let j0 = idx - k + l;
        assert(2 * span_num(kn, idx, j0) < span_den(kn, k, j0));
        if i > j0 {
            assert(knots[j0] <= x < knots[j0 + k]);
            assert(knots[i] <= x < knots[i + k]);
            assert(knots[j0] <= knots[i]);
            assert(knots[j0 + k] <= knots[i + k]);
            lemma_ratio_falls(knots[j0] as int, knots[i] as int, x as int, knots[j0 + k] as int, knots[i + k] as int);
            let a = span_num(kn, idx, i);
            let b = span_den(kn, k, i);
            let c = span_num(kn, idx, j0);
            let d = span_den(kn, k, j0);
            assert(a == x - knots[i] && b == knots[i + k] - knots[i]);
            assert(c == x - knots[j0] && d == knots[j0 + k] - knots[j0]);
            assert(2 * a < b) by (nonlinear_arith)
                requires
                    a * d <= c * b,
                    2 * c < d,
                    d > 0,
                    b > 0,
                    a >= 0,
            ;
        }
    }
}

/// Removing the knot at `idx` from the shape that its insertion left
/// succeeds, and brings each point back within two units per degree.
#[verifier::spinoff_prover]
#[verifier::rlimit(100)]
proof fn lemma_removal_outcome(p2: Seq<Point2>, pts: Seq<Point2>, kn: Seq<i64>, k: int, idx: int)
    requires
        inserted_shape(p2, pts, kn, k, idx),
        k <= 5,
        0 <= front_steps(kn, k, idx, 0) <= k,
        forall|j: int|
            0 <= j < front_steps(kn, k, idx, 0) ==> 2 * #[trigger] span_num(kn, idx, idx - k + j)
                >= span_den(kn, k, idx - k + j),
        forall|i: int|
            idx - k + front_steps(kn, k, idx, 0) <= i < idx ==> 2 * #[trigger] span_num(kn, idx, i)
                < span_den(kn, k, i),
    ensures
        remove_knot_parts(kn, p2, idx) is Some,
        remove_knot_parts(kn, p2, idx).unwrap().0 == kn.remove(idx),
        remove_knot_parts(kn, p2, idx).unwrap().1.len() == pts.len(),
        forall|j: int|
            0 <= j < pts.len() ==> #[trigger] within_units(
                remove_knot_parts(kn, p2, idx).unwrap().1[j],
                pts[j],
                2 * k,
            ),
{
    let n = pts.len() as int;
    let l = front_steps(kn, k, idx, 0);
    lemma_front_chain(p2, pts, kn, k, idx, l as nat);
    lemma_back_chain(p2, pts, kn, k, idx, l, (k - l) as nat);
    let c = removal_chain(p2, kn, k, idx, l as nat);
    let b = removal_chain_back(p2, kn, k, idx, (k - l) as nat);
    assert(within_units(c[l], pts[idx - k - 1 + l], 2 * l));
    assert(within_units(b[k - l], pts[idx - 1 - (k - l)], 2 * (k - l)));
    assert(c.last().spec_near(b.last()));
    let written = Seq::new(
        (n + 1) as nat,
        |j: int|
            if idx - k <= j < idx - k + c.len() - 1 {
                c[j - (idx - k) + 1]
            } else if idx - k + l <= j < idx && idx - 1 - j < b.len() {
                b[idx - 1 - j]
            } else {
                p2[j]
            },
    );
    let r = remove_knot_parts(kn, p2, idx);
    assert(r == Some((kn.remove(idx), written.remove(idx))));
    assert forall|j: int| 0 <= j < n implies #[trigger] within_units(r.unwrap().1[j], pts[j], 2 * k) by {
        if j < idx - k {
            assert(r.unwrap().1[j] == p2[j]);
        } else if j < idx - k + l {
            assert(r.unwrap().1[j] == c[j - (idx - k) + 1]);
            assert(within_units(c[j - (idx - k) + 1], pts[j], 2 * (j - (idx - k) + 1)));
        } else if j < idx {
            assert(r.unwrap().1[j] == b[idx - 1 - j]);
            assert(within_units(b[idx - 1 - j], pts[j], 2 * (idx - 1 - j)));
        } else {
            assert(r.unwrap().1[j] == p2[j + 1]);
        }
    }
}

/// On a clamped curve of degree one to five, a knot added strictly inside the
/// range can be removed again: the knot vector comes back, and each control
/// point comes back within two units per degree.
#[verifier::spinoff_prover]
pub proof fn lemma_knot_round_trip_restores(knots: Seq<i64>, pts: Seq<Point2>, x: i64)
    requires
        valid_parts(knots, pts.len()),
        1 <= knots.len() - pts.len() - 1 <= 5,
        clamped(knots, (knots.len() - pts.len() - 1) as nat),
        knots[0] < x < knots.last(),
        points_bounded(pts),
    ensures
        ({
            let q = add_knot_parts(knots, pts, x);
            let r = remove_knot_parts(q.0, q.1, knot_insert_index(knots, x));
            &&& r is Some
            &&& r.unwrap().0 == knots
            &&& r.unwrap().1.len() == pts.len()
            &&& forall|j: int|
                0 <= j < pts.len() ==> #[trigger] within_units(
                    r.unwrap().1[j],
                    pts[j],
                    2 * (knots.len() - pts.len() - 1),
                )
        }),
{
    let k = knots.len() - pts.len() - 1;
    lemma_inserted_shape(knots, pts, x);
    lemma_rear_ratios(knots, pts, x);
    let idx = knot_insert_index(knots, x);
    let q = add_knot_parts(knots, pts, x);
    lemma_removal_outcome(q.1, pts, q.0, k, idx);
    assert(q.0.remove(idx) =~= knots);
}

/// Whether every coordinate of the points lies within `lim`.
pub open spec fn points_within(pts: Seq<Point2>, lim: int) -> bool {
    forall|j: int|
        0 <= j < pts.len() ==> -lim <= #[trigger] pts[j].x <= lim && -lim <= pts[j].y <= lim
}

#[verifier::spinoff_prover]
proof fn lemma_blend_close(p: Point2, q: Point2, p2: Point2, q2: Point2, e: int, lim: int, num: int, den: int)
    requires
        0 <= num <= den,
        0 <= e,
        lim <= 2 * POINT_LIMIT - 1,
        points_within(seq![p, q, p2, q2], lim),
        within_units(p, p2, e),
        within_units(q, q2, e),
    ensures
        within_units(blend(p, q, num, den), blend(p2, q2, num, den), e),
        points_within(seq![blend(p, q, num, den), blend(p2, q2, num, den)], lim + 1),
{
    let s4 = seq![p, q, p2, q2];
    assert(s4[0] == p && s4[1] == q && s4[2] == p2 && s4[3] == q2);
    assert(-lim <= s4[0].x <= lim && -lim <= s4[0].y <= lim);
    assert(-lim <= s4[1].x <= lim && -lim <= s4[1].y <= lim);
    assert(-lim <= s4[2].x <= lim && -lim <= s4[2].y <= lim);
    assert(-lim <= s4[3].x <= lim && -lim <= s4[3].y <= lim);
    let (n, d) = if den == 0 {
        (0int, 1int)
    } else {
        (num, den)
    };
    lemma_lerp_close(p.x as int, q.x as int, p2.x as int, q2.x as int, e, n, d);
    lemma_lerp_close(p.y as int, q.y as int, p2.y as int, q2.y as int, e, n, d);
    lemma_lerp_close(p2.x as int, q2.x as int, p.x as int, q.x as int, e, n, d);
    lemma_lerp_close(p2.y as int, q2.y as int, p.y as int, q.y as int, e, n, d);
    let r = blend(p, q, num, den);
    let r2 = blend(p2, q2, num, den);
    assert(r == p.spec_lerp(q, n, d));
    assert(r2 == p2.spec_lerp(q2, n, d));
    assert(seq![r, r2][0] == r && seq![r, r2][1] == r2);
}

/// De Boor's points of two point sequences that lie within `e` of each
/// other lie within `e` of each other too.
#[verifier::spinoff_prover]
proof fn lemma_de_boor_close(
    p1: Seq<Point2>,
    p2: Seq<Point2>,
    knots: Seq<i64>,
    k: int,
    tn: int,
    td: int,
    s: int,
    e: int,
    r: nat,
    j: int,
)
    requires
        sorted(knots),
        td > 0,
        0 <= k <= s,
        s + 1 < knots.len(),
        s + k < knots.len(),
        s < p1.len(),
        p1.len() == p2.len(),
        knots[s] * td <= tn <= knots[s + 1] * td,
        r <= k <= 100,
        s - k + r <= j <= s,
        0 <= e,
        points_within(p1, POINT_LIMIT + 100),
        points_within(p2, POINT_LIMIT + 100),
        forall|i: int| s - k <= i <= s ==> #[trigger] within_units(p1[i], p2[i], e),
    ensures
        within_units(
            de_boor(p1, knots, k, tn, td, r, j),
            de_boor(p2, knots, k, tn, td, r, j),
            e,
        ),
        points_within(
            seq![de_boor(p1, knots, k, tn, td, r, j), de_boor(p2, knots, k, tn, td, r, j)],
            POINT_LIMIT + 100 + r,
        ),
    decreases r,
{
    if r == 0 {
        assert(within_units(p1[j], p2[j], e));
        let sq = seq![p1[j], p2[j]];
        assert(sq[0] == p1[j] && sq[1] == p2[j]);
        assert(-(POINT_LIMIT + 100) <= p1[j].x <= POINT_LIMIT + 100);
        assert(-(POINT_LIMIT + 100) <= p2[j].x <= POINT_LIMIT + 100);
    } else {
        let r1 = (r - 1) as nat;
        lemma_de_boor_close(p1, p2, knots, k, tn, td, s, e, r1, j - 1);
        lemma_de_boor_close(p1, p2, knots, k, tn, td, s, e, r1, j);
        let a = de_boor(p1, knots, k, tn, td, r1, j - 1);
        let b = de_boor(p1, knots, k, tn, td, r1, j);
        let a2 = de_boor(p2, knots, k, tn, td, r1, j - 1);
        let b2 = de_boor(p2, knots, k, tn, td, r1, j);
        let hi = j + k + 1 - r;
        assert(knots[j] <= knots[s]);
        assert(knots[s + 1] <= knots[hi]);
        let num = tn - knots[j] * td;
        let den = (knots[hi] - knots[j]) * td;
        assert(0 <= num <= den) by (nonlinear_arith)
            requires
                knots[j] <= knots[s],
                knots[s + 1] <= knots[hi],
                knots[s] * td <= tn <= knots[s + 1] * td,
                td > 0,
                num == tn - knots[j] * td,
                den == (knots[hi] - knots[j]) * td,
        ;
        let lim = POINT_LIMIT + 100 + r1;
        let sa = seq![a, a2];
        let sb = seq![b, b2];
        assert(sa[0] == a && sa[1] == a2 && sb[0] == b && sb[1] == b2);
        assert(-lim <= sa[0].x <= lim && -lim <= sa[0].y <= lim);
        assert(-lim <= sa[1].x <= lim && -lim <= sa[1].y <= lim);
        assert(-lim <= sb[0].x <= lim && -lim <= sb[0].y <= lim);
        assert(-lim <= sb[1].x <= lim && -lim <= sb[1].y <= lim);
        let s4 = seq![a, b, a2, b2];
        assert(points_within(s4, lim)) by {
            assert(s4[0] == a && s4[1] == b && s4[2] == a2 && s4[3] == b2);
        }
        lemma_blend_close(a, b, a2, b2, e, lim, num, den);
    }
}

/// Evaluating two point sequences on one knot vector, where the points lie
/// within `e` of each other, gives points within `e` of each other.
pub proof fn lemma_eval_close(knots: Seq<i64>, p1: Seq<Point2>, p2: Seq<Point2>, tn: int, td: int, e: int)
    requires
        knots_ok(knots),
        p1.len() == p2.len(),
        0 <= knots.len() - p1.len() - 1 <= 100,
        in_domain(knots, p1.len() as int, tn, td),
        0 <= e,
        points_within(p1, POINT_LIMIT + 100),
        points_within(p2, POINT_LIMIT + 100),
        forall|i: int| 0 <= i < p1.len() ==> #[trigger] within_units(p1[i], p2[i], e),
    ensures
        within_units(eval(knots, p1, tn, td), eval(knots, p2, tn, td), e),
{
    let n = p1.len() as int;
    let k = knots.len() - n - 1;
    lemma_span_of(knots, tn, td, k, n - 1);
    let s = span_of(knots, tn, td, k, n - 1);
    lemma_de_boor_close(p1, p2, knots, k, tn, td, s, e, k as nat, s);
}

/// After adding a knot strictly inside the range of a clamped curve of
/// degree one to five and removing it again, the curve lies within two
/// units per degree of the original at every parameter of its range; up to
/// degree four that is within the second-order tolerance.
#[verifier::spinoff_prover]
pub proof fn lemma_knot_round_trip_shape(knots: Seq<i64>, pts: Seq<Point2>, x: i64, tn: int, td: int)
    requires
        valid_parts(knots, pts.len()),
        1 <= knots.len() - pts.len() - 1 <= 5,
        clamped(knots, (knots.len() - pts.len() - 1) as nat),
        knots[0] < x < knots.last(),
        points_bounded(pts),
        in_domain(knots, pts.len() as int, tn, td),
    ensures
        ({
            let k = knots.len() - pts.len() - 1;
            let q = add_knot_parts(knots, pts, x);
            let r = remove_knot_parts(q.0, q.1, knot_insert_index(knots, x)).unwrap();
            &&& within_units(eval(knots, r.1, tn, td), eval(knots, pts, tn, td), 2 * k)
            &&& k <= 4 ==> eval(knots, r.1, tn, td).spec_near2(eval(knots, pts, tn, td))
        }),
{
    let k = knots.len() - pts.len() - 1;
    lemma_knot_round_trip_restores(knots, pts, x);
    let q = add_knot_parts(knots, pts, x);
    let r = remove_knot_parts(q.0, q.1, knot_insert_index(knots, x)).unwrap();
    assert(points_within(pts, POINT_LIMIT + 100)) by {
        assert forall|j: int| 0 <= j < pts.len() implies -(POINT_LIMIT + 100) <= #[trigger] pts[j].x
            <= POINT_LIMIT + 100 && -(POINT_LIMIT + 100) <= pts[j].y <= POINT_LIMIT + 100 by {
            assert(-POINT_LIMIT <= pts[j].x <= POINT_LIMIT);
        }
    }
    assert(points_within(r.1, POINT_LIMIT + 100)) by {
        assert forall|j: int| 0 <= j < r.1.len() implies -(POINT_LIMIT + 100) <= #[trigger] r.1[j].x
            <= POINT_LIMIT + 100 && -(POINT_LIMIT + 100) <= r.1[j].y <= POINT_LIMIT + 100 by {
            assert(within_units(r.1[j], pts[j], 2 * k));
            assert(-POINT_LIMIT <= pts[j].x <= POINT_LIMIT);
        }
    }
    assert forall|i: int| 0 <= i < r.1.len() implies #[trigger] within_units(r.1[i], pts[i], 2 * k) by {
        assert(within_units(r.1[i], pts[i], 2 * k));
    }
    lemma_eval_close(knots, r.1, pts, tn, td, 2 * k);
}

} // verus!
