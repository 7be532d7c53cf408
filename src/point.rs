//! The affine algebra of control points, and a fixed-point plane point.

use vstd::prelude::*;

verus! {

/// Largest magnitude of the numerator and denominator of a ratio handed to
/// [`ControlPoint::lerp`].
pub const RATIO_LIMIT: i64 = 1152921504606846976;

/// Whether `num / den` is a ratio that [`ControlPoint::lerp`] accepts.
pub open spec fn ratio_ok(num: int, den: int) -> bool {
    &&& 0 < den <= RATIO_LIMIT
    &&& -RATIO_LIMIT <= num <= RATIO_LIMIT
}

/// The affine algebra that a B-spline needs of its control points.
///
/// Every operation is described by a spec function of the implementing type,
/// so the contracts of the curve algorithms state exactly which combinations
/// of control points they compute, whatever the point type rounds to.
pub trait ControlPoint: Sized + Copy {
    /// The origin of the space.
    spec fn spec_origin() -> Self;

    /// `self + (other - self) * num / den`, as the type computes it.
    spec fn spec_lerp(&self, other: Self, num: int, den: int) -> Self;

    /// `(other - self) * num / den`, as the type computes it.
    spec fn spec_diff_scaled(&self, other: Self, num: int, den: int) -> Self;

    /// Equality up to the first-order tolerance.
    spec fn spec_near(&self, other: Self) -> bool;

    /// Equality up to the second-order tolerance.
    spec fn spec_near2(&self, other: Self) -> bool;

    fn origin() -> (r: Self)
        ensures
            r == Self::spec_origin(),
    ;

    fn lerp(&self, other: &Self, num: i64, den: i64) -> (r: Self)
        requires
            ratio_ok(num as int, den as int),
        ensures
            r == self.spec_lerp(*other, num as int, den as int),
    ;

    fn diff_scaled(&self, other: &Self, num: i64, den: i64) -> (r: Self)
        requires
            ratio_ok(num as int, den as int),
        ensures
            r == self.spec_diff_scaled(*other, num as int, den as int),
    ;

    fn near(&self, other: &Self) -> (r: bool)
        ensures
            r == self.spec_near(*other),
    ;

    fn near2(&self, other: &Self) -> (r: bool)
        ensures
            r == self.spec_near2(*other),
    ;
}

/// First-order tolerance of [`Point2`], in units of its coordinates. Each
/// operation rounds by less than one unit; a run of knot insertions followed
/// by an evaluation stays within a few units, well inside this bound.
pub const TOLERANCE: i64 = 16;

/// Second-order tolerance of [`Point2`], in units of its coordinates.
pub const TOLERANCE2: i64 = 8;

pub const COORD_MAX: i64 = 9223372036854775807;

pub const COORD_MIN: i64 = -9223372036854775808;

/// Bound on coordinates under which blending never saturates.
pub const POINT_LIMIT: i64 = 1099511627776;

/// Division rounding toward negative infinity, for a positive divisor.
pub open spec fn floor_div(a: int, d: int) -> int {
    if a >= 0 {
        a / d
    } else {
        -((-a + d - 1) / d)
    }
}

/// The nearest `i64` to `a`.
pub open spec fn saturate(a: int) -> int {
    if a > COORD_MAX {
        COORD_MAX as int
    } else if a < COORD_MIN {
        COORD_MIN as int
    } else {
        a
    }
}

/// One coordinate of an affine combination, rounded down and saturated.
pub open spec fn lerp_coord(a: int, b: int, num: int, den: int) -> int {
    saturate(a + floor_div((b - a) * num, den))
}

/// One coordinate of a scaled difference, rounded down and saturated.
pub open spec fn diff_coord(a: int, b: int, num: int, den: int) -> int {
    saturate(floor_div((b - a) * num, den))
}

/// `floor_div(a, d)` is the integer `f` with `f * d <= a < (f + 1) * d`.
pub proof fn lemma_floor_div(a: int, d: int)
    requires
        d > 0,
    ensures
        floor_div(a, d) * d <= a < (floor_div(a, d) + 1) * d,
{
    if a >= 0 {
        vstd::arithmetic::div_mod::lemma_fundamental_div_mod(a, d);
        assert(0 <= a % d < d);
        assert(floor_div(a, d) == a / d);
        assert(d * (a / d) == (a / d) * d) by (nonlinear_arith);
        assert(((a / d) + 1) * d == (a / d) * d + d) by (nonlinear_arith);
    } else {
        let b = -a + d - 1;
        vstd::arithmetic::div_mod::lemma_fundamental_div_mod(b, d);
        assert(0 <= b % d < d);
        let q = b / d;
        assert(floor_div(a, d) == -q);
        assert(d * q == q * d) by (nonlinear_arith);
        assert((-q) * d == -(q * d)) by (nonlinear_arith);
        assert((-q + 1) * d == -(q * d) + d) by (nonlinear_arith);
    }
}

/// Only `floor_div(a, d)` lies between `a / d - 1` and `a / d`.
pub proof fn lemma_floor_div_unique(a: int, d: int, f: int)
    requires
        d > 0,
        f * d <= a < (f + 1) * d,
    ensures
        floor_div(a, d) == f,
{
    lemma_floor_div(a, d);
    let g = floor_div(a, d);
    if g < f {
        assert((g + 1) * d <= f * d) by (nonlinear_arith)
            requires
                g + 1 <= f,
                d > 0,
        ;
    } else if g > f {
        assert((f + 1) * d <= g * d) by (nonlinear_arith)
            requires
                f + 1 <= g,
                d > 0,
        ;
    }
}

/// A blend with a ratio in `[0, 1]` lies between its two ends.
pub proof fn lemma_lerp_between(a: int, b: int, n: int, d: int)
    requires
        0 <= n <= d,
        d > 0,
        -POINT_LIMIT <= a <= POINT_LIMIT,
        -POINT_LIMIT <= b <= POINT_LIMIT,
    ensures
        (a <= b ==> a <= lerp_coord(a, b, n, d) <= b),
        (b < a ==> b - 1 <= lerp_coord(a, b, n, d) <= a),
{
    let f = floor_div((b - a) * n, d);
    lemma_floor_div((b - a) * n, d);
    bound_between(a, b, n, d, f);
}

proof fn bound_between(a: int, b: int, n: int, d: int, f: int)
    requires
        0 <= n <= d,
        d > 0,
        f * d <= (b - a) * n < (f + 1) * d,
        -POINT_LIMIT <= a <= POINT_LIMIT,
        -POINT_LIMIT <= b <= POINT_LIMIT,
    ensures
        -2 * POINT_LIMIT - 1 <= f <= 2 * POINT_LIMIT,
        (b >= a ==> 0 <= f <= b - a),
        (b < a ==> b - a - 1 <= f <= 0),
{
    if b >= a {
        assert(0 <= f <= b - a) by (nonlinear_arith)
            requires
                f * d <= (b - a) * n < (f + 1) * d,
                0 <= n <= d,
                d > 0,
                b >= a,
        ;
    } else {
        assert(b - a - 1 <= f <= 0) by (nonlinear_arith)
            requires
                f * d <= (b - a) * n < (f + 1) * d,
                0 <= n <= d,
                d > 0,
                b < a,
        ;
    }
}

/// Blends with one ratio in `[0, 1]` of ends that differ by at most `e`
/// differ by at most `e`: rounding down keeps the order.
pub proof fn lemma_lerp_close(a: int, b: int, a2: int, b2: int, e: int, n: int, d: int)
    requires
        0 <= n <= d,
        d > 0,
        -2 * POINT_LIMIT <= a <= 2 * POINT_LIMIT,
        -2 * POINT_LIMIT <= b <= 2 * POINT_LIMIT,
        -2 * POINT_LIMIT <= a2 <= 2 * POINT_LIMIT,
        -2 * POINT_LIMIT <= b2 <= 2 * POINT_LIMIT,
        -e <= a - a2 <= e,
        -e <= b - b2 <= e,
    ensures
        -e <= lerp_coord(a, b, n, d) - lerp_coord(a2, b2, n, d) <= e,
        (a <= b ==> a <= lerp_coord(a, b, n, d) <= b),
        (b < a ==> b - 1 <= lerp_coord(a, b, n, d) <= a),
{
    let f = floor_div((b - a) * n, d);
    let f2 = floor_div((b2 - a2) * n, d);
    lemma_floor_div((b - a) * n, d);
    lemma_floor_div((b2 - a2) * n, d);
    if b >= a {
        assert(0 <= f <= b - a) by (nonlinear_arith)
            requires
                f * d <= (b - a) * n < (f + 1) * d,
                0 <= n <= d,
                d > 0,
                b >= a,
        ;
    } else {
        assert(b - a - 1 <= f <= 0) by (nonlinear_arith)
            requires
                f * d <= (b - a) * n < (f + 1) * d,
                0 <= n <= d,
                d > 0,
                b < a,
        ;
    }
    if b2 >= a2 {
        assert(0 <= f2 <= b2 - a2) by (nonlinear_arith)
            requires
                f2 * d <= (b2 - a2) * n < (f2 + 1) * d,
                0 <= n <= d,
                d > 0,
                b2 >= a2,
        ;
    } else {
        assert(b2 - a2 - 1 <= f2 <= 0) by (nonlinear_arith)
            requires
                f2 * d <= (b2 - a2) * n < (f2 + 1) * d,
                0 <= n <= d,
                d > 0,
                b2 < a2,
        ;
    }
    let u = a * d + (b - a) * n;
    let v = a2 * d + (b2 - a2) * n;
    assert((a + f) * d <= u < (a + f + 1) * d) by (nonlinear_arith)
        requires
            f * d <= (b - a) * n < (f + 1) * d,
            u == a * d + (b - a) * n,
    ;
    assert((a2 + f2) * d <= v < (a2 + f2 + 1) * d) by (nonlinear_arith)
        requires
            f2 * d <= (b2 - a2) * n < (f2 + 1) * d,
            v == a2 * d + (b2 - a2) * n,
    ;
    assert(-e * d <= u - v <= e * d) by (nonlinear_arith)
        requires
            u == a * d + (b - a) * n,
            v == a2 * d + (b2 - a2) * n,
            -e <= a - a2 <= e,
            -e <= b - b2 <= e,
            0 <= n <= d,
    ;
    assert(-e <= (a + f) - (a2 + f2) <= e) by (nonlinear_arith)
        requires
            (a + f) * d <= u < (a + f + 1) * d,
            (a2 + f2) * d <= v < (a2 + f2 + 1) * d,
            -e * d <= u - v <= e * d,
            d > 0,
    ;
}

/// The step that undoes a blend by extrapolation, from a start `e` units
/// off: where `f` is the rounded blend offset `(b - a) * n / d` and the step
/// scales by `d / n <= 2`, it ends at most `e_max + 2` units off `b - a`.
proof fn lemma_undo_step(f: int, e: int, e_max: int, ba: int, n: int, d: int)
    requires
        0 < n <= d,
        2 * n >= d,
        f * d <= ba * n < (f + 1) * d,
        -e_max <= e <= e_max,
    ensures
        -e_max - 2 <= e + floor_div((f - e) * d, n) - ba <= e_max,
{
    let g = floor_div((f - e) * d, n);
    lemma_floor_div((f - e) * d, n);
    assert((e + g - ba) * n <= e * (n - d)) by (nonlinear_arith)
        requires
            g * n <= (f - e) * d,
            f * d <= ba * n,
    ;
    assert(e * (n - d) <= e_max * n) by (nonlinear_arith)
        requires
            -e_max <= e <= e_max,
            0 <= d - n <= n,
    ;
    assert(e + g - ba <= e_max) by (nonlinear_arith)
        requires
            (e + g - ba) * n <= e_max * n,
            n > 0,
    ;
    assert((e + g - ba) * n > e * (n - d) - n - d) by (nonlinear_arith)
        requires
            (f - e) * d < (g + 1) * n,
            ba * n < (f + 1) * d,
    ;
    assert(e * (n - d) - n - d >= -(e_max + 3) * n) by (nonlinear_arith)
        requires
            -e_max <= e <= e_max,
            0 <= d - n <= n,
            n > 0,
    ;
    assert(e + g - ba > -(e_max + 3)) by (nonlinear_arith)
        requires
            (e + g - ba) * n > -(e_max + 3) * n,
            n > 0,
    ;
}

/// Undoing a blend toward `b` by `n / d >= 1/2` from a start within `e_max`
/// units of `a` ends within `e_max + 2` units of `b`.
pub proof fn lemma_undo_front(a: int, b: int, c: int, e_max: int, n: int, d: int)
    requires
        0 < n <= d,
        2 * n >= d,
        -POINT_LIMIT <= a <= POINT_LIMIT,
        -POINT_LIMIT <= b <= POINT_LIMIT,
        0 <= e_max <= 1000,
        -e_max <= c - a <= e_max,
    ensures
        -e_max - 2 <= lerp_coord(c, lerp_coord(a, b, n, d), d, n) - b <= e_max,
{
    let f = floor_div((b - a) * n, d);
    lemma_floor_div((b - a) * n, d);
    bound_between(a, b, n, d, f);
    let q = a + f;
    assert(lerp_coord(a, b, n, d) == q);
    let e = c - a;
    assert(q - c == f - e);
    lemma_undo_step(f, e, e_max, b - a, n, d);
}

/// Undoing a blend toward `b` by `n / d < 1/2` from the `b` end, from a start
/// within `e_max` units of `b`, ends within `e_max + 2` units of `a`.
pub proof fn lemma_undo_rear(a: int, b: int, c: int, e_max: int, n: int, d: int)
    requires
        0 <= n,
        2 * n < d,
        -POINT_LIMIT <= a <= POINT_LIMIT,
        -POINT_LIMIT <= b <= POINT_LIMIT,
        0 <= e_max <= 1000,
        -e_max <= c - b <= e_max,
    ensures
        -e_max - 2 <= lerp_coord(c, lerp_coord(a, b, n, d), d, d - n) - a <= e_max,
{
    let f = floor_div((b - a) * n, d);
    lemma_floor_div((b - a) * n, d);
    bound_between(a, b, n, d, f);
    let q = a + f;
    assert(lerp_coord(a, b, n, d) == q);
    let m = d - n;
    let h = f - (b - a);
    assert(h * d <= (a - b) * m < (h + 1) * d) by (nonlinear_arith)
        requires
            f * d <= (b - a) * n < (f + 1) * d,
            h == f - (b - a),
            m == d - n,
    ;
    let e = c - b;
    assert(q - c == h - e);
    lemma_undo_step(h, e, e_max, a - b, m, d);
}

pub open spec fn abs_diff(a: int, b: int) -> int {
    if a >= b {
        a - b
    } else {
        b - a
    }
}

/// A point of the plane in fixed-point integer coordinates.
#[derive(Clone, Copy, Debug, PartialEq, Eq, Structural)]
pub struct Point2 {
    pub x: i64,
    pub y: i64,
}

impl Point2 {
    pub fn new(x: i64, y: i64) -> (r: Point2)
        ensures
            r.x == x,
            r.y == y,
    {
        Point2 { x, y }
    }
}

fn floor_div_exec(a: i128, d: i128) -> (r: i128)
    requires
        0 < d <= RATIO_LIMIT,
        -0x4000_0000_0000_0000_0000_0000_0000_0000 < a < 0x4000_0000_0000_0000_0000_0000_0000_0000,
    ensures
        r == floor_div(a as int, d as int),
{
    if a >= 0 {
        ((a as u128) / (d as u128)) as i128
    } else {
        let m: u128 = ((-a) as u128) + (d as u128) - 1;
        let q: u128 = m / (d as u128);
        assert(q <= m) by (nonlinear_arith)
            requires
                q == m / (d as u128),
                d >= 1,
        ;
        -(q as i128)
    }
}

fn lerp_i64(a: i64, b: i64, num: i64, den: i64) -> (r: i64)
    requires
        ratio_ok(num as int, den as int),
    ensures
        r == lerp_coord(a as int, b as int, num as int, den as int),
{
    let diff: i128 = (b as i128) - (a as i128);
    assert(-0x4000_0000_0000_0000_0000_0000_0000_0000 < diff * num
        < 0x4000_0000_0000_0000_0000_0000_0000_0000) by (nonlinear_arith)
        requires
            -0x1_0000_0000_0000_0000 < diff < 0x1_0000_0000_0000_0000,
            -RATIO_LIMIT <= num <= RATIO_LIMIT,
    ;
    let prod: i128 = diff * (num as i128);
    let q: i128 = floor_div_exec(prod, den as i128);
    assert(-0x4000_0000_0000_0000_0000_0000_0000_0000 < q
        < 0x4000_0000_0000_0000_0000_0000_0000_0000) by (nonlinear_arith)
        requires
            q == floor_div(prod as int, den as int),
            -0x4000_0000_0000_0000_0000_0000_0000_0000 < prod
                < 0x4000_0000_0000_0000_0000_0000_0000_0000,
            den >= 1,
    ;
    let s: i128 = (a as i128) + q;
    if s > (COORD_MAX as i128) {
        COORD_MAX
    } else if s < (COORD_MIN as i128) {
        COORD_MIN
    } else {
        s as i64
    }
}

fn diff_i64(a: i64, b: i64, num: i64, den: i64) -> (r: i64)
    requires
        ratio_ok(num as int, den as int),
    ensures
        r == diff_coord(a as int, b as int, num as int, den as int),
{
    let diff: i128 = (b as i128) - (a as i128);
    assert(-0x4000_0000_0000_0000_0000_0000_0000_0000 < diff * num
        < 0x4000_0000_0000_0000_0000_0000_0000_0000) by (nonlinear_arith)
        requires
            -0x1_0000_0000_0000_0000 < diff < 0x1_0000_0000_0000_0000,
            -RATIO_LIMIT <= num <= RATIO_LIMIT,
    ;
    let prod: i128 = diff * (num as i128);
    let q: i128 = floor_div_exec(prod, den as i128);
    if q > (COORD_MAX as i128) {
        COORD_MAX
    } else if q < (COORD_MIN as i128) {
        COORD_MIN
    } else {
        q as i64
    }
}

fn within(a: i64, b: i64, tol: i64) -> (r: bool)
    ensures
        r == (abs_diff(a as int, b as int) <= tol),
{
    let d: i128 = if a >= b {
        (a as i128) - (b as i128)
    } else {
        (b as i128) - (a as i128)
    };
    d <= (tol as i128)
}

impl ControlPoint for Point2 {
    open spec fn spec_origin() -> Point2 {
        Point2 { x: 0, y: 0 }
    }

    open spec fn spec_lerp(&self, other: Point2, num: int, den: int) -> Point2 {
        Point2 {
            x: lerp_coord(self.x as int, other.x as int, num, den) as i64,
            y: lerp_coord(self.y as int, other.y as int, num, den) as i64,
        }
    }

    open spec fn spec_diff_scaled(&self, other: Point2, num: int, den: int) -> Point2 {
        Point2 {
            x: diff_coord(self.x as int, other.x as int, num, den) as i64,
            y: diff_coord(self.y as int, other.y as int, num, den) as i64,
        }
    }

    open spec fn spec_near(&self, other: Point2) -> bool {
        &&& abs_diff(self.x as int, other.x as int) <= TOLERANCE
        &&& abs_diff(self.y as int, other.y as int) <= TOLERANCE
    }

    open spec fn spec_near2(&self, other: Point2) -> bool {
        &&& abs_diff(self.x as int, other.x as int) <= TOLERANCE2
        &&& abs_diff(self.y as int, other.y as int) <= TOLERANCE2
    }

    fn origin() -> (r: Point2) {
        Point2 { x: 0, y: 0 }
    }

    fn lerp(&self, other: &Point2, num: i64, den: i64) -> (r: Point2) {
        Point2 { x: lerp_i64(self.x, other.x, num, den), y: lerp_i64(self.y, other.y, num, den) }
    }

    fn diff_scaled(&self, other: &Point2, num: i64, den: i64) -> (r: Point2) {
        Point2 {
            x: diff_i64(self.x, other.x, num, den),
            y: diff_i64(self.y, other.y, num, den),
        }
    }

    fn near(&self, other: &Point2) -> (r: bool) {
        within(self.x, other.x, TOLERANCE) && within(self.y, other.y, TOLERANCE)
    }

    fn near2(&self, other: &Point2) -> (r: bool) {
        within(self.x, other.x, TOLERANCE2) && within(self.y, other.y, TOLERANCE2)
    }
}

} // verus!
