//! Closed polylines in a face's parameter plane: signed area, the ray test
//! for inside points, and the division of a face by its boundary loops.

use vstd::prelude::*;
use crate::point::Point2;

verus! {

/// Largest magnitude of a coordinate of a polyline point.
pub const POLY_LIMIT: i64 = 1099511627776;

/// Largest number of points of a polyline.
pub const POLY_LEN_LIMIT: usize = 1073741824;

/// Largest magnitude of a coordinate of a ray direction.
pub const RAY_LIMIT: i64 = 524288;

/// Which side of a boolean operation a boundary loop belongs to.
#[derive(Clone, Copy, Debug, PartialEq, Eq, Structural)]
pub enum BoundaryStatus {
    And,
    Or,
    Unknown,
}

pub open spec fn poly_ok(pts: Seq<Point2>) -> bool {
    &&& pts.len() <= POLY_LEN_LIMIT
    &&& forall|i: int|
        0 <= i < pts.len() ==> -POLY_LIMIT <= #[trigger] pts[i].x <= POLY_LIMIT && -POLY_LIMIT
            <= pts[i].y <= POLY_LIMIT
}

pub open spec fn ray_ok(dx: int, dy: int) -> bool {
    &&& -RAY_LIMIT <= dx <= RAY_LIMIT
    &&& -RAY_LIMIT <= dy <= RAY_LIMIT
    &&& (dx != 0 || dy != 0)
}

/// The shoelace sum of the first `m` points: twice the signed area that the
/// edges between them sweep.
pub open spec fn shoelace(pts: Seq<Point2>, m: int) -> int
    decreases m,
{
    if m <= 1 {
        0
    } else {
        shoelace(pts, m - 1) + (pts[m - 1].x + pts[m - 2].x) * (pts[m - 1].y - pts[m - 2].y)
    }
}

/// What the edge from `p` to `q` adds to the crossing count of the ray from
/// `c` in direction `(dx, dy)`; `None` where the ray runs through the edge
/// in a way that decides nothing.
pub open spec fn crossing(p: Point2, q: Point2, c: Point2, dx: int, dy: int) -> Option<int> {
    let (ax, ay) = (p.x - c.x, p.y - c.y);
    let (bx, by) = (q.x - c.x, q.y - c.y);
    edge_count(dx * ay - dy * ax, dx * by - dy * bx, ax * by - ay * bx)
}

/// The contribution of an edge, from the sides `s0`, `s1` of the ray on which
/// its ends lie and the side `s2` of the edge on which the start of the ray lies.
pub open spec fn edge_count(s0: int, s1: int, s2: int) -> Option<int> {
    let d = s1 - s0;
    let ahead = (s2 > 0 && d > 0) || (s2 < 0 && d < 0);
    if s2 == 0 && ((s0 < 0 && s1 > 0) || (s0 > 0 && s1 < 0)) {
        None
    } else if ahead && s0 <= 0 && s1 > 0 {
        Some(1)
    } else if ahead && s0 >= 0 && s1 < 0 {
        Some(-1)
    } else {
        Some(0)
    }
}

/// The signed crossing count over the first `m` points, or `None` where an
/// edge decides nothing.
pub open spec fn winding(pts: Seq<Point2>, c: Point2, dx: int, dy: int, m: int) -> Option<int>
    decreases m,
{
    if m <= 1 {
        Some(0)
    } else {
        match winding(pts, c, dx, dy, m - 1) {
            None => None,
            Some(w) => match crossing(pts[m - 2], pts[m - 1], c, dx, dy) {
                None => None,
                Some(e) => Some(w + e),
            },
        }
    }
}

/// Whether the ray from `c` in direction `(dx, dy)` finds `c` inside.
pub open spec fn inside_by_ray(pts: Seq<Point2>, c: Point2, dx: int, dy: int) -> bool {
    match winding(pts, c, dx, dy, pts.len() as int) {
        Some(w) => w > 0,
        None => false,
    }
}

/// Whether the polyline runs counter-clockwise, enclosing a positive area.
pub open spec fn is_outer(p: PolylineCurve) -> bool {
    shoelace(p.points@, p.points@.len() as int) > 0
}

/// Whether the outer loop `j` finds the first point of loop `h` inside along
/// the ray given for `h`.
pub open spec fn holds(polys: Seq<PolylineCurve>, rays: Seq<(i64, i64)>, h: int, j: int) -> bool {
    &&& 0 <= j < polys.len()
    &&& is_outer(polys[j])
    &&& inside_by_ray(polys[j].points@, polys[h].points@[0], rays[h].0 as int, rays[h].1 as int)
}

/// Each outer loop owns itself; each other loop is owned by the first outer
/// loop, by index, that holds its first point.
pub open spec fn owners_ok(polys: Seq<PolylineCurve>, rays: Seq<(i64, i64)>, owner: Seq<usize>) -> bool {
    &&& owner.len() == polys.len()
    &&& forall|i: int|
        0 <= i < polys.len() ==> if is_outer(#[trigger] polys[i]) {
            owner[i] == i
        } else {
            holds(polys, rays, i, owner[i] as int) && forall|j: int|
                0 <= j < owner[i] ==> !holds(polys, rays, i, j)
        }
}

/// The owners of the loops, as `owners_ok` fixes them.
pub open spec fn owner_of(polys: Seq<PolylineCurve>, rays: Seq<(i64, i64)>) -> Seq<usize> {
    choose|owner: Seq<usize>| owners_ok(polys, rays, owner)
}

/// `owners_ok` admits one assignment only.
pub proof fn lemma_owner_unique(polys: Seq<PolylineCurve>, rays: Seq<(i64, i64)>, owner: Seq<usize>)
    requires
        owners_ok(polys, rays, owner),
    ensures
        owner_of(polys, rays) == owner,
{
    let other = owner_of(polys, rays);
    assert(owners_ok(polys, rays, other));
    assert forall|i: int| 0 <= i < owner.len() implies other[i] == owner[i] by {
        if !is_outer(polys[i]) {
            if other[i] < owner[i] {
                assert(holds(polys, rays, i, other[i] as int));
            } else if other[i] > owner[i] {
                assert(holds(polys, rays, i, owner[i] as int));
            }
        } else {
            assert(is_outer(polys[i]));
        }
    }
    assert(other =~= owner);
}

/// The loops of the group of the outer loop `j`: `j` itself, then the other
/// loops among the first `m` that `j` owns, by index.
pub open spec fn group_of(outer: Seq<bool>, owner: Seq<usize>, j: int, m: int) -> Seq<usize>
    decreases m,
{
    if m <= 0 {
        seq![j as usize]
    } else {
        let g = group_of(outer, owner, j, m - 1);
        if !outer[m - 1] && owner[m - 1] == j {
            g.push((m - 1) as usize)
        } else {
            g
        }
    }
}

/// The status of the first loop of `g` whose status is known.
pub open spec fn first_known(statuses: Seq<BoundaryStatus>, g: Seq<usize>) -> BoundaryStatus
    decreases g.len(),
{
    if g.len() == 0 {
        BoundaryStatus::Unknown
    } else if statuses[g[0] as int] != BoundaryStatus::Unknown {
        statuses[g[0] as int]
    } else {
        first_known(statuses, g.drop_first())
    }
}

/// The groups of the outer loops `0 .. m`, in index order, with their status.
pub open spec fn groups_upto(
    outer: Seq<bool>,
    owner: Seq<usize>,
    statuses: Seq<BoundaryStatus>,
    m: int,
) -> Seq<(Seq<usize>, BoundaryStatus)>
    decreases m,
{
    if m <= 0 {
        seq![]
    } else {
        let gs = groups_upto(outer, owner, statuses, m - 1);
        if outer[m - 1] {
            let g = group_of(outer, owner, m - 1, outer.len() as int);
            gs.push((g, first_known(statuses, g)))
        } else {
            gs
        }
    }
}

/// Relies on rand::random, which draws a value from the thread-local
/// generator; it is used for ray directions, and nothing is promised of it.
pub assume_specification<T>[ rand::random::<T> ]() -> (r: T)
    where
        rand::distributions::Standard: rand::distributions::Distribution<T>,
;

/// A closed polyline in the parameter plane.
#[derive(Clone, Debug)]
pub struct PolylineCurve {
    pub points: Vec<Point2>,
}

proof fn lemma_winding_bound(pts: Seq<Point2>, c: Point2, dx: int, dy: int, m: int)
    requires
        m >= 0,
    ensures
        winding(pts, c, dx, dy, m) matches Some(w) ==> -m <= w <= m,
    decreases m,
{
    if m > 1 {
        lemma_winding_bound(pts, c, dx, dy, m - 1);
    }
}

fn crossing_exec(p: Point2, q: Point2, c: Point2, dx: i64, dy: i64) -> (r: Option<i32>)
    requires
        -POLY_LIMIT <= p.x <= POLY_LIMIT,
        -POLY_LIMIT <= p.y <= POLY_LIMIT,
        -POLY_LIMIT <= q.x <= POLY_LIMIT,
        -POLY_LIMIT <= q.y <= POLY_LIMIT,
        -POLY_LIMIT <= c.x <= POLY_LIMIT,
        -POLY_LIMIT <= c.y <= POLY_LIMIT,
        ray_ok(dx as int, dy as int),
    ensures
        r matches Some(e) ==> crossing(p, q, c, dx as int, dy as int) == Some(e as int),
        r is None ==> crossing(p, q, c, dx as int, dy as int) is None,
{
    let ax = (p.x as i128) - (c.x as i128);
    let ay = (p.y as i128) - (c.y as i128);
    let bx = (q.x as i128) - (c.x as i128);
    let by = (q.y as i128) - (c.y as i128);
    let rx = dx as i128;
    let ry = dy as i128;
    assert(-0x1_0000_0000_0000_0000 < rx * ay < 0x1_0000_0000_0000_0000) by (nonlinear_arith)
        requires
            -0x200_0000_0000 <= ay <= 0x200_0000_0000,
            -RAY_LIMIT <= rx <= RAY_LIMIT,
    ;
    assert(-0x1_0000_0000_0000_0000 < ry * ax < 0x1_0000_0000_0000_0000) by (nonlinear_arith)
        requires
            -0x200_0000_0000 <= ax <= 0x200_0000_0000,
            -RAY_LIMIT <= ry <= RAY_LIMIT,
    ;
    assert(-0x1_0000_0000_0000_0000 < rx * by < 0x1_0000_0000_0000_0000) by (nonlinear_arith)
        requires
            -0x200_0000_0000 <= by <= 0x200_0000_0000,
            -RAY_LIMIT <= rx <= RAY_LIMIT,
    ;
    assert(-0x1_0000_0000_0000_0000 < ry * bx < 0x1_0000_0000_0000_0000) by (nonlinear_arith)
        requires
            -0x200_0000_0000 <= bx <= 0x200_0000_0000,
            -RAY_LIMIT <= ry <= RAY_LIMIT,
    ;
    assert(-0x10_0000_0000_0000_0000_0000 < ax * by < 0x10_0000_0000_0000_0000_0000)
        by (nonlinear_arith)
        requires
            -0x200_0000_0000 <= ax <= 0x200_0000_0000,
            -0x200_0000_0000 <= by <= 0x200_0000_0000,
    ;
    assert(-0x10_0000_0000_0000_0000_0000 < ay * bx < 0x10_0000_0000_0000_0000_0000)
        by (nonlinear_arith)
        requires
            -0x200_0000_0000 <= ay <= 0x200_0000_0000,
            -0x200_0000_0000 <= bx <= 0x200_0000_0000,
    ;
    let s0 = rx * ay - ry * ax;
    let s1 = rx * by - ry * bx;
    let s2 = ax * by - ay * bx;
    let d = s1 - s0;
    let ahead = (s2 > 0 && d > 0) || (s2 < 0 && d < 0);
    if s2 == 0 && ((s0 < 0 && s1 > 0) || (s0 > 0 && s1 < 0)) {
        None
    } else if ahead && s0 <= 0 && s1 > 0 {
        Some(1)
    } else if ahead && s0 >= 0 && s1 < 0 {
        Some(-1)
    } else {
        Some(0)
    }
}

impl PolylineCurve {
    pub open spec fn wf(&self) -> bool {
        poly_ok(self.points@)
    }

    /// Twice the signed area enclosed by the polyline: positive when it runs
    /// counter-clockwise.
    pub fn doubled_area(&self) -> (r: i128)
        requires
            self.wf(),
        ensures
            r == shoelace(self.points@, self.points@.len() as int),
    {
        let pts = &self.points;
        let n = pts.len();
        if n < 2 {
            return 0;
        }
        let mut sum: i128 = 0;
        let mut i: usize = 1;
        while i < n
            invariant
                pts@ == self.points@,
                poly_ok(pts@),
                n == pts@.len(),
                1 <= i <= n,
                sum == shoelace(pts@, i as int),
                -0x4_0000_0000_0000_0000_0000 * i <= sum <= 0x4_0000_0000_0000_0000_0000 * i,
            decreases n - i,
        {
            let sx = (pts[i].x as i128) + (pts[i - 1].x as i128);
            let dy = (pts[i].y as i128) - (pts[i - 1].y as i128);
            assert(-0x4_0000_0000_0000_0000_0000 <= sx * dy <= 0x4_0000_0000_0000_0000_0000)
                by (nonlinear_arith)
                requires
                    -0x200_0000_0000 <= sx <= 0x200_0000_0000,
                    -0x200_0000_0000 <= dy <= 0x200_0000_0000,
            ;
            assert(0x4_0000_0000_0000_0000_0000 * (i + 1) <= 0x4_0000_0000_0000_0000_0000
                * 0x4000_0000) by (nonlinear_arith)
                requires
                    i + 1 <= 0x4000_0000,
            ;
            sum = sum + sx * dy;
            i += 1;
        }
        sum
    }

    /// Whether the ray from `c` in direction `(dx, dy)` crosses the polyline
    /// more often from right to left than back: the test for `c` lying
    /// inside. An edge through which the ray runs undecided gives `false`.
    pub fn contains_point_along(&self, c: Point2, dx: i64, dy: i64) -> (r: bool)
        requires
            self.wf(),
            -POLY_LIMIT <= c.x <= POLY_LIMIT,
            -POLY_LIMIT <= c.y <= POLY_LIMIT,
            ray_ok(dx as int, dy as int),
        ensures
            r == inside_by_ray(self.points@, c, dx as int, dy as int),
    {
        let pts = &self.points;
        let n = pts.len();
        if n < 2 {
            return false;
        }
        let mut w: i64 = 0;
        let mut i: usize = 1;
        while i < n
            invariant
                pts@ == self.points@,
                poly_ok(pts@),
                n == pts@.len(),
                -POLY_LIMIT <= c.x <= POLY_LIMIT,
                -POLY_LIMIT <= c.y <= POLY_LIMIT,
                ray_ok(dx as int, dy as int),
                1 <= i <= n,
                winding(pts@, c, dx as int, dy as int, i as int) == Some(w as int),
            decreases n - i,
        {
            proof {
                lemma_winding_bound(pts@, c, dx as int, dy as int, i as int);
            }
            match crossing_exec(pts[i - 1], pts[i], c, dx, dy) {
                None => {
                    proof {
                        lemma_winding_none(pts@, c, dx as int, dy as int, i as int + 1, n as int);
                    }
                    return false;
                },
                Some(e) => {
                    w = w + (e as i64);
                },
            }
            i += 1;
        }
        w > 0
    }

    /// Whether `c` lies inside, by a ray in a direction drawn at random.
    pub fn contains_point(&self, c: Point2) -> (r: bool)
        requires
            self.wf(),
            -POLY_LIMIT <= c.x <= POLY_LIMIT,
            -POLY_LIMIT <= c.y <= POLY_LIMIT,
        ensures
            exists|dx: int, dy: int| ray_ok(dx, dy) && r == inside_by_ray(self.points@, c, dx, dy),
    {
        let (dx, dy) = random_direction();
        self.contains_point_along(c, dx, dy)
    }
}

proof fn lemma_winding_none(pts: Seq<Point2>, c: Point2, dx: int, dy: int, m: int, n: int)
    requires
        2 <= m <= n,
        winding(pts, c, dx, dy, m) is None,
    ensures
        winding(pts, c, dx, dy, n) is None,
    decreases n - m,
{
    if m < n {
        lemma_winding_none(pts, c, dx, dy, m + 1, n);
    } else {
    }
}

/// A direction with both coordinates within [`RAY_LIMIT`], drawn at random;
/// the rare zero vector is replaced by `(1, 0)`.
pub fn random_direction() -> (r: (i64, i64))
    ensures
        ray_ok(r.0 as int, r.1 as int),
{
    let a: u32 = rand::random::<u32>();
    let b: u32 = rand::random::<u32>();
    direction_from(a, b)
}

/// The direction that two drawn words give: the low twenty bits of each,
/// moved to be centred on zero.
pub open spec fn spec_direction(a: u32, b: u32) -> (int, int) {
    let dx = (a % 1048576) as int - 524288;
    let dy = (b % 1048576) as int - 524288;
    if dx == 0 && dy == 0 {
        (1, 0)
    } else {
        (dx, dy)
    }
}

/// The ray direction that two drawn words give; the zero vector, which
/// decides nothing, is replaced by `(1, 0)`.
pub fn direction_from(a: u32, b: u32) -> (r: (i64, i64))
    ensures
        (r.0 as int, r.1 as int) == spec_direction(a, b),
        ray_ok(r.0 as int, r.1 as int),
{
    let dx = ((a % 1048576) as i64) - 524288;
    let dy = ((b % 1048576) as i64) - 524288;
    if dx == 0 && dy == 0 {
        (1, 0)
    } else {
        (dx, dy)
    }
}

/// For each loop, the loop that owns it: an outer loop owns itself, another
/// loop goes to the first outer loop that holds its first point. `None` where
/// some loop has no such outer loop.
#[verifier::spinoff_prover]
pub fn assign_holes(polys: &Vec<PolylineCurve>, rays: &Vec<(i64, i64)>) -> (r: Option<Vec<usize>>)
    requires
        polys@.len() == rays@.len(),
        forall|i: int| 0 <= i < polys@.len() ==> (#[trigger] polys@[i]).wf() && polys@[i].points@.len() > 0,
        forall|i: int| 0 <= i < rays@.len() ==> ray_ok((#[trigger] rays@[i]).0 as int, rays@[i].1 as int),
    ensures
        r is Some <==> forall|h: int|
            0 <= h < polys@.len() && !is_outer(#[trigger] polys@[h]) ==> exists|j: int|
                holds(polys@, rays@, h, j),
        r matches Some(owner) ==> owners_ok(polys@, rays@, owner@),
{
    let n = polys.len();
    let mut outer: Vec<bool> = Vec::new();
    let mut i: usize = 0;
    while i < n
        invariant
            n == polys@.len(),
            i <= n,
            forall|a: int| 0 <= a < n ==> (#[trigger] polys@[a]).wf(),
            outer@.len() == i,
            forall|a: int| 0 <= a < i ==> #[trigger] outer@[a] == is_outer(polys@[a]),
        decreases n - i,
    {
        let a = polys[i].doubled_area();
        outer.push(a > 0);
        i += 1;
    }
    let mut owner: Vec<usize> = Vec::new();
    let mut h: usize = 0;
    while h < n
        invariant
            n == polys@.len(),
            n == rays@.len(),
            h <= n,
            forall|a: int| 0 <= a < n ==> (#[trigger] polys@[a]).wf() && polys@[a].points@.len() > 0,
            forall|a: int| 0 <= a < n ==> ray_ok((#[trigger] rays@[a]).0 as int, rays@[a].1 as int),
            outer@.len() == n,
            forall|a: int| 0 <= a < n ==> #[trigger] outer@[a] == is_outer(polys@[a]),
            owner@.len() == h,
            forall|a: int|
                0 <= a < h ==> if is_outer(#[trigger] polys@[a]) {
                    owner@[a] == a
                } else {
                    holds(polys@, rays@, a, owner@[a] as int) && forall|j: int|
                        0 <= j < owner@[a] ==> !holds(polys@, rays@, a, j)
                },
            forall|a: int|
                0 <= a < h && !is_outer(#[trigger] polys@[a]) ==> exists|j: int|
                    holds(polys@, rays@, a, j),
        decreases n - h,
    {
        if outer[h] {
            owner.push(h);
        } else {
            let c = polys[h].points[0];
            proof {
                assert(polys@[h as int].wf());
                assert(-POLY_LIMIT <= polys@[h as int].points@[0].x <= POLY_LIMIT);
            }
            let (dx, dy) = rays[h];
            let mut j: usize = 0;
            let mut found = false;
            while j < n && !found
                invariant
                    n == polys@.len(),
                    j <= n,
                    forall|a: int| 0 <= a < n ==> (#[trigger] polys@[a]).wf(),
                    outer@.len() == n,
                    forall|a: int| 0 <= a < n ==> #[trigger] outer@[a] == is_outer(polys@[a]),
                    c == polys@[h as int].points@[0],
                    (dx, dy) == rays@[h as int],
                    ray_ok(dx as int, dy as int),
                    -POLY_LIMIT <= c.x <= POLY_LIMIT,
                    -POLY_LIMIT <= c.y <= POLY_LIMIT,
                    h < n,
                    found ==> j >= 1 && holds(polys@, rays@, h as int, j - 1),
                    forall|b: int| 0 <= b < j - (if found { 1int } else { 0int }) ==> !holds(polys@, rays@, h as int, b),
                decreases n - j + (if found { 0int } else { 1int }),
            {
                if outer[j] && polys[j].contains_point_along(c, dx, dy) {
                    found = true;
                }
                j += 1;
            }
            if !found {
                proof {
                    assert(!is_outer(polys@[h as int]));
                    assert(!exists|b: int| holds(polys@, rays@, h as int, b));
                }
                return None;
            }
            owner.push(j - 1);
        }
        h += 1;
    }
    Some(owner)
}

/// The groups of loops, one for each outer loop in index order: the outer
/// loop, then the loops it owns, with the status of the first member whose
/// status is known.
#[verifier::spinoff_prover]
pub fn group_loops(outer: &Vec<bool>, owner: &Vec<usize>, statuses: &Vec<BoundaryStatus>) -> (r: Vec<
    (Vec<usize>, BoundaryStatus),
>)
    requires
        outer@.len() == owner@.len(),
        outer@.len() == statuses@.len(),
        forall|i: int| 0 <= i < owner@.len() ==> #[trigger] owner@[i] < owner@.len(),
    ensures
        r@.len() == groups_upto(outer@, owner@, statuses@, outer@.len() as int).len(),
        forall|g: int|
            0 <= g < r@.len() ==> (#[trigger] r@[g]).0@ == groups_upto(
                outer@,
                owner@,
                statuses@,
                outer@.len() as int,
            )[g].0 && r@[g].1 == groups_upto(outer@, owner@, statuses@, outer@.len() as int)[g].1,
{
    let n = outer.len();
    let mut r: Vec<(Vec<usize>, BoundaryStatus)> = Vec::new();
    let mut j: usize = 0;
    while j < n
        invariant
            n == outer@.len(),
            n == owner@.len(),
            n == statuses@.len(),
            forall|i: int| 0 <= i < n ==> #[trigger] owner@[i] < n,
            j <= n,
            r@.len() == groups_upto(outer@, owner@, statuses@, j as int).len(),
            forall|g: int|
                0 <= g < r@.len() ==> (#[trigger] r@[g]).0@ == groups_upto(
                    outer@,
                    owner@,
                    statuses@,
                    j as int,
                )[g].0 && r@[g].1 == groups_upto(outer@, owner@, statuses@, j as int)[g].1,
        decreases n - j,
    {
        if outer[j] {
            let mut members: Vec<usize> = Vec::new();
            members.push(j);
            let mut i: usize = 0;
            while i < n
                invariant
                    n == outer@.len(),
                    n == owner@.len(),
                    j < n,
                    i <= n,
                    members@ == group_of(outer@, owner@, j as int, i as int),
                    forall|a: int| 0 <= a < members@.len() ==> #[trigger] members@[a] < n,
                decreases n - i,
            {
                if !outer[i] && owner[i] == j {
                    members.push(i);
                }
                i += 1;
            }
            let ghost g = members@;
            assert(g.subrange(0, g.len() as int) =~= g);
            let mut status = BoundaryStatus::Unknown;
            let mut k: usize = 0;
            let mut done = false;
            while k < members.len() && !done
                invariant
                    members@ == g,
                    forall|a: int| 0 <= a < n ==> #[trigger] owner@[a] < n,
                    forall|a: int| 0 <= a < g.len() ==> #[trigger] g[a] < n,
                    n == statuses@.len(),
                    k <= g.len(),
                    done ==> status == first_known(statuses@, g),
                    !done ==> status == BoundaryStatus::Unknown,
                    !done ==> first_known(statuses@, g) == first_known(statuses@, g.subrange(k as int, g.len() as int)),
                decreases g.len() - k,
            {
                proof {
                    let rest = g.subrange(k as int, g.len() as int);
                    assert(rest.drop_first() =~= g.subrange(k + 1, g.len() as int));
                }
                let st = statuses[members[k]];
                if st != BoundaryStatus::Unknown {
                    status = st;
                    done = true;
                }
                k += 1;
            }
            proof {
                if !done {
                    assert(g.subrange(k as int, g.len() as int).len() == 0);
                }
                assert(status == first_known(statuses@, g));
                assert(g == group_of(outer@, owner@, j as int, outer@.len() as int));
            }
            let ghost r0 = r@;
            r.push((members, status));
            proof {
                let next = groups_upto(outer@, owner@, statuses@, j + 1);
                let prev = groups_upto(outer@, owner@, statuses@, j as int);
                assert(next == prev.push((g, first_known(statuses@, g))));
                assert(r@[r@.len() - 1].0@ == g);
                assert forall|q: int| 0 <= q < r@.len() implies (#[trigger] r@[q]).0@ == next[q].0 && r@[q].1 == next[q].1 by {
                    if q < r0.len() {
                        assert(r@[q] == r0[q]);
                    }
                }
            }
        }
        j += 1;
    }
    r
}

/// Whether executable groups hold the loops and statuses of `spec_groups`.
pub open spec fn groups_match(
    groups: Seq<(Vec<usize>, BoundaryStatus)>,
    spec_groups: Seq<(Seq<usize>, BoundaryStatus)>,
) -> bool {
    &&& groups.len() == spec_groups.len()
    &&& forall|g: int|
        0 <= g < groups.len() ==> (#[trigger] groups[g]).0@ == spec_groups[g].0 && groups[g].1
            == spec_groups[g].1
}

/// Which loops run counter-clockwise.
pub open spec fn outer_flags(polys: Seq<PolylineCurve>) -> Seq<bool> {
    Seq::new(polys.len(), |i: int| is_outer(polys[i]))
}

/// Splits the boundary loops of a face into new faces: each outer loop with
/// the loops it holds, and the status of its first member of known status.
/// `None` where a loop that is not outer lies in no outer loop.
#[verifier::spinoff_prover]
pub fn divide_one_face(
    polys: &Vec<PolylineCurve>,
    statuses: &Vec<BoundaryStatus>,
    rays: &Vec<(i64, i64)>,
) -> (r: Option<Vec<(Vec<usize>, BoundaryStatus)>>)
    requires
        polys@.len() == rays@.len(),
        polys@.len() == statuses@.len(),
        forall|i: int| 0 <= i < polys@.len() ==> (#[trigger] polys@[i]).wf() && polys@[i].points@.len() > 0,
        forall|i: int| 0 <= i < rays@.len() ==> ray_ok((#[trigger] rays@[i]).0 as int, rays@[i].1 as int),
    ensures
        r is Some <==> forall|h: int|
            0 <= h < polys@.len() && !is_outer(#[trigger] polys@[h]) ==> exists|j: int|
                holds(polys@, rays@, h, j),
        r matches Some(groups) ==> {
            &&& owners_ok(polys@, rays@, owner_of(polys@, rays@))
            &&& groups_match(
                groups@,
                groups_upto(
                    outer_flags(polys@),
                    owner_of(polys@, rays@),
                    statuses@,
                    polys@.len() as int,
                ),
            )
        },
{
    let n = polys.len();
    let mut outer: Vec<bool> = Vec::new();
    let mut i: usize = 0;
    while i < n
        invariant
            n == polys@.len(),
            i <= n,
            forall|a: int| 0 <= a < n ==> (#[trigger] polys@[a]).wf(),
            outer@.len() == i,
            forall|a: int| 0 <= a < i ==> #[trigger] outer@[a] == is_outer(polys@[a]),
        decreases n - i,
    {
        let a = polys[i].doubled_area();
        outer.push(a > 0);
        i += 1;
    }
    assert(outer@ =~= outer_flags(polys@));
    let owner = match assign_holes(polys, rays) {
        Some(o) => o,
        None => {
            return None;
        },
    };
    proof {
        assert forall|a: int| 0 <= a < owner@.len() implies #[trigger] owner@[a] < owner@.len() by {
            assert(is_outer(polys@[a]) || holds(polys@, rays@, a, owner@[a] as int));
        }
    }
    proof {
        lemma_owner_unique(polys@, rays@, owner@);
    }
    let groups = group_loops(&outer, &owner, statuses);
    Some(groups)
}

/// One ray direction drawn at random for each of `n` loops.
pub fn random_rays(n: usize) -> (r: Vec<(i64, i64)>)
    ensures
        r@.len() == n,
        forall|i: int| 0 <= i < n ==> ray_ok((#[trigger] r@[i]).0 as int, r@[i].1 as int),
{
    let mut r: Vec<(i64, i64)> = Vec::new();
    let mut i: usize = 0;
    while i < n
        invariant
            i <= n,
            r@.len() == i,
            forall|a: int| 0 <= a < i ==> ray_ok((#[trigger] r@[a]).0 as int, r@[a].1 as int),
        decreases n - i,
    {
        r.push(random_direction());
        i += 1;
    }
    r
}

/// The boundary loops of one face in its parameter plane, with the status of
/// each loop and the ray direction used to place it.
#[derive(Clone, Debug)]
pub struct FaceLoops {
    pub polys: Vec<PolylineCurve>,
    pub statuses: Vec<BoundaryStatus>,
    pub rays: Vec<(i64, i64)>,
}

/// A face of the result: the index of the face it comes from, and the loops
/// that bound it, or `None` where that face is kept whole.
#[derive(Clone, Debug, PartialEq, Eq)]
pub struct NewFace {
    pub face: usize,
    pub loops: Option<Vec<usize>>,
}

/// The faces of a shell sorted by the status of their boundary.
#[derive(Clone, Debug, PartialEq, Eq)]
pub struct DivideFacesResult {
    pub and: Vec<NewFace>,
    pub or: Vec<NewFace>,
    pub unknown: Vec<NewFace>,
}

pub open spec fn face_loops_ok(f: FaceLoops) -> bool {
    &&& f.polys@.len() == f.rays@.len()
    &&& f.polys@.len() == f.statuses@.len()
    &&& forall|i: int|
        0 <= i < f.polys@.len() ==> (#[trigger] f.polys@[i]).wf() && f.polys@[i].points@.len() > 0
    &&& forall|i: int|
        0 <= i < f.rays@.len() ==> ray_ok((#[trigger] f.rays@[i]).0 as int, f.rays@[i].1 as int)
}

pub open spec fn all_unknown(statuses: Seq<BoundaryStatus>) -> bool {
    forall|i: int| 0 <= i < statuses.len() ==> #[trigger] statuses[i] == BoundaryStatus::Unknown
}

/// Whether a face is to be divided and has a loop that lies in no outer loop.
pub open spec fn face_fails(f: FaceLoops) -> bool {
    &&& !all_unknown(f.statuses@)
    &&& !(forall|h: int|
        0 <= h < f.polys@.len() && !is_outer(#[trigger] f.polys@[h]) ==> exists|j: int|
            holds(f.polys@, f.rays@, h, j))
}

/// The faces that face `fi` gives: itself, unknown, where all its loops are
/// unknown; else one face for each group of its loops.
pub open spec fn face_entries(fi: int, f: FaceLoops) -> Seq<(int, Option<Seq<usize>>, BoundaryStatus)> {
    if all_unknown(f.statuses@) {
        seq![(fi, None::<Seq<usize>>, BoundaryStatus::Unknown)]
    } else {
        let gs = groups_upto(
            outer_flags(f.polys@),
            owner_of(f.polys@, f.rays@),
            f.statuses@,
            f.polys@.len() as int,
        );
        Seq::new(gs.len(), |g: int| (fi, Some(gs[g].0), gs[g].1))
    }
}

/// The faces that the first `m` faces give, in order.
pub open spec fn entries_upto(faces: Seq<FaceLoops>, m: int) -> Seq<(int, Option<Seq<usize>>, BoundaryStatus)>
    decreases m,
{
    if m <= 0 {
        seq![]
    } else {
        entries_upto(faces, m - 1) + face_entries(m - 1, faces[m - 1])
    }
}

/// The faces of status `st`, in order, without their status.
pub open spec fn routed(es: Seq<(int, Option<Seq<usize>>, BoundaryStatus)>, st: BoundaryStatus) -> Seq<(int, Option<Seq<usize>>)>
    decreases es.len(),
{
    if es.len() == 0 {
        seq![]
    } else {
        let r = routed(es.drop_last(), st);
        if es.last().2 == st {
            r.push((es.last().0, es.last().1))
        } else {
            r
        }
    }
}

pub open spec fn new_face_view(f: NewFace) -> (int, Option<Seq<usize>>) {
    (f.face as int, match f.loops {
        Some(v) => Some(v@),
        None => None,
    })
}

pub open spec fn new_faces_view(v: Seq<NewFace>) -> Seq<(int, Option<Seq<usize>>)> {
    Seq::new(v.len(), |i: int| new_face_view(v[i]))
}

proof fn lemma_route_push(
    es: Seq<(int, Option<Seq<usize>>, BoundaryStatus)>,
    e: (int, Option<Seq<usize>>, BoundaryStatus),
    st: BoundaryStatus,
)
    ensures
        routed(es.push(e), st) == if e.2 == st {
            routed(es, st).push((e.0, e.1))
        } else {
            routed(es, st)
        },
{
    assert(es.push(e).drop_last() =~= es);
}

fn all_unknown_exec(statuses: &Vec<BoundaryStatus>) -> (r: bool)
    ensures
        r == all_unknown(statuses@),
{
    let mut i: usize = 0;
    while i < statuses.len()
        invariant
            i <= statuses@.len(),
            forall|a: int| 0 <= a < i ==> #[trigger] statuses@[a] == BoundaryStatus::Unknown,
        decreases statuses@.len() - i,
    {
        if statuses[i] != BoundaryStatus::Unknown {
            return false;
        }
        i += 1;
    }
    true
}

fn push_routed(res: &mut DivideFacesResult, nf: NewFace, st: BoundaryStatus)
    ensures
        final(res).and@ == if st == BoundaryStatus::And {
            old(res).and@.push(nf)
        } else {
            old(res).and@
        },
        final(res).or@ == if st == BoundaryStatus::Or {
            old(res).or@.push(nf)
        } else {
            old(res).or@
        },
        final(res).unknown@ == if st == BoundaryStatus::Unknown {
            old(res).unknown@.push(nf)
        } else {
            old(res).unknown@
        },
{
    match st {
        BoundaryStatus::And => res.and.push(nf),
        BoundaryStatus::Or => res.or.push(nf),
        BoundaryStatus::Unknown => res.unknown.push(nf),
    }
}

pub open spec fn result_holds(res: DivideFacesResult, es: Seq<(int, Option<Seq<usize>>, BoundaryStatus)>) -> bool {
    &&& new_faces_view(res.and@) == routed(es, BoundaryStatus::And)
    &&& new_faces_view(res.or@) == routed(es, BoundaryStatus::Or)
    &&& new_faces_view(res.unknown@) == routed(es, BoundaryStatus::Unknown)
}

proof fn lemma_result_push(
    before: DivideFacesResult,
    after: DivideFacesResult,
    es: Seq<(int, Option<Seq<usize>>, BoundaryStatus)>,
    nf: NewFace,
    st: BoundaryStatus,
)
    requires
        result_holds(before, es),
        after.and@ == if st == BoundaryStatus::And { before.and@.push(nf) } else { before.and@ },
        after.or@ == if st == BoundaryStatus::Or { before.or@.push(nf) } else { before.or@ },
        after.unknown@ == if st == BoundaryStatus::Unknown {
            before.unknown@.push(nf)
        } else {
            before.unknown@
        },
    ensures
        result_holds(after, es.push((new_face_view(nf).0, new_face_view(nf).1, st))),
{
    let e = (new_face_view(nf).0, new_face_view(nf).1, st);
    lemma_route_push(es, e, BoundaryStatus::And);
    lemma_route_push(es, e, BoundaryStatus::Or);
    lemma_route_push(es, e, BoundaryStatus::Unknown);
    assert(new_faces_view(before.and@.push(nf)) =~= new_faces_view(before.and@).push(new_face_view(nf)));
    assert(new_faces_view(before.or@.push(nf)) =~= new_faces_view(before.or@).push(new_face_view(nf)));
    assert(new_faces_view(before.unknown@.push(nf)) =~= new_faces_view(before.unknown@).push(
        new_face_view(nf),
    ));
}

/// Divides each face of a shell by its boundary loops and sorts the new faces
/// by status. A face whose loops are all unknown is kept whole, as unknown.
/// `None` where some face to be divided has a loop in no outer loop.
#[verifier::spinoff_prover]
pub fn divide_faces(faces: &Vec<FaceLoops>) -> (r: Option<DivideFacesResult>)
    requires
        forall|f: int| 0 <= f < faces@.len() ==> face_loops_ok(#[trigger] faces@[f]),
    ensures
        r is None <==> exists|f: int| 0 <= f < faces@.len() && face_fails(#[trigger] faces@[f]),
        r matches Some(res) ==> result_holds(res, entries_upto(faces@, faces@.len() as int)),
{
    let mut res = DivideFacesResult { and: Vec::new(), or: Vec::new(), unknown: Vec::new() };
    let n = faces.len();
    let mut fi: usize = 0;
    proof {
        assert(new_faces_view(res.and@) =~= Seq::<(int, Option<Seq<usize>>)>::empty());
        assert(new_faces_view(res.or@) =~= Seq::<(int, Option<Seq<usize>>)>::empty());
        assert(new_faces_view(res.unknown@) =~= Seq::<(int, Option<Seq<usize>>)>::empty());
    }
    while fi < n
        invariant
            n == faces@.len(),
            fi <= n,
            forall|f: int| 0 <= f < n ==> face_loops_ok(#[trigger] faces@[f]),
            forall|f: int| 0 <= f < fi ==> !face_fails(#[trigger] faces@[f]),
            result_holds(res, entries_upto(faces@, fi as int)),
        decreases n - fi,
    {
        let face = &faces[fi];
        proof {
            assert(face_loops_ok(faces@[fi as int]));
        }
        let ghost before = entries_upto(faces@, fi as int);
        let ghost fe = face_entries(fi as int, *face);
        if all_unknown_exec(&face.statuses) {
            let ghost r0 = res;
            push_routed(&mut res, NewFace { face: fi, loops: None }, BoundaryStatus::Unknown);
            proof {
                lemma_result_push(r0, res, before, NewFace { face: fi, loops: None }, BoundaryStatus::Unknown);
                assert(before.push((fi as int, None::<Seq<usize>>, BoundaryStatus::Unknown)) =~= before + fe);
            }
        } else {
            let groups = match divide_one_face(&face.polys, &face.statuses, &face.rays) {
                Some(g) => g,
                None => {
                    proof {
                        assert(face_fails(faces@[fi as int]));
                    }
                    return None;
                },
            };
            let ghost gs = groups_upto(
                outer_flags(face.polys@),
                owner_of(face.polys@, face.rays@),
                face.statuses@,
                face.polys@.len() as int,
            );
            let mut g: usize = 0;
            proof {
                assert(before + fe.subrange(0, 0) =~= before);
            }
            while g < groups.len()
                invariant
                    groups_match(groups@, gs),
                    fe == Seq::new(gs.len(), |q: int| (fi as int, Some(gs[q].0), gs[q].1)),
                    g <= groups@.len(),
                    result_holds(res, before + fe.subrange(0, g as int)),
                decreases groups@.len() - g,
            {
                let members = groups[g].0.clone();
                let st = groups[g].1;
                let nf = NewFace { face: fi, loops: Some(members) };
                let ghost r0 = res;
                push_routed(&mut res, nf, st);
                proof {
                    assert(members@ == gs[g as int].0);
                    lemma_result_push(r0, res, before + fe.subrange(0, g as int), nf, st);
                    assert((before + fe.subrange(0, g as int)).push(
                        (new_face_view(nf).0, new_face_view(nf).1, st),
                    ) =~= before + fe.subrange(0, g + 1));
                }
                g += 1;
            }
            proof {
                assert(fe.subrange(0, g as int) =~= fe);
            }
        }
        fi += 1;
    }
    Some(res)
}

/// The square with corners `(0, 0)` and `(2, 2)`, run counter-clockwise and closed.
pub open spec fn square() -> Seq<Point2> {
    seq![
        Point2 { x: 0, y: 0 },
        Point2 { x: 2, y: 0 },
        Point2 { x: 2, y: 2 },
        Point2 { x: 0, y: 2 },
        Point2 { x: 0, y: 0 },
    ]
}

/// The centre of the square is inside along every ray direction.
pub proof fn lemma_square_center_inside(dx: int, dy: int)
    requires
        ray_ok(dx, dy),
    ensures
        inside_by_ray(square(), Point2 { x: 1, y: 1 }, dx, dy),
{
    let p = square();
    let c = Point2 { x: 1, y: 1 };
    assert(p[0] == Point2 { x: 0, y: 0 } && p[1] == Point2 { x: 2, y: 0 } && p[2] == Point2 {
        x: 2,
        y: 2,
    } && p[3] == Point2 { x: 0, y: 2 } && p[4] == Point2 { x: 0, y: 0 });
    assert(dx * -1 == -dx && dy * -1 == -dy && dx * 1 == dx && dy * 1 == dy) by (nonlinear_arith);
    assert(crossing(p[0], p[1], c, dx, dy) == edge_count(dy - dx, -dx - dy, 2));
    assert(crossing(p[1], p[2], c, dx, dy) == edge_count(-dx - dy, dx - dy, 2));
    assert(crossing(p[2], p[3], c, dx, dy) == edge_count(dx - dy, dx + dy, 2));
    assert(crossing(p[3], p[4], c, dx, dy) == edge_count(dx + dy, dy - dx, 2));
    reveal_with_fuel(winding, 6);
}

/// Whether the ray from `c` in direction `(dx, dy)` runs through no point of `pts`.
pub open spec fn misses_points(pts: Seq<Point2>, c: Point2, dx: int, dy: int) -> bool {
    forall|i: int|
        0 <= i < pts.len() ==> dx * (#[trigger] pts[i].y - c.y) - dy * (pts[i].x - c.x) != 0 || dx
            * (pts[i].x - c.x) + dy * (pts[i].y - c.y) <= 0
}

/// A point beyond the square is outside along every ray direction that runs
/// through no corner of the square.
pub proof fn lemma_square_far_point_outside(dx: int, dy: int)
    requires
        ray_ok(dx, dy),
        misses_points(square(), Point2 { x: 4, y: 4 }, dx, dy),
    ensures
        !inside_by_ray(square(), Point2 { x: 4, y: 4 }, dx, dy),
{
    let p = square();
    let c = Point2 { x: 4, y: 4 };
    assert(p[0] == Point2 { x: 0, y: 0 } && p[1] == Point2 { x: 2, y: 0 } && p[2] == Point2 {
        x: 2,
        y: 2,
    } && p[3] == Point2 { x: 0, y: 2 } && p[4] == Point2 { x: 0, y: 0 });
    assert(dx * -4 == -4 * dx && dy * -4 == -4 * dy && dx * -2 == -2 * dx && dy * -2 == -2 * dy)
        by (nonlinear_arith);
    assert(p[3].y == 2);
    assert(crossing(p[0], p[1], c, dx, dy) == edge_count(-4 * dx + 4 * dy, -4 * dx + 2 * dy, 8));
    assert(crossing(p[1], p[2], c, dx, dy) == edge_count(-4 * dx + 2 * dy, -2 * dx + 2 * dy, -4));
    assert(crossing(p[2], p[3], c, dx, dy) == edge_count(-2 * dx + 2 * dy, -2 * dx + 4 * dy, -4));
    assert(crossing(p[3], p[4], c, dx, dy) == edge_count(-2 * dx + 4 * dy, -4 * dx + 4 * dy, 8));
    reveal_with_fuel(winding, 6);
}

} // verus!
