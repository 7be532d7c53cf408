//! Knot vectors: non-decreasing sequences of knots on the integer lattice.

use vstd::prelude::*;

verus! {

/// Largest magnitude of a knot. A knot times a parameter denominator, and the
/// difference of two such products, then stay within the ratios that a control
/// point accepts.
pub const KNOT_LIMIT: i64 = 1099511627776;

pub open spec fn sorted(s: Seq<i64>) -> bool {
    forall|i: int, j: int| 0 <= i <= j < s.len() ==> s[i] <= s[j]
}

pub open spec fn bounded(s: Seq<i64>) -> bool {
    forall|i: int| 0 <= i < s.len() ==> -KNOT_LIMIT <= #[trigger] s[i] <= KNOT_LIMIT
}

pub open spec fn knots_ok(s: Seq<i64>) -> bool {
    sorted(s) && bounded(s)
}

/// How many entries of `s` equal `x`.
pub open spec fn count(s: Seq<i64>, x: i64) -> nat
    decreases s.len(),
{
    if s.len() == 0 {
        0
    } else {
        count(s.drop_last(), x) + if s.last() == x {
            1nat
        } else {
            0nat
        }
    }
}

/// The knot vector reflected in the middle of its range.
pub open spec fn inverted(s: Seq<i64>) -> Seq<i64> {
    Seq::new(s.len(), |i: int| (s[0] + s[s.len() - 1] - s[s.len() - 1 - i]) as i64)
}

/// The knot vector shifted by `x`.
pub open spec fn translated(s: Seq<i64>, x: int) -> Seq<i64> {
    Seq::new(s.len(), |i: int| (s[i] + x) as i64)
}

/// The knot vector moved to start at zero and stretched by `f`.
pub open spec fn rescaled(s: Seq<i64>, f: int) -> Seq<i64> {
    Seq::new(s.len(), |i: int| ((s[i] - s[0]) * f) as i64)
}

/// The distinct values of `s` in order of first appearance, each once,
/// dropping an entry equal to the one kept before it.
pub open spec fn dedup(s: Seq<i64>) -> Seq<i64>
    decreases s.len(),
{
    if s.len() == 0 {
        seq![]
    } else {
        let d = dedup(s.drop_last());
        if d.len() > 0 && d.last() == s.last() {
            d
        } else {
            d.push(s.last())
        }
    }
}

/// Whether `s` begins and ends with `degree + 1` equal knots.
pub open spec fn clamped(s: Seq<i64>, degree: nat) -> bool {
    &&& s.len() > degree
    &&& forall|i: int| 0 <= i <= degree ==> #[trigger] s[i] == s[0]
    &&& forall|i: int| s.len() - 1 - degree <= i < s.len() ==> #[trigger] s[i] == s[s.len() - 1]
}

/// The position at which `add_knot(x)` inserts: after every knot not above `x`.
pub open spec fn insert_pos(s: Seq<i64>, x: i64, idx: int) -> bool {
    &&& 0 <= idx <= s.len()
    &&& forall|i: int| 0 <= i < idx ==> #[trigger] s[i] <= x
    &&& forall|i: int| idx <= i < s.len() ==> x < #[trigger] s[i]
}

/// An ordered sequence of parameter values on the integer lattice.
#[derive(Clone, Debug, PartialEq, Eq)]
pub struct KnotVec {
    v: Vec<i64>,
}

impl View for KnotVec {
    type V = Seq<i64>;

    closed spec fn view(&self) -> Seq<i64> {
        self.v@
    }
}

/// In a non-decreasing sequence the entries equal to `x` form one run, which
/// ends at the last entry not above `x`.
pub proof fn lemma_count_run(s: Seq<i64>, x: i64, f: int)
    requires
        sorted(s),
        0 <= f < s.len(),
        s[f] <= x,
        forall|j: int| f < j < s.len() ==> x < #[trigger] s[j],
    ensures
        count(s, x) <= f + 1,
        forall|j: int| f - count(s, x) < j <= f ==> #[trigger] s[j] == x,
    decreases s.len(),
{
    let t = s.drop_last();
    if f == s.len() - 1 {
        if s.last() == x {
            if t.len() > 0 {
                lemma_count_run(t, x, f - 1);
            }
            assert forall|j: int| f - count(s, x) < j <= f implies #[trigger] s[j] == x by {
                if j < f {
                    assert(t[j] == x);
                }
            }
        } else {
            if t.len() > 0 {
                lemma_count_run(t, x, f - 1);
                if count(t, x) > 0 {
                    assert(t[f - 1] == x);
                    assert(s[f - 1] <= s[f]);
                }
            }
        }
    } else {
        assert(s.last() != x);
        lemma_count_run(t, x, f);
        assert forall|j: int| f - count(s, x) < j <= f implies #[trigger] s[j] == x by {
            assert(t[j] == x);
        }
    }
}

impl KnotVec {
    pub open spec fn wf(&self) -> bool {
        knots_ok(self@)
    }

    /// Takes `v` as a knot vector when it is non-decreasing and its knots are
    /// within [`KNOT_LIMIT`].
    pub fn from_sorted(v: Vec<i64>) -> (r: Option<KnotVec>)
        ensures
            r.is_some() <==> knots_ok(v@),
            r matches Some(kv) ==> kv@ == v@,
    {
        let n = v.len();
        let mut i: usize = 0;
        while i < n
            invariant
                n == v.len(),
                i <= n,
                forall|j: int| 0 <= j < i ==> -KNOT_LIMIT <= #[trigger] v@[j] <= KNOT_LIMIT,
                forall|j: int| 0 < j < i ==> v@[j - 1] <= #[trigger] v@[j],
            decreases n - i,
        {
            if v[i] < -KNOT_LIMIT || v[i] > KNOT_LIMIT {
                return None;
            }
            if i > 0 && v[i - 1] > v[i] {
                assert(!sorted(v@)) by {
                    assert(v@[i - 1] > v@[i as int]);
                }
                return None;
            }
            i += 1;
        }
        assert(sorted(v@)) by {
            assert forall|a: int, b: int| 0 <= a <= b < v@.len() implies v@[a] <= v@[b] by {
                lemma_chain(v@, a, b);
            }
        }
        Some(KnotVec { v })
    }

    /// `degree + 1` knots at 0 followed by `degree + 1` knots at 1.
    pub fn bezier_knot(degree: usize) -> (r: KnotVec)
        requires
            degree < usize::MAX / 2,
        ensures
            r.wf(),
            r@.len() == 2 * degree + 2,
            forall|i: int| 0 <= i <= degree ==> #[trigger] r@[i] == 0,
            forall|i: int| degree < i < 2 * degree + 2 ==> #[trigger] r@[i] == 1,
    {
        let mut v: Vec<i64> = Vec::new();
        let mut i: usize = 0;
        while i < 2 * degree + 2
            invariant
                degree < usize::MAX / 2,
                i <= 2 * degree + 2,
                v@.len() == i,
                forall|j: int| 0 <= j < i && j <= degree ==> #[trigger] v@[j] == 0,
                forall|j: int| 0 <= j < i && j > degree ==> #[trigger] v@[j] == 1,
            decreases 2 * degree + 2 - i,
        {
            if i <= degree {
                v.push(0);
            } else {
                v.push(1);
            }
            i += 1;
        }
        KnotVec { v }
    }

    /// `degree + 1` knots at 0, one knot at each of `1 .. division`, and
    /// `degree + 1` knots at `division`.
    pub fn uniform_knot(degree: usize, division: usize) -> (r: KnotVec)
        requires
            0 < division <= KNOT_LIMIT,
            degree < usize::MAX / 4,
            division < usize::MAX / 4,
        ensures
            r.wf(),
            r@.len() == 2 * degree + division + 1,
            forall|i: int| 0 <= i <= degree ==> #[trigger] r@[i] == 0,
            forall|i: int| degree <= i <= degree + division ==> #[trigger] r@[i] == i - degree,
            forall|i: int|
                degree + division <= i < 2 * degree + division + 1 ==> #[trigger] r@[i]
                    == division,
    {
        let mut v: Vec<i64> = Vec::new();
        let total = 2 * degree + division + 1;
        let mut i: usize = 0;
        while i < total
            invariant
                total == 2 * degree + division + 1,
                0 < division <= KNOT_LIMIT,
                i <= total,
                v@.len() == i,
                forall|j: int| 0 <= j < i && j <= degree ==> #[trigger] v@[j] == 0,
                forall|j: int|
                    0 <= j < i && degree <= j <= degree + division ==> #[trigger] v@[j] == j
                        - degree,
                forall|j: int| 0 <= j < i && j >= degree + division ==> #[trigger] v@[j]
                    == division,
            decreases total - i,
        {
            if i <= degree {
                v.push(0);
            } else if i < degree + division {
                v.push((i - degree) as i64);
            } else {
                v.push(division as i64);
            }
            i += 1;
        }
        KnotVec { v }
    }

    pub fn len(&self) -> (r: usize)
        ensures
            r == self@.len(),
    {
        self.v.len()
    }

    pub fn get(&self, i: usize) -> (r: i64)
        requires
            i < self@.len(),
        ensures
            r == self@[i as int],
    {
        self.v[i]
    }

    pub fn as_vec(&self) -> (r: &Vec<i64>)
        ensures
            r@ == self@,
    {
        &self.v
    }

    /// The last knot minus the first.
    pub fn range_length(&self) -> (r: i64)
        requires
            self.wf(),
            self@.len() > 0,
        ensures
            r == self@.last() - self@[0],
            r >= 0,
    {
        self.v[self.v.len() - 1] - self.v[0]
    }

    /// The number of knots equal to the knot at `idx`.
    pub fn multiplicity(&self, idx: usize) -> (r: usize)
        requires
            idx < self@.len(),
        ensures
            r == count(self@, self@[idx as int]),
    {
        let x = self.v[idx];
        let mut c: usize = 0;
        let mut i: usize = 0;
        while i < self.v.len()
            invariant
                i <= self.v.len(),
                c == count(self.v@.subrange(0, i as int), x),
                c <= i,
            decreases self.v.len() - i,
        {
            proof {
                let s = self.v@.subrange(0, i as int + 1);
                assert(s.drop_last() =~= self.v@.subrange(0, i as int));
            }
            if self.v[i] == x {
                c += 1;
            }
            i += 1;
        }
        assert(self.v@.subrange(0, self.v@.len() as int) =~= self.v@);
        c
    }

    /// Whether both ends carry `degree + 1` equal knots.
    pub fn is_clamped(&self, degree: usize) -> (r: bool)
        requires
            self.wf(),
        ensures
            r == clamped(self@, degree as nat),
    {
        let n = self.v.len();
        if n <= degree {
            return false;
        }
        let r = self.v[degree] == self.v[0] && self.v[n - 1 - degree] == self.v[n - 1];
        proof {
            let s = self@;
            if r {
                assert forall|i: int| 0 <= i <= degree implies #[trigger] s[i] == s[0] by {
                    assert(s[0] <= s[i] <= s[degree as int]);
                }
                assert forall|i: int|
                    s.len() - 1 - degree <= i < s.len() implies #[trigger] s[i] == s[s.len()
                    - 1] by {
                    assert(s[n - 1 - degree] <= s[i] <= s[n - 1]);
                }
            }
        }
        r
    }

    /// Inserts `x` after every knot not above it, and returns its index.
    pub fn add_knot(&mut self, x: i64) -> (idx: usize)
        requires
            old(self).wf(),
            -KNOT_LIMIT <= x <= KNOT_LIMIT,
        ensures
            final(self).wf(),
            insert_pos(old(self)@, x, idx as int),
            final(self)@ == old(self)@.insert(idx as int, x),
    {
        let mut i = self.v.len();
        while i > 0 && self.v[i - 1] > x
            invariant
                i <= self.v@.len(),
                self.v@ == old(self)@,
                forall|j: int| i <= j < self.v@.len() ==> x < #[trigger] self.v@[j],
            decreases i,
        {
            i -= 1;
        }
        proof {
            let s = old(self)@;
            assert forall|j: int| 0 <= j < i implies #[trigger] s[j] <= x by {
                assert(s[j] <= s[i - 1]);
            }
        }
        self.v.insert(i, x);
        proof {
            let s = old(self)@;
            let t = self@;
            assert forall|a: int, b: int| 0 <= a <= b < t.len() implies t[a] <= t[b] by {
                if b < i {
                } else if a > i {
                    assert(t[a] == s[a - 1] && t[b] == s[b - 1]);
                } else if a == i && b > i {
                    assert(t[b] == s[b - 1]);
                } else if a < i && b > i {
                    assert(t[b] == s[b - 1]);
                    assert(s[a] <= x);
                }
            }
            assert forall|j: int| 0 <= j < t.len() implies -KNOT_LIMIT <= #[trigger] t[j]
                <= KNOT_LIMIT by {
                if j < i {
                } else if j > i {
                    assert(t[j] == s[j - 1]);
                }
            }
        }
        i
    }

    /// Removes the knot at `idx`.
    pub fn remove(&mut self, idx: usize)
        requires
            old(self).wf(),
            idx < old(self)@.len(),
        ensures
            final(self).wf(),
            final(self)@ == old(self)@.remove(idx as int),
    {
        self.v.remove(idx);
        proof {
            let s = old(self)@;
            let t = self@;
            assert forall|a: int, b: int| 0 <= a <= b < t.len() implies t[a] <= t[b] by {
                if a >= idx {
                    assert(t[a] == s[a + 1]);
                }
                if b >= idx {
                    assert(t[b] == s[b + 1]);
                }
            }
            assert forall|j: int| 0 <= j < t.len() implies -KNOT_LIMIT <= #[trigger] t[j]
                <= KNOT_LIMIT by {
                if j >= idx {
                    assert(t[j] == s[j + 1]);
                }
            }
        }
    }

    /// Reflects the knots in the middle of the range: `t` becomes
    /// `first + last - t`, read from the back.
    pub fn invert(&mut self)
        requires
            old(self).wf(),
        ensures
            final(self).wf(),
            final(self)@ == inverted(old(self)@),
    {
        let n = self.v.len();
        if n == 0 {
            assert(self@ =~= inverted(old(self)@));
            return;
        }
        let s = self.v.clone();
        let first = s[0];
        let last = s[n - 1];
        let mut out: Vec<i64> = Vec::new();
        let mut i: usize = 0;
        while i < n
            invariant
                n == s@.len(),
                n > 0,
                s@ == old(self)@,
                knots_ok(s@),
                first == s@[0],
                last == s@[n - 1],
                i <= n,
                out@ =~= inverted(s@).subrange(0, i as int),
            decreases n - i,
        {
            assert(s@[0] <= s@[n - 1 - i] <= s@[n - 1]);
            out.push(first + last - s[n - 1 - i]);
            i += 1;
        }
        self.v = out;
        proof {
            let t = self@;
            let o = old(self)@;
            assert(t =~= inverted(o));
            assert forall|a: int, b: int| 0 <= a <= b < t.len() implies t[a] <= t[b] by {
                assert(o[n - 1 - b] <= o[n - 1 - a]);
            }
            assert forall|j: int| 0 <= j < t.len() implies -KNOT_LIMIT <= #[trigger] t[j]
                <= KNOT_LIMIT by {
                assert(o[0] <= o[n - 1 - j] <= o[n - 1]);
            }
        }
    }

    /// Shifts every knot by `x`.
    pub fn translate(&mut self, x: i64)
        requires
            old(self).wf(),
            forall|i: int|
                0 <= i < old(self)@.len() ==> -KNOT_LIMIT <= #[trigger] old(self)@[i] + x
                    <= KNOT_LIMIT,
        ensures
            final(self).wf(),
            final(self)@ == translated(old(self)@, x as int),
    {
        let n = self.v.len();
        let mut i: usize = 0;
        while i < n
            invariant
                n == self.v@.len(),
                i <= n,
                forall|j: int| 0 <= j < i ==> #[trigger] self.v@[j] == old(self)@[j] + x,
                forall|j: int| i <= j < n ==> #[trigger] self.v@[j] == old(self)@[j],
                forall|j: int|
                    0 <= j < n ==> -KNOT_LIMIT <= #[trigger] old(self)@[j] + x <= KNOT_LIMIT,
            decreases n - i,
        {
            let t = self.v[i] + x;
            self.v.set(i, t);
            i += 1;
        }
        proof {
            assert(self@ =~= translated(old(self)@, x as int));
            let o = old(self)@;
            assert forall|a: int, b: int| 0 <= a <= b < self@.len() implies self@[a]
                <= self@[b] by {
                assert(o[a] <= o[b]);
            }
        }
    }

    /// The index of the last knot not above `t`, or `None` where `t` lies
    /// below the first knot.
    pub fn floor(&self, t: i64) -> (r: Option<usize>)
        requires
            self.wf(),
        ensures
            r.is_none() <==> (self@.len() == 0 || t < self@[0]),
            r matches Some(i) ==> {
                &&& i < self@.len()
                &&& self@[i as int] <= t
                &&& forall|j: int| i < j < self@.len() ==> t < #[trigger] self@[j]
            },
    {
        let mut i = self.v.len();
        while i > 0 && self.v[i - 1] > t
            invariant
                i <= self.v@.len(),
                forall|j: int| i <= j < self.v@.len() ==> t < #[trigger] self.v@[j],
            decreases i,
        {
            i -= 1;
        }
        if i == 0 {
            None
        } else {
            Some(i - 1)
        }
    }

    /// The knots with indices in `start .. end`.
    pub fn sub_vec(&self, start: usize, end: usize) -> (r: KnotVec)
        requires
            self.wf(),
            start <= end <= self@.len(),
        ensures
            r.wf(),
            r@ == self@.subrange(start as int, end as int),
    {
        let mut v: Vec<i64> = Vec::new();
        let mut i = start;
        while i < end
            invariant
                start <= i <= end <= self.v@.len(),
                v@ =~= self.v@.subrange(start as int, i as int),
            decreases end - i,
        {
            v.push(self.v[i]);
            i += 1;
        }
        KnotVec { v }
    }

    /// The distinct knot values, in increasing order.
    pub fn single_values(&self) -> (r: Vec<i64>)
        requires
            self.wf(),
        ensures
            forall|i: int, j: int| 0 <= i < j < r@.len() ==> r@[i] < r@[j],
            forall|i: int| 0 <= i < r@.len() ==> self@.contains(#[trigger] r@[i]),
            forall|i: int| 0 <= i < self@.len() ==> r@.contains(#[trigger] self@[i]),
            self@.len() > 0 ==> r@.len() > 0 && r@[0] == self@[0] && r@.last() == self@.last(),
            r@ == dedup(self@),
    {
        let mut r: Vec<i64> = Vec::new();
        let n = self.v.len();
        let mut i: usize = 0;
        while i < n
            invariant
                n == self@.len(),
                self.wf(),
                i <= n,
                i > 0 ==> r@.len() > 0 && r@.last() == self@[i - 1] && r@[0] == self@[0],
                i == 0 ==> r@.len() == 0,
                r@ == dedup(self@.subrange(0, i as int)),
                forall|a: int, b: int| 0 <= a < b < r@.len() ==> r@[a] < r@[b],
                forall|a: int| 0 <= a < r@.len() ==> self@.contains(#[trigger] r@[a]),
                forall|a: int| 0 <= a < i ==> r@.contains(#[trigger] self@[a]),
            decreases n - i,
        {
            let x = self.v[i];
            proof {
                assert(self@.subrange(0, i + 1).drop_last() =~= self@.subrange(0, i as int));
            }
            if i == 0 || r[r.len() - 1] != x {
                proof {
                    if i > 0 {
                        assert(self@[i - 1] <= self@[i as int]);
                    }
                }
                let ghost r0 = r@;
                r.push(x);
                proof {
                    assert(self@.contains(self@[i as int]));
                    assert(r@[r@.len() - 1] == x);
                    assert forall|a: int| 0 <= a < i + 1 implies r@.contains(
                        #[trigger] self@[a],
                    ) by {
                        if a < i {
                            assert(r0.contains(self@[a]));
                            let w = choose|w: int| 0 <= w < r0.len() && r0[w] == self@[a];
                            assert(r@[w] == self@[a]);
                        } else {
                            assert(r@[r@.len() - 1] == self@[a]);
                        }
                    }
                }
            } else {
                proof {
                    assert(r@[r@.len() - 1] == self@[i as int]);
                }
            }
            i += 1;
        }
        assert(self@.subrange(0, n as int) =~= self@);
        r
    }

    /// The distinct knot values in increasing order, with how often each
    /// appears.
    pub fn to_single_multi(&self) -> (r: (Vec<i64>, Vec<usize>))
        requires
            self.wf(),
        ensures
            r.0@ == dedup(self@),
            r.1@.len() == r.0@.len(),
            forall|i: int| 0 <= i < r.1@.len() ==> #[trigger] r.1@[i] == count(self@, r.0@[i]),
    {
        let vals = self.single_values();
        let mut mults: Vec<usize> = Vec::new();
        let mut i: usize = 0;
        while i < vals.len()
            invariant
                self.wf(),
                i <= vals@.len(),
                mults@.len() == i,
                forall|a: int| 0 <= a < vals@.len() ==> self@.contains(#[trigger] vals@[a]),
                forall|a: int| 0 <= a < i ==> #[trigger] mults@[a] == count(self@, vals@[a]),
            decreases vals@.len() - i,
        {
            let v = vals[i];
            proof {
                assert(self@.contains(vals@[i as int]));
            }
            let f = self.floor(v).unwrap();
            proof {
                let w = choose|w: int| 0 <= w < self@.len() && self@[w] == v;
                if w > f {
                    assert(v < self@[w]);
                }
                assert(self@[w] <= self@[f as int]);
            }
            let m = self.multiplicity(f);
            mults.push(m);
            i += 1;
        }
        (vals, mults)
    }

    /// Moves the knots to start at zero and stretches them by `f`.
    pub fn rescale(&mut self, f: i64)
        requires
            old(self).wf(),
            old(self)@.len() > 0,
            f > 0,
            (old(self)@.last() - old(self)@[0]) * f <= KNOT_LIMIT,
        ensures
            final(self).wf(),
            final(self)@ == rescaled(old(self)@, f as int),
    {
        let n = self.v.len();
        let first = self.v[0];
        let ghost o = old(self)@;
        let mut i: usize = 0;
        while i < n
            invariant
                n == self.v@.len(),
                n == o.len(),
                n > 0,
                first == o[0],
                knots_ok(o),
                f > 0,
                (o.last() - o[0]) * f <= KNOT_LIMIT,
                i <= n,
                forall|j: int| 0 <= j < i ==> #[trigger] self.v@[j] == (o[j] - o[0]) * f,
                forall|j: int| i <= j < n ==> #[trigger] self.v@[j] == o[j],
            decreases n - i,
        {
            let t = self.v[i];
            proof {
                assert(o[0] <= o[i as int] <= o[n - 1]);
                assert(0 <= (o[i as int] - o[0]) * f <= (o.last() - o[0]) * f) by (nonlinear_arith)
                    requires
                        0 <= o[i as int] - o[0] <= o.last() - o[0],
                        f > 0,
                ;
            }
            self.v.set(i, (t - first) * f);
            i += 1;
        }
        proof {
            assert(self@ =~= rescaled(o, f as int));
            assert forall|a: int, b: int| 0 <= a <= b < n implies self@[a] <= self@[b] by {
                assert((o[a] - o[0]) * f <= (o[b] - o[0]) * f) by (nonlinear_arith)
                    requires
                        o[a] <= o[b],
                        f > 0,
                ;
            }
            assert forall|j: int| 0 <= j < n implies -KNOT_LIMIT <= #[trigger] self@[j] <= KNOT_LIMIT by {
                assert(o[0] <= o[j] <= o[n - 1]);
                assert(0 <= (o[j] - o[0]) * f <= (o.last() - o[0]) * f) by (nonlinear_arith)
                    requires
                        0 <= o[j] - o[0] <= o.last() - o[0],
                        f > 0,
                ;
            }
        }
    }
}

proof fn lemma_chain(s: Seq<i64>, a: int, b: int)
    requires
        0 <= a <= b < s.len(),
        forall|j: int| 0 < j < s.len() ==> s[j - 1] <= #[trigger] s[j],
    ensures
        s[a] <= s[b],
    decreases b - a,
{
    if a < b {
        lemma_chain(s, a, b - 1);
        assert(s[b - 1] <= s[b]);
    }
}

} // verus!
