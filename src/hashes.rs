//! Snapping of nearby coordinates and points onto canonical values, in O(1).
//!
//! A snapper cuts the line into buckets of `precision` units and keeps, for
//! each bucket, the first coordinate seen there. A coordinate is snapped to
//! the value kept in the bucket before its own, in its own, or in the one
//! after, first found in that order; when all three are empty it is kept in
//! its own bucket and returned unchanged.
use std::collections::HashMap;
use vstd::prelude::*;
use crate::point::Point;

verus! {

broadcast use vstd::std_specs::hash::group_hash_axioms;

/// The bucket of coordinate `c`: `c` divided by `precision`, rounded down.
pub open spec fn bucket(precision: int, c: int) -> int {
    c / precision
}

/// Bucket `k` holds a canonical coordinate.
pub open spec fn occupied(m: Map<i64, i64>, k: int) -> bool {
    i64::MIN <= k <= i64::MAX && m.contains_key(k as i64)
}

/// Each kept coordinate lies in the bucket that keeps it, and no two
/// neighbouring buckets both keep one.
pub open spec fn canonical_map(m: Map<i64, i64>, precision: int) -> bool {
    &&& precision > 0
    &&& forall|k: i64| #[trigger] m.contains_key(k) ==> bucket(precision, m[k] as int) == k
    &&& forall|k: i64| #[trigger] m.contains_key(k) ==> !occupied(m, k + 1)
}

/// What `c` snaps to, given the kept coordinates `m`.
pub open spec fn snapped(m: Map<i64, i64>, precision: int, c: i64) -> i64 {
    let k = bucket(precision, c as int);
    if occupied(m, k - 1) {
        m[(k - 1) as i64]
    } else if occupied(m, k) {
        m[k as i64]
    } else if occupied(m, k + 1) {
        m[(k + 1) as i64]
    } else {
        c
    }
}

/// The kept coordinates after snapping `c`.
pub open spec fn snap_map(m: Map<i64, i64>, precision: int, c: i64) -> Map<i64, i64> {
    let k = bucket(precision, c as int);
    if occupied(m, k - 1) || occupied(m, k) || occupied(m, k + 1) {
        m
    } else {
        m.insert(k as i64, c)
    }
}

proof fn lemma_bucket_in_range(precision: int, c: int)
    requires
        precision > 0,
        i64::MIN <= c <= i64::MAX,
    ensures
        i64::MIN <= bucket(precision, c) <= i64::MAX,
{
    vstd::arithmetic::div_mod::lemma_fundamental_div_mod(c, precision);
    let q = c / precision;
    let r = c % precision;
    vstd::arithmetic::div_mod::lemma_mod_bound(c, precision);
    assert(0 <= r < precision);
    if q > 0 {
        assert(q <= c) by (nonlinear_arith)
            requires precision >= 1, q > 0, c == precision * q + r, r >= 0;
    } else if q < 0 {
        assert(q >= c) by (nonlinear_arith)
            requires precision >= 1, q < 0, c == precision * q + r, r < precision;
    }
}

/// Snapping keeps the kept coordinates canonical.
pub proof fn lemma_snap_keeps_canonical(m: Map<i64, i64>, precision: int, c: i64)
    requires
        canonical_map(m, precision),
    ensures
        canonical_map(snap_map(m, precision, c), precision),
        snap_map(m, precision, c).contains_key(bucket(precision, snapped(m, precision, c) as int) as i64),
        snap_map(m, precision, c)[bucket(precision, snapped(m, precision, c) as int) as i64] == snapped(
            m,
            precision,
            c,
        ),
{
    let k = bucket(precision, c as int);
    lemma_bucket_in_range(precision, c as int);
    let m1 = snap_map(m, precision, c);
    if !(occupied(m, k - 1) || occupied(m, k) || occupied(m, k + 1)) {
        assert forall|j: i64| #[trigger] m1.contains_key(j) implies !occupied(m1, j + 1) by {
            if j != k {
                assert(m.contains_key(j));
                if j + 1 == k {
                    assert(!occupied(m, j as int + 1));
                }
            }
        }
    }
}

/// Snapping an already snapped coordinate gives it back and keeps nothing new.
pub proof fn lemma_snap_idempotent(m: Map<i64, i64>, precision: int, c: i64)
    requires
        canonical_map(m, precision),
    ensures
        ({
            let c1 = snapped(m, precision, c);
            let m1 = snap_map(m, precision, c);
            snapped(m1, precision, c1) == c1 && snap_map(m1, precision, c1) == m1
        }),
{
    lemma_snap_keeps_canonical(m, precision, c);
    let c1 = snapped(m, precision, c);
    let m1 = snap_map(m, precision, c);
    let b = bucket(precision, c1 as int);
    assert(m1.contains_key(b as i64));
    if occupied(m1, b - 1) {
        assert(m1.contains_key((b - 1) as i64));
        assert(!occupied(m1, (b - 1) + 1));
    }
}

/// A coordinate closer than a third of the precision to a kept coordinate
/// `m[b]` snaps to it, unless it falls in the bucket just before `b` while
/// the bucket before that one keeps a coordinate (which then wins).
pub proof fn lemma_snap_proximity(m: Map<i64, i64>, precision: int, b: i64, c: i64)
    requires
        canonical_map(m, precision),
        m.contains_key(b),
        3 * (c - m[b]) < precision,
        3 * (m[b] - c) < precision,
        !(bucket(precision, c as int) == b - 1 && occupied(m, b - 2)),
    ensures
        snapped(m, precision, c) == m[b],
{
    let c1 = m[b] as int;
    let p = precision;
    assert(bucket(p, c1) == b);
    vstd::arithmetic::div_mod::lemma_fundamental_div_mod(c1, p);
    vstd::arithmetic::div_mod::lemma_fundamental_div_mod(c as int, p);
    let k = bucket(p, c as int);
    assert(k == b - 1 || k == b || k == b + 1) by {
        let r1 = c1 % p;
        let r = (c as int) % p;
        assert(p * b + r1 == c1);
        assert(p * k + r == c as int);
        assert(0 <= r < p && 0 <= r1 < p);
        assert(p * (k - b) < 2 * p) by (nonlinear_arith)
            requires p * b + r1 == c1, p * k + r == c as int, 0 <= r < p, 0 <= r1 < p, 3 * (c - c1) < p, p > 0;
        assert(p * (k - b) > -2 * p) by (nonlinear_arith)
            requires p * b + r1 == c1, p * k + r == c as int, 0 <= r < p, 0 <= r1 < p, 3 * (c1 - c) < p, p > 0;
        if k - b >= 2 {
            assert(p * (k - b) >= 2 * p) by (nonlinear_arith)
                requires k - b >= 2, p > 0;
        }
        if k - b <= -2 {
            assert(p * (k - b) <= -2 * p) by (nonlinear_arith)
                requires k - b <= -2, p > 0;
        }
    }
    if occupied(m, b as int - 1) {
        assert(m.contains_key((b - 1) as i64));
        assert(!occupied(m, (b - 1) + 1));
    }
    assert(!occupied(m, b as int + 1));
}

/// A coordinate that can only be obtained from a snapper.
#[derive(Clone, Copy, Debug, PartialEq, Eq, Structural, Hash, PartialOrd, Ord)]
pub struct HashKey(pub i64);

/// The bucket of `c`: `c` divided by `precision`, rounded down.
fn key(precision: i64, c: i64) -> (r: i64)
    requires
        precision > 0,
    ensures
        r == bucket(precision as int, c as int),
{
    let p = precision as u64;
    if c >= 0 {
        let q = ((c as u64) / p) as i64;
        proof {
            vstd::arithmetic::div_mod::lemma_fundamental_div_mod(c as int, p as int);
        }
        q
    } else {
        let a = (-(c + 1)) as u64;
        let q0 = a / p;
        let r0 = a % p;
        proof {
            vstd::arithmetic::div_mod::lemma_fundamental_div_mod(a as int, p as int);
            vstd::arithmetic::div_mod::lemma_mod_bound(a as int, p as int);
            assert(c as int == (-(q0 as int) - 1) * (p as int) + (p - r0 - 1)) by (nonlinear_arith)
                requires a as int == p * q0 + r0, a as int == -(c + 1);
            vstd::arithmetic::div_mod::lemma_fundamental_div_mod_converse(
                c as int,
                p as int,
                -(q0 as int) - 1,
                p - r0 - 1,
            );
        }
        -(q0 as i64) - 1
    }
}

/// Snaps nearby coordinates together in O(1).
pub struct CoordinatesHash {
    precision: i64,
    hash: HashMap<i64, i64>,
}

impl CoordinatesHash {
    /// The kept coordinates, by bucket.
    pub closed spec fn kept(&self) -> Map<i64, i64> {
        self.hash@
    }

    /// The width of a bucket.
    pub closed spec fn prec(&self) -> int {
        self.precision as int
    }

    pub open spec fn wf(&self) -> bool {
        canonical_map(self.kept(), self.prec())
    }

    /// A new snapper with buckets of `precision` units, keeping 0.
    pub fn new(precision: i64) -> (r: Self)
        requires
            precision > 0,
        ensures
            r.wf(),
            r.prec() == precision,
            r.kept() == map![0i64 => 0i64],
    {
        let mut hash: HashMap<i64, i64> = HashMap::new();
        hash.insert(0, 0);
        let r = CoordinatesHash { precision, hash };
        assert(r.kept() =~= map![0i64 => 0i64]);
        r
    }

    /// Snaps `c`: returns the coordinate kept near it, or keeps and returns
    /// `c` itself when there is none.
    pub fn add(&mut self, c: i64) -> (r: i64)
        requires
            old(self).wf(),
        ensures
            final(self).wf(),
            final(self).prec() == old(self).prec(),
            r == snapped(old(self).kept(), old(self).prec(), c),
            final(self).kept() == snap_map(old(self).kept(), old(self).prec(), c),
    {
        proof {
            lemma_snap_keeps_canonical(self.hash@, self.precision as int, c);
            lemma_bucket_in_range(self.precision as int, c as int);
        }
        let k = key(self.precision, c);
        if k > i64::MIN {
            match self.hash.get(&(k - 1)) {
                Some(v) => {
                    return *v;
                },
                None => {},
            }
        }
        match self.hash.get(&k) {
            Some(v) => {
                return *v;
            },
            None => {},
        }
        if k < i64::MAX {
            match self.hash.get(&(k + 1)) {
                Some(v) => {
                    return *v;
                },
                None => {},
            }
        }
        self.hash.insert(k, c);
        c
    }

    /// Snaps `c` and returns the result as a key.
    pub fn key(&mut self, c: i64) -> (r: HashKey)
        requires
            old(self).wf(),
        ensures
            final(self).wf(),
            final(self).prec() == old(self).prec(),
            r.0 == snapped(old(self).kept(), old(self).prec(), c),
            final(self).kept() == snap_map(old(self).kept(), old(self).prec(), c),
    {
        HashKey(self.add(c))
    }
}

/// Snaps points, each axis on its own.
pub struct PointsHash {
    pub xs: CoordinatesHash,
    pub ys: CoordinatesHash,
}

/// What `p` snaps to, given a snapper for each axis.
pub open spec fn snapped_point(xs: Map<i64, i64>, ys: Map<i64, i64>, precision: int, p: Point) -> Point {
    Point { x: snapped(xs, precision, p.x), y: snapped(ys, precision, p.y) }
}

impl PointsHash {
    pub open spec fn wf(&self) -> bool {
        &&& self.xs.wf()
        &&& self.ys.wf()
        &&& self.xs.prec() == self.ys.prec()
    }

    /// A new point snapper with buckets of `precision` units on each axis.
    pub fn new(precision: i64) -> (r: Self)
        requires
            precision > 0,
        ensures
            r.wf(),
            r.xs.prec() == precision,
            r.xs.kept() == map![0i64 => 0i64],
            r.ys.kept() == map![0i64 => 0i64],
    {
        PointsHash { xs: CoordinatesHash::new(precision), ys: CoordinatesHash::new(precision) }
    }

    /// Snaps each coordinate of `point` on its own axis.
    pub fn add(&mut self, point: Point) -> (r: Point)
        requires
            old(self).wf(),
        ensures
            final(self).wf(),
            final(self).xs.prec() == old(self).xs.prec(),
            r == snapped_point(old(self).xs.kept(), old(self).ys.kept(), old(self).xs.prec(), point),
            final(self).xs.kept() == snap_map(old(self).xs.kept(), old(self).xs.prec(), point.x),
            final(self).ys.kept() == snap_map(old(self).ys.kept(), old(self).ys.prec(), point.y),
    {
        let x = self.xs.add(point.x);
        let y = self.ys.add(point.y);
        Point::new(x, y)
    }
}

/// Snapping an already snapped point gives it back.
pub proof fn lemma_snap_point_idempotent(xs: Map<i64, i64>, ys: Map<i64, i64>, precision: int, p: Point)
    requires
        canonical_map(xs, precision),
        canonical_map(ys, precision),
    ensures
        ({
            let p1 = snapped_point(xs, ys, precision, p);
            let xs1 = snap_map(xs, precision, p.x);
            let ys1 = snap_map(ys, precision, p.y);
            snapped_point(xs1, ys1, precision, p1) == p1 && snap_map(xs1, precision, p1.x) == xs1
                && snap_map(ys1, precision, p1.y) == ys1
        }),
{
    lemma_snap_idempotent(xs, precision, p.x);
    lemma_snap_idempotent(ys, precision, p.y);
}

} // verus!
