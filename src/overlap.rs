//! Removal of overlapping parts among collinear segments.
//!
//! On one support line, ordered lexicographically, a segment running
//! forward adds +1 at its start and -1 at its end; one running backward
//! adds -1 at its smaller endpoint and +1 at the other, so a segment and
//! its reverse cancel. Sweeping the endpoints in order with a running
//! count, a result segment covers each stretch where the count keeps one
//! sign, in the direction of that sign. The parity variant keeps the
//! stretches covered an odd number of times, forward.
use vstd::prelude::*;
use crate::point::{Point, lex_lt};
use crate::segment::Segment;

verus! {

/// The running count before event `k`: the sum of the first `k` changes.
pub open spec fn running(e: Seq<(Point, i64)>, k: int) -> int
    decreases k,
{
    if k <= 0 {
        0
    } else {
        running(e, k - 1) + e[k - 1].1
    }
}

/// The state of a run for a count: its sign, or in the parity variant 1
/// for an odd count and 0 for an even one. A run lasts while the state
/// stays the same and is not 0.
pub open spec fn run_state(count: int, parity: bool) -> int {
    if parity {
        if count % 2 == 0 { 0 } else { 1 }
    } else if count > 0 {
        1
    } else if count < 0 {
        -1
    } else {
        0
    }
}

/// The state before event `k`.
pub open spec fn state_at(e: Seq<(Point, i64)>, k: int, parity: bool) -> int {
    run_state(running(e, k), parity)
}

/// The last event at or before `j` that changes the state (0 if none).
pub open spec fn last_change(e: Seq<(Point, i64)>, j: int, parity: bool) -> int
    decreases j,
{
    if j <= 0 {
        0
    } else if state_at(e, j, parity) != state_at(e, j + 1, parity) {
        j
    } else {
        last_change(e, j - 1, parity)
    }
}

/// The segment of a run between `o` and `x`, forward for a positive state
/// and backward for a negative one.
pub open spec fn oriented(o: Point, x: Point, state: int) -> Segment {
    if state > 0 {
        Segment { start: o, end: x }
    } else {
        Segment { start: x, end: o }
    }
}

/// Segments closed within the first `k` events: one at each event that
/// ends a run (the state was not 0 and changes), from the event that
/// opened it.
pub open spec fn closed_runs(e: Seq<(Point, i64)>, k: int, parity: bool) -> Seq<Segment>
    decreases k,
{
    if k <= 0 {
        seq![]
    } else {
        let prior = closed_runs(e, k - 1, parity);
        let before = state_at(e, k - 1, parity);
        if before != 0 && state_at(e, k, parity) != before {
            prior.push(oriented(e[last_change(e, k - 2, parity)].0, e[k - 1].0, before))
        } else {
            prior
        }
    }
}

/// Coordinate `x` (or `y` when `along_y`) of `p`.
pub open spec fn coordinate(p: Point, along_y: bool) -> int {
    if along_y { p.y as int } else { p.x as int }
}

/// Total signed displacement of the segments along one axis.
pub open spec fn displacement(s: Seq<Segment>, along_y: bool) -> int
    decreases s.len(),
{
    if s.len() == 0 {
        0
    } else {
        displacement(s.drop_last(), along_y) + coordinate(s.last().end, along_y) - coordinate(s.last().start, along_y)
    }
}

/// Total signed displacement along one axis described by the first `k`
/// events: each segment adds +1 at its start and -1 at its end, so this is
/// minus the sum of change times position.
pub open spec fn event_displacement(e: Seq<(Point, i64)>, k: int, along_y: bool) -> int
    decreases k,
{
    if k <= 0 {
        0
    } else {
        event_displacement(e, k - 1, along_y) - e[k - 1].1 * coordinate(e[k - 1].0, along_y)
    }
}

/// When no point of a line is covered twice in the same direction (the
/// count stays between -1 and 1), the kept segments have the same total
/// signed displacement, along each axis, as the segments the events come
/// from.
pub proof fn lemma_overlap_conservation(e: Seq<(Point, i64)>, along_y: bool)
    requires
        forall|k: int| 0 <= k <= e.len() ==> -1 <= #[trigger] running(e, k) <= 1,
        running(e, e.len() as int) == 0,
    ensures
        displacement(closed_runs(e, e.len() as int, false), along_y) == event_displacement(e, e.len() as int, along_y),
{
    conservation_upto(e, e.len() as int, along_y);
}

proof fn lemma_last_change_range(e: Seq<(Point, i64)>, j: int, parity: bool)
    ensures
        j >= 0 ==> 0 <= last_change(e, j, parity) <= j,
    decreases j,
{
    if j > 0 {
        lemma_last_change_range(e, j - 1, parity);
    }
}

proof fn conservation_upto(e: Seq<(Point, i64)>, k: int, along_y: bool)
    requires
        forall|j: int| 0 <= j <= e.len() ==> -1 <= #[trigger] running(e, j) <= 1,
        0 <= k <= e.len(),
    ensures
        running(e, k) == 0 ==> displacement(closed_runs(e, k, false), along_y) == event_displacement(e, k, along_y),
        running(e, k) != 0 ==> k >= 1 && displacement(closed_runs(e, k, false), along_y) == event_displacement(e, k, along_y)
            + running(e, k) * coordinate(e[last_change(e, k - 1, false)].0, along_y),
    decreases k,
{
    if k > 0 {
        conservation_upto(e, k - 1, along_y);
        lemma_last_change_range(e, k - 1, false);
        lemma_last_change_range(e, k - 2, false);
        let r0 = running(e, k - 1);
        let r1 = running(e, k);
        assert(r1 == r0 + e[k - 1].1);
        assert(-1 <= r0 <= 1 && -1 <= r1 <= 1);
        assert(state_at(e, k - 1, false) == r0 && state_at(e, k, false) == r1);
        let c = coordinate(e[k - 1].0, along_y);
        let ed0 = event_displacement(e, k - 1, along_y);
        let dd = e[k - 1].1 as int;
        assert(event_displacement(e, k, along_y) == ed0 - dd * c);
        assert(dd * c == (r1 - r0) * c);
        let prior = closed_runs(e, k - 1, false);
        let co = coordinate(e[last_change(e, k - 2, false)].0, along_y);
        if r0 != 0 {
            assert(k - 1 >= 1);
            assert(last_change(e, k - 2, false) == last_change(e, (k - 1) - 1, false));
        }
        if r0 != r1 {
            assert(last_change(e, k - 1, false) == k - 1);
        } else if k >= 2 {
            assert(last_change(e, k - 1, false) == last_change(e, k - 2, false));
        }
        if r0 != 0 && r1 != r0 {
            let seg = oriented(e[last_change(e, k - 2, false)].0, e[k - 1].0, r0);
            assert(closed_runs(e, k, false) == prior.push(seg));
            assert(prior.push(seg).drop_last() == prior);
            assert(displacement(closed_runs(e, k, false), along_y) == displacement(prior, along_y) + r0 * (c - co))
                by (nonlinear_arith)
                requires
                    r0 == 1 || r0 == -1,
                    r0 == 1 ==> displacement(closed_runs(e, k, false), along_y) == displacement(prior, along_y) + c - co,
                    r0 == -1 ==> displacement(closed_runs(e, k, false), along_y) == displacement(prior, along_y) + co - c;
            assert(displacement(prior, along_y) == ed0 + r0 * co);
            assert((r1 - r0) * c == r1 * c - r0 * c) by (nonlinear_arith);
            assert(r0 * (c - co) == r0 * c - r0 * co) by (nonlinear_arith);
        } else {
            assert(closed_runs(e, k, false) == prior);
            assert((r1 - r0) * c == r1 * c - r0 * c) by (nonlinear_arith);
        }
    }
}

/// The state of a run for a count (see `run_state`).
fn state_of(count: i128, parity: bool) -> (r: i8)
    ensures
        r as int == run_state(count as int, parity),
{
    if parity {
        proof {
            assert(count as int % 2 == (if count % 2 == 0 { 0int } else { 1int }));
        }
        if count % 2 == 0 { 0 } else { 1 }
    } else if count > 0 {
        1
    } else if count < 0 {
        -1
    } else {
        0
    }
}

/// Sweeps the events of one support line (sorted along it): keeps the
/// runs where the count keeps one sign, forward where it is positive and
/// backward where it is negative; with `parity`, the runs where it is odd,
/// forward.
pub fn sweep_line(events: &Vec<(Point, i64)>, parity: bool) -> (r: Vec<Segment>)
    ensures
        r@ == closed_runs(events@, events@.len() as int, parity),
{
    let ghost e = events@;
    let mut r: Vec<Segment> = Vec::new();
    if events.len() == 0 {
        return r;
    }
    let mut previous_point = events[0].0;
    let mut count: i128 = 0;
    let mut k: usize = 0;
    while k < events.len()
        invariant
            e == events@,
            k <= e.len(),
            count == running(e, k as int),
            -(k as int) * 0x8000_0000_0000_0000 <= count <= (k as int) * 0x8000_0000_0000_0000,
            k > 0 && run_state(count as int, parity) != 0 ==> previous_point == e[last_change(e, k - 1, parity)].0,
            r@ == closed_runs(e, k as int, parity),
        decreases e.len() - k,
    {
        let (point, change) = events[k];
        let before = state_of(count, parity);
        assert(running(e, k + 1) == running(e, k as int) + change);
        assert(k + 1 <= usize::MAX);
        assert((k as int + 1) * 0x8000_0000_0000_0000 < 0x7fff_ffff_ffff_ffff_ffff_ffff_ffff_ffff) by (nonlinear_arith)
            requires k + 1 <= usize::MAX, usize::MAX <= 0xffff_ffff_ffff_ffff;
        count = count + change as i128;
        let after = state_of(count, parity);
        if before != 0 && after != before {
            if before > 0 {
                r.push(Segment::new(previous_point, point));
            } else {
                r.push(Segment::new(point, previous_point));
            }
        }
        if after != before {
            previous_point = point;
        }
        proof {
            if k > 0 && after == before {
                assert(last_change(e, k as int, parity) == last_change(e, k - 1, parity));
            }
        }
        k = k + 1;
    }
    r
}

/// Identity of a support line (its snapped angle and snapped intercept).
pub type LineKey = (i64, i64);

/// What segment `s` on line `key` adds to the count at `p` on line `k`:
/// +1 at its start and -1 at its end.
pub open spec fn contribution(key: LineKey, s: Segment, k: LineKey, p: Point) -> int {
    if key != k {
        0
    } else {
        (if s.start == p { 1int } else { 0int }) - (if s.end == p { 1int } else { 0int })
    }
}

/// The count change at `p` on line `k` from the first `n` segments.
pub open spec fn mult(segs: Seq<(LineKey, Segment)>, n: int, k: LineKey, p: Point) -> int
    decreases n,
{
    if n <= 0 {
        0
    } else {
        mult(segs, n - 1, k, p) + contribution(segs[n - 1].0, segs[n - 1].1, k, p)
    }
}

proof fn lemma_mult_bound(segs: Seq<(LineKey, Segment)>, n: int, k: LineKey, p: Point)
    requires
        0 <= n <= segs.len(),
    ensures
        -n <= mult(segs, n, k, p) <= n,
    decreases n,
{
    if n > 0 {
        lemma_mult_bound(segs, n - 1, k, p);
    }
}

/// Entries keyed by (line, point), each present once.
pub open spec fn distinct_entries(d: Seq<(LineKey, Point, i64)>) -> bool {
    forall|j1: int, j2: int|
        0 <= j1 < d.len() && 0 <= j2 < d.len() && j1 != j2 ==> (#[trigger] d[j1].0, d[j1].1) != (#[trigger] d[j2].0, d[j2].1)
}

/// Adds `delta` to the entry of (`k`, `p`), creating it when missing.
fn bump(d: &mut Vec<(LineKey, Point, i64)>, k: LineKey, p: Point, delta: i64)
    requires
        distinct_entries(old(d)@),
        forall|j: int| 0 <= j < old(d)@.len() && (#[trigger] old(d)@[j]).0 == k && old(d)@[j].1 == p
            ==> i64::MIN < old(d)@[j].2 + delta < i64::MAX,
    ensures
        distinct_entries(final(d)@),
        final(d)@.len() == old(d)@.len() || final(d)@.len() == old(d)@.len() + 1,
        forall|j: int| 0 <= j < old(d)@.len() ==> (#[trigger] final(d)@[j]).0 == old(d)@[j].0 && final(d)@[j].1 == old(d)@[j].1
            && final(d)@[j].2 == old(d)@[j].2 + if old(d)@[j].0 == k && old(d)@[j].1 == p { delta as int } else { 0int },
        final(d)@.len() == old(d)@.len() + 1 ==> final(d)@.last() == (k, p, delta)
            && forall|j: int| 0 <= j < old(d)@.len() ==> !((#[trigger] old(d)@[j]).0 == k && old(d)@[j].1 == p),
        exists|j: int| 0 <= j < final(d)@.len() && (#[trigger] final(d)@[j]).0 == k && final(d)@[j].1 == p,
{
    let mut j: usize = 0;
    while j < d.len()
        invariant
            j <= d@.len(),
            d@ == old(d)@,
            distinct_entries(old(d)@),
            forall|i: int| 0 <= i < old(d)@.len() && (#[trigger] old(d)@[i]).0 == k && old(d)@[i].1 == p
                ==> i64::MIN < old(d)@[i].2 + delta < i64::MAX,
            forall|i: int| 0 <= i < j ==> !((#[trigger] d@[i]).0 == k && d@[i].1 == p),
        decreases d@.len() - j,
    {
        let (k2, p2, v) = d[j];
        if k2.0 == k.0 && k2.1 == k.1 && p2 == p {
            d.set(j, (k2, p2, v + delta));
            assert(d@[j as int].0 == k && d@[j as int].1 == p);
            return;
        }
        j = j + 1;
    }
    d.push((k, p, delta));
    assert(d@[d@.len() - 1].0 == k && d@[d@.len() - 1].1 == p);
}

/// Entry `a` comes before `b`: by line key, then by point.
pub open spec fn entry_lt(a: (LineKey, Point, i64), b: (LineKey, Point, i64)) -> bool {
    a.0.0 < b.0.0 || (a.0.0 == b.0.0 && (a.0.1 < b.0.1 || (a.0.1 == b.0.1 && lex_lt(a.1, b.1))))
}

fn entry_before(a: &(LineKey, Point, i64), b: &(LineKey, Point, i64)) -> (r: bool)
    ensures
        r == entry_lt(*a, *b),
{
    a.0.0 < b.0.0 || (a.0.0 == b.0.0 && (a.0.1 < b.0.1 || (a.0.1 == b.0.1 && a.1.is_before(&b.1))))
}

/// The entries of `d` with a non-zero change, strictly ordered by line key
/// and point.
fn order_entries(d: &Vec<(LineKey, Point, i64)>) -> (r: Vec<(LineKey, Point, i64)>)
    requires
        distinct_entries(d@),
    ensures
        forall|i: int, j: int| 0 <= i < j < r@.len() ==> entry_lt(#[trigger] r@[i], #[trigger] r@[j]),
        forall|x: (LineKey, Point, i64)| #[trigger] r@.contains(x) <==> (d@.contains(x) && x.2 != 0),
{
    let mut r: Vec<(LineKey, Point, i64)> = Vec::new();
    let mut i: usize = 0;
    while i < d.len()
        invariant
            i <= d@.len(),
            distinct_entries(d@),
            forall|a: int, b: int| 0 <= a < b < r@.len() ==> entry_lt(#[trigger] r@[a], #[trigger] r@[b]),
            forall|x: (LineKey, Point, i64)| #[trigger] r@.contains(x) <==> (d@.subrange(0, i as int).contains(x) && x.2 != 0),
        decreases d@.len() - i,
    {
        let x = d[i];
        let ghost before = r@;
        let ghost mut qpos: int = 0;
        if x.2 != 0 {
            let mut q: usize = 0;
            while q < r.len() && entry_before(&r[q], &x)
                invariant
                    q <= r@.len(),
                    r@ == before,
                    i < d@.len(),
                    x == d@[i as int],
                    distinct_entries(d@),
                    forall|a: int, b: int| 0 <= a < b < r@.len() ==> entry_lt(#[trigger] r@[a], #[trigger] r@[b]),
                    forall|y: (LineKey, Point, i64)| #[trigger] before.contains(y) <==> (d@.subrange(0, i as int).contains(y) && y.2 != 0),
                    forall|a: int| 0 <= a < q ==> entry_lt(#[trigger] r@[a], x),
                decreases r@.len() - q,
            {
                q = q + 1;
            }
            proof {
                // x differs from every entry kept so far by line or point
                assert forall|a: int| q <= a < r@.len() implies entry_lt(x, #[trigger] r@[a]) by {
                    assert(before.contains(r@[a]));
                    assert(d@.subrange(0, i as int).contains(r@[a]));
                    let t = choose|t: int| 0 <= t < i && d@.subrange(0, i as int)[t] == r@[a];
                    assert(d@[t] == r@[a]);
                    assert((d@[t].0, d@[t].1) != (d@[i as int].0, d@[i as int].1));
                    if q < r@.len() {
                        assert(!entry_lt(r@[q as int], x));
                        if a > q {
                            assert(entry_lt(r@[q as int], r@[a]));
                        }
                    }
                }
            }
            r.insert(q, x);
            proof {
                qpos = q as int;
                before.insert_ensures(q as int, x);
                assert forall|a: int, b: int| 0 <= a < b < r@.len() implies entry_lt(#[trigger] r@[a], #[trigger] r@[b]) by {
                    if b < q {
                    } else if b == q {
                    } else if a < q {
                        assert(r@[b] == before[b - 1]);
                        assert(entry_lt(before[a], x) && entry_lt(x, before[b - 1]));
                    } else if a == q {
                        assert(r@[b] == before[b - 1]);
                    } else {
                        assert(r@[a] == before[a - 1] && r@[b] == before[b - 1]);
                    }
                }
            }
        }
        proof {
            let pre = d@.subrange(0, i as int);
            let post = d@.subrange(0, i + 1);
            assert(post == pre.push(x));
            assert forall|y: (LineKey, Point, i64)| #[trigger] r@.contains(y) <==> (post.contains(y) && y.2 != 0) by {
                if post.contains(y) && y != x {
                    let t = choose|t: int| 0 <= t < post.len() && post[t] == y;
                    assert(pre[t] == y);
                }
                if pre.contains(y) {
                    let t = choose|t: int| 0 <= t < pre.len() && pre[t] == y;
                    assert(post[t] == y);
                }
                if x.2 != 0 {
                    before.insert_ensures(qpos, x);
                    if r@.contains(y) {
                        let t = choose|t: int| 0 <= t < r@.len() && r@[t] == y;
                        if t < qpos {
                            assert(before[t] == y);
                        } else if t > qpos {
                            assert(before[t - 1] == y);
                        }
                    }
                    if before.contains(y) {
                        let t = choose|t: int| 0 <= t < before.len() && before[t] == y;
                        if t < qpos {
                            assert(r@[t] == y);
                        } else {
                            assert(r@[t + 1] == y);
                        }
                    }
                    if y == x {
                        assert(r@[qpos] == y);
                    }
                    assert(post[i as int] == x);
                }
            }
        }
        i = i + 1;
    }
    assert(d@.subrange(0, d@.len() as int) == d@);
    r
}

/// For every (line, point), its summed count change over all segments;
/// those that sum to zero may be missing.
fn accumulate(segs: &Vec<(LineKey, Segment)>) -> (d: Vec<(LineKey, Point, i64)>)
    requires
        segs@.len() < i64::MAX,
    ensures
        distinct_entries(d@),
        forall|j: int| 0 <= j < d@.len() ==> (#[trigger] d@[j]).2 == mult(segs@, segs@.len() as int, d@[j].0, d@[j].1),
        forall|k: LineKey, p: Point| #[trigger] mult(segs@, segs@.len() as int, k, p) != 0 ==> exists|j: int|
            0 <= j < d@.len() && (#[trigger] d@[j]).0 == k && d@[j].1 == p,
{
    let mut d: Vec<(LineKey, Point, i64)> = Vec::new();
    let mut i: usize = 0;
    while i < segs.len()
        invariant
            i <= segs@.len() < i64::MAX,
            distinct_entries(d@),
            forall|j: int| 0 <= j < d@.len() ==> (#[trigger] d@[j]).2 == mult(segs@, i as int, d@[j].0, d@[j].1),
            forall|k: LineKey, p: Point| #[trigger] mult(segs@, i as int, k, p) != 0 ==> exists|j: int|
                0 <= j < d@.len() && (#[trigger] d@[j]).0 == k && d@[j].1 == p,
        decreases segs@.len() - i,
    {
        let (key, seg) = segs[i];
        let lo = seg.start;
        let hi = seg.end;
        let ghost d0 = d@;
        proof {
            assert forall|j: int| 0 <= j < d@.len() && (#[trigger] d@[j]).0 == key && d@[j].1 == lo
                implies i64::MIN < d@[j].2 + 1 < i64::MAX by {
                lemma_mult_bound(segs@, i as int, key, lo);
            }
        }
        bump(&mut d, key, lo, 1);
        let ghost d1 = d@;
        proof {
            assert forall|j: int| 0 <= j < d@.len() && (#[trigger] d@[j]).0 == key && d@[j].1 == hi
                implies i64::MIN < d@[j].2 - 1 < i64::MAX by {
                lemma_mult_bound(segs@, i as int, key, hi);
                if j < d0.len() {
                    assert(d@[j].2 == d0[j].2 + if d0[j].0 == key && d0[j].1 == lo { 1int } else { 0int });
                }
            }
        }
        bump(&mut d, key, hi, -1);
        proof {
            let n = i + 1;
            let jl = choose|jl: int| 0 <= jl < d1.len() && (#[trigger] d1[jl]).0 == key && d1[jl].1 == lo;
            assert forall|j: int| 0 <= j < d@.len() implies (#[trigger] d@[j]).2 == mult(segs@, n as int, d@[j].0, d@[j].1) by {
                let (k, p) = (d@[j].0, d@[j].1);
                assert(mult(segs@, n as int, k, p) == mult(segs@, i as int, k, p) + contribution(key, seg, k, p));
                if j < d0.len() {
                    assert(d1[j].0 == d0[j].0 && d1[j].1 == d0[j].1);
                } else if j < d1.len() {
                    assert(d1[j] == (key, lo, 1i64));
                    if mult(segs@, i as int, k, p) != 0 {
                        let j2 = choose|j2: int| 0 <= j2 < d0.len() && (#[trigger] d0[j2]).0 == k && d0[j2].1 == p;
                        assert(!(d0[j2].0 == key && d0[j2].1 == lo));
                    }
                } else {
                    assert(d@[j] == (key, hi, -1i64));
                    assert(!(d1[jl].0 == key && d1[jl].1 == hi));
                    if mult(segs@, i as int, k, p) != 0 {
                        let j2 = choose|j2: int| 0 <= j2 < d0.len() && (#[trigger] d0[j2]).0 == k && d0[j2].1 == p;
                        assert(d1[j2].0 == k && d1[j2].1 == p);
                    }
                }
            }
            assert forall|k: LineKey, p: Point| #[trigger] mult(segs@, n as int, k, p) != 0 implies exists|j: int|
                0 <= j < d@.len() && (#[trigger] d@[j]).0 == k && d@[j].1 == p by {
                assert(mult(segs@, n as int, k, p) == mult(segs@, i as int, k, p) + contribution(key, seg, k, p));
                if mult(segs@, i as int, k, p) != 0 {
                    let j2 = choose|j2: int| 0 <= j2 < d0.len() && (#[trigger] d0[j2]).0 == k && d0[j2].1 == p;
                    assert(d1[j2].0 == k && d1[j2].1 == p);
                    assert(d@[j2].0 == k && d@[j2].1 == p);
                } else if k == key && p == lo {
                    assert(d@[jl].0 == k && d@[jl].1 == p);
                } else {
                    assert(k == key && p == hi);
                }
            }
        }
        i = i + 1;
    }
    d
}

/// `e` lists, strictly ordered by line key and point, each (line, point)
/// whose summed count change over `segs` is not zero, with that change.
pub open spec fn merged_events(segs: Seq<(LineKey, Segment)>, e: Seq<(LineKey, Point, i64)>) -> bool {
    &&& forall|i: int, j: int| 0 <= i < j < e.len() ==> entry_lt(#[trigger] e[i], #[trigger] e[j])
    &&& forall|j: int| 0 <= j < e.len() ==> (#[trigger] e[j]).2 == mult(segs, segs.len() as int, e[j].0, e[j].1)
        && e[j].2 != 0
    &&& forall|k: LineKey, p: Point| #[trigger] mult(segs, segs.len() as int, k, p) != 0 ==> exists|j: int|
        0 <= j < e.len() && (#[trigger] e[j]).0 == k && e[j].1 == p
}

/// The events without their line keys.
pub open spec fn strip_keys(e: Seq<(LineKey, Point, i64)>) -> Seq<(Point, i64)> {
    e.map_values(|x: (LineKey, Point, i64)| (x.1, x.2))
}

/// Removes the overlapping parts of segments, each given with the key of
/// its support line: on each line, keeps the parts covered a non-zero
/// number of times (an odd number of times, with `parity`), as segments
/// oriented by increasing point, lines by increasing key.
pub fn remove_overlaps(segments: &Vec<(LineKey, Segment)>, parity: bool) -> (r: Vec<Segment>)
    requires
        segments@.len() < i64::MAX,
    ensures
        exists|e: Seq<(LineKey, Point, i64)>| #[trigger] merged_events(segments@, e)
            && r@ == closed_runs(strip_keys(e), e.len() as int, parity),
{
    let d = accumulate(segments);
    let sorted = order_entries(&d);
    let mut events: Vec<(Point, i64)> = Vec::new();
    let mut i: usize = 0;
    while i < sorted.len()
        invariant
            i <= sorted@.len(),
            events@ == strip_keys(sorted@.subrange(0, i as int)),
        decreases sorted@.len() - i,
    {
        let (_, p, c) = sorted[i];
        events.push((p, c));
        i = i + 1;
        assert(events@ =~= strip_keys(sorted@.subrange(0, i as int)));
    }
    assert(sorted@.subrange(0, sorted@.len() as int) == sorted@);
    proof {
        let n = segments@.len() as int;
        assert forall|j: int| 0 <= j < sorted@.len() implies (#[trigger] sorted@[j]).2 == mult(segments@, n, sorted@[j].0, sorted@[j].1)
            && sorted@[j].2 != 0 by {
            assert(sorted@.contains(sorted@[j]));
            let t = choose|t: int| 0 <= t < d@.len() && d@[t] == sorted@[j];
        }
        assert forall|k: LineKey, p: Point| #[trigger] mult(segments@, n, k, p) != 0 implies exists|j: int|
            0 <= j < sorted@.len() && (#[trigger] sorted@[j]).0 == k && sorted@[j].1 == p by {
            let t = choose|t: int| 0 <= t < d@.len() && (#[trigger] d@[t]).0 == k && d@[t].1 == p;
            assert(d@.contains(d@[t]));
            assert(sorted@.contains(d@[t]));
            let j = choose|j: int| 0 <= j < sorted@.len() && sorted@[j] == d@[t];
            assert(sorted@[j].0 == k && sorted@[j].1 == p);
        }
        assert(merged_events(segments@, sorted@));
    }
    sweep_line(&events, parity)
}

} // verus!
