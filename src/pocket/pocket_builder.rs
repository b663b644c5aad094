//! Extraction of faces from paths that may share vertices and directions.
//!
//! Each vertex lists, sorted by angle, one entry per path leaving it and one
//! per path arriving at it. Arriving by a path, a walk scans the entries of
//! the vertex cyclically from the arrival entry, counting +1 for a leaving
//! path and -1 for an arriving one, and leaves by the first entry at which
//! the count reaches +1. Entries are used up as the walk goes.
use vstd::prelude::*;

verus! {

/// The paths and their entries, grouped by vertex.
pub struct PathGraph {
    /// Start and end vertex of each path.
    pub paths: Vec<(usize, usize)>,
    /// (path, leaves) entries; vertex `v` owns `bounds[v]..bounds[v + 1]`.
    pub entries: Vec<(usize, bool)>,
    pub bounds: Vec<usize>,
    /// The entry by which each path arrives at its end vertex.
    pub arrival: Vec<usize>,
    /// The entry by which each path leaves its start vertex.
    pub departure: Vec<usize>,
}

impl PathGraph {
    pub open spec fn vertices(&self) -> nat {
        (self.bounds@.len() - 1) as nat
    }

    /// The entry `i` belongs to vertex `v`.
    pub open spec fn owns(&self, v: int, i: int) -> bool {
        0 <= v < self.vertices() && self.bounds@[v] <= i < self.bounds@[v + 1]
    }

    /// The vertices split the entries into consecutive ranges.
    pub open spec fn bounds_ok(&self) -> bool {
        &&& self.bounds@.len() >= 1
        &&& self.bounds@[0] == 0
        &&& self.bounds@[self.vertices() as int] == self.entries@.len()
        &&& forall|v: int| 0 <= v < self.vertices() ==> #[trigger] self.bounds@[v] <= self.bounds@[v + 1]
        &&& forall|v: int| 0 <= v <= self.vertices() ==> #[trigger] self.bounds@[v] <= self.entries@.len()
    }

    /// The ranges of the vertices follow each other.
    #[verifier::opaque]
    pub open spec fn ranges_ordered(&self) -> bool {
        forall|v1: int, v2: int| 0 <= v1 <= v2 <= self.vertices() ==> #[trigger] self.bounds@[v1] <= #[trigger] self.bounds@[v2]
    }

    pub open spec fn wf(&self) -> bool {
        &&& self.bounds_ok()
        &&& self.ranges_ordered()
        &&& self.arrival@.len() == self.paths@.len()
        &&& self.departure@.len() == self.paths@.len()
        &&& self.paths_ok()
        &&& self.entries_ok()
        &&& forall|p: int| 0 <= p < self.paths@.len() ==> #[trigger] self.departure@[p] < self.entries@.len()
        &&& forall|p: int| 0 <= p < self.paths@.len() ==> #[trigger] self.arrival@[p] < self.entries@.len()
    }

    /// Each path arrives at its end vertex and leaves its start vertex by
    /// its own entries.
    #[verifier::opaque]
    pub open spec fn paths_ok(&self) -> bool {
        forall|p: int|
            0 <= p < self.paths@.len() ==> {
                let (s, e) = #[trigger] self.paths@[p];
                &&& self.owns(e as int, self.arrival@[p] as int)
                &&& self.owns(s as int, self.departure@[p] as int)
                &&& self.entries@[self.arrival@[p] as int] == (p as usize, false)
                &&& self.entries@[self.departure@[p] as int] == (p as usize, true)
            }
    }

    /// Each entry is the arrival or the departure of its path.
    #[verifier::opaque]
    pub open spec fn entries_ok(&self) -> bool {
        forall|i: int|
            0 <= i < self.entries@.len() ==> {
                let (p, leaves) = #[trigger] self.entries@[i];
                &&& p < self.paths@.len()
                &&& leaves ==> self.departure@[p as int] == i
                &&& !leaves ==> self.arrival@[p as int] == i
            }
    }

    /// Tells whether the graph is consistent.
    pub fn is_valid(&self) -> (r: bool)
        ensures
            r == self.wf(),
    {
        if !self.bounds_valid() {
            return false;
        }
        proof {
            lemma_ranges_ordered(self);
        }
        if self.arrival.len() != self.paths.len() || self.departure.len() != self.paths.len() {
            return false;
        }
        if !self.paths_valid() || !self.entries_valid() {
            return false;
        }
        proof {
            lemma_indices_in_range(self);
        }
        true
    }

    /// Tells whether the vertex ranges split the entries.
    fn bounds_valid(&self) -> (r: bool)
        ensures
            r == self.bounds_ok(),
    {
        let nb = self.bounds.len();
        if nb == 0 || self.bounds[0] != 0 || self.bounds[nb - 1] != self.entries.len() {
            return false;
        }
        let nv = nb - 1;
        let ne = self.entries.len();
        let mut v: usize = 0;
        while v < nv
            invariant
                nb == self.bounds@.len(),
                nv == nb - 1,
                ne == self.entries@.len(),
                self.bounds@[nv as int] == ne,
                v <= nv,
                forall|w: int| 0 <= w < v ==> #[trigger] self.bounds@[w] <= self.bounds@[w + 1],
                forall|w: int| 0 <= w < v ==> #[trigger] self.bounds@[w] <= ne,
            decreases nv - v,
        {
            if self.bounds[v] > self.bounds[v + 1] || self.bounds[v] > ne {
                return false;
            }
            v = v + 1;
        }
        true
    }

    /// Tells whether each path arrives and leaves by its own entries.
    fn paths_valid(&self) -> (r: bool)
        requires
            self.bounds_ok(),
            self.arrival@.len() == self.paths@.len(),
            self.departure@.len() == self.paths@.len(),
        ensures
            r == self.paths_ok(),
    {
        let nv = self.bounds.len() - 1;
        let mut p: usize = 0;
        while p < self.paths.len()
            invariant
                self.bounds_ok(),
                nv == self.vertices(),
                self.arrival@.len() == self.paths@.len(),
                self.departure@.len() == self.paths@.len(),
                p <= self.paths@.len(),
                forall|q: int| 0 <= q < p ==> #[trigger] self.path_ok_at(q),
            decreases self.paths@.len() - p,
        {
            let (s, e) = self.paths[p];
            let a = self.arrival[p];
            let d = self.departure[p];
            let ok = e < nv && self.bounds[e] <= a && a < self.bounds[e + 1] && s < nv && self.bounds[s] <= d
                && d < self.bounds[s + 1] && self.entries[a].0 == p && !self.entries[a].1 && self.entries[d].0 == p
                && self.entries[d].1;
            if !ok {
                proof {
                    reveal(PathGraph::paths_ok);
                    assert(!self.path_ok_at(p as int));
                    let _ = self.paths@[p as int];
                }
                return false;
            }
            assert(self.path_ok_at(p as int));
            p = p + 1;
        }
        proof {
            reveal(PathGraph::paths_ok);
            assert forall|q: int| 0 <= q < self.paths@.len() implies {
                let (s, e) = #[trigger] self.paths@[q];
                &&& self.owns(e as int, self.arrival@[q] as int)
                &&& self.owns(s as int, self.departure@[q] as int)
                &&& self.entries@[self.arrival@[q] as int] == (q as usize, false)
                &&& self.entries@[self.departure@[q] as int] == (q as usize, true)
            } by {
                assert(self.path_ok_at(q));
            }
        }
        true
    }

    /// Tells whether each entry is the arrival or departure of its path.
    fn entries_valid(&self) -> (r: bool)
        requires
            self.arrival@.len() == self.paths@.len(),
            self.departure@.len() == self.paths@.len(),
        ensures
            r == self.entries_ok(),
    {
        let ne = self.entries.len();
        let mut i: usize = 0;
        while i < ne
            invariant
                ne == self.entries@.len(),
                self.arrival@.len() == self.paths@.len(),
                self.departure@.len() == self.paths@.len(),
                i <= ne,
                forall|j: int| 0 <= j < i ==> #[trigger] self.entry_ok_at(j),
            decreases ne - i,
        {
            let (q, leaves) = self.entries[i];
            let ok = q < self.paths.len() && (if leaves { self.departure[q] == i } else { self.arrival[q] == i });
            if !ok {
                proof {
                    reveal(PathGraph::entries_ok);
                    assert(!self.entry_ok_at(i as int));
                    let _ = self.entries@[i as int];
                }
                return false;
            }
            assert(self.entry_ok_at(i as int));
            i = i + 1;
        }
        proof {
            reveal(PathGraph::entries_ok);
            assert forall|j: int| 0 <= j < self.entries@.len() implies {
                let (q, leaves) = #[trigger] self.entries@[j];
                &&& q < self.paths@.len()
                &&& leaves ==> self.departure@[q as int] == j
                &&& !leaves ==> self.arrival@[q as int] == j
            } by {
                assert(self.entry_ok_at(j));
            }
        }
        true
    }

    /// Path `q` arrives and leaves by its own entries, in the right ranges.
    pub open spec fn path_ok_at(&self, q: int) -> bool {
        let (s, e) = self.paths@[q];
        &&& self.owns(e as int, self.arrival@[q] as int)
        &&& self.owns(s as int, self.departure@[q] as int)
        &&& self.entries@[self.arrival@[q] as int] == (q as usize, false)
        &&& self.entries@[self.departure@[q] as int] == (q as usize, true)
    }

    /// Entry `j` is the arrival or departure of its path.
    pub open spec fn entry_ok_at(&self, j: int) -> bool {
        let (q, leaves) = self.entries@[j];
        &&& q < self.paths@.len()
        &&& leaves ==> self.departure@[q as int] == j
        &&& !leaves ==> self.arrival@[q as int] == j
    }

    /// Position `t` of the cyclic scan of `lo..hi` that starts just after `a`.
    pub open spec fn cyc(lo: int, hi: int, a: int, t: int) -> int {
        lo + (a - lo + 1 + t) % (hi - lo)
    }

    /// The count after the first `t + 1` positions of the scan (dead
    /// entries count for nothing).
    pub open spec fn scan_count(&self, alive: Seq<bool>, lo: int, hi: int, a: int, t: int) -> int
        decreases t + 1,
    {
        if t < 0 {
            0
        } else {
            let i = Self::cyc(lo, hi, a, t);
            self.scan_count(alive, lo, hi, a, t - 1) + if alive[i] {
                if self.entries@[i].1 { 1int } else { -1int }
            } else {
                0int
            }
        }
    }

    /// The scan reaches +1 at position `t`, on a live entry.
    pub open spec fn leaves_at(&self, alive: Seq<bool>, lo: int, hi: int, a: int, t: int) -> bool {
        alive[Self::cyc(lo, hi, a, t)] && self.scan_count(alive, lo, hi, a, t) == 1
    }
}

/// The first position, from `t` on, at which the scan of `lo..hi` after
/// `a` reaches +1 on a live entry, as an entry index.
pub open spec fn first_leave(g: &PathGraph, s: Seq<bool>, lo: int, hi: int, a: int, t: int) -> Option<int>
    decreases hi - lo - 1 - t,
{
    if t < 0 || t >= hi - lo - 1 {
        None
    } else if g.leaves_at(s, lo, hi, a, t) {
        Some(PathGraph::cyc(lo, hi, a, t))
    } else {
        first_leave(g, s, lo, hi, a, t + 1)
    }
}

/// The entry by which a walk leaves `v` after arriving by `a`.
pub open spec fn exit_of(g: &PathGraph, alive: Seq<bool>, v: int, a: int) -> Option<int> {
    first_leave(g, alive.update(a, false), g.bounds@[v] as int, g.bounds@[v + 1] as int, a, 0)
}

proof fn lemma_first_leave_found(g: &PathGraph, s: Seq<bool>, lo: int, hi: int, a: int, t0: int, t: int)
    requires
        0 <= t0 <= t < hi - lo - 1,
        g.leaves_at(s, lo, hi, a, t),
        forall|t2: int| t0 <= t2 < t ==> !#[trigger] g.leaves_at(s, lo, hi, a, t2),
    ensures
        first_leave(g, s, lo, hi, a, t0) == Some(PathGraph::cyc(lo, hi, a, t)),
    decreases t - t0,
{
    if t0 < t {
        lemma_first_leave_found(g, s, lo, hi, a, t0 + 1, t);
    }
}

proof fn lemma_first_leave_none(g: &PathGraph, s: Seq<bool>, lo: int, hi: int, a: int, t0: int)
    requires
        0 <= t0,
        forall|t2: int| t0 <= t2 < hi - lo - 1 ==> !#[trigger] g.leaves_at(s, lo, hi, a, t2),
    ensures
        first_leave(g, s, lo, hi, a, t0) is None,
    decreases hi - lo - 1 - t0,
{
    if t0 < hi - lo - 1 {
        lemma_first_leave_none(g, s, lo, hi, a, t0 + 1);
    }
}

/// Arriving at vertex `v` by entry `a`: uses up `a`, then finds, uses up
/// and returns the entry by which the walk leaves, if any.
pub fn find_next_path(g: &PathGraph, alive: &mut Vec<bool>, v: usize, a: usize) -> (r: Option<usize>)
    requires
        g.bounds_ok(),
        old(alive)@.len() == g.entries@.len(),
        g.owns(v as int, a as int),
    ensures
        final(alive)@.len() == old(alive)@.len(),
        ({
            let lo = g.bounds@[v as int] as int;
            let hi = g.bounds@[v as int + 1] as int;
            let al = old(alive)@.update(a as int, false);
            &&& r matches Some(i) ==> exists|t: int| 0 <= t < hi - lo - 1 && i == PathGraph::cyc(lo, hi, a as int, t)
                && #[trigger] g.leaves_at(al, lo, hi, a as int, t)
                && forall|t2: int| 0 <= t2 < t ==> !#[trigger] g.leaves_at(al, lo, hi, a as int, t2)
            &&& r matches Some(i) ==> g.owns(v as int, i as int) && g.entries@[i as int].1 && old(alive)@[i as int]
                && final(alive)@ == al.update(i as int, false)
            &&& r is None ==> final(alive)@ == al && forall|t: int| 0 <= t < hi - lo - 1 ==> !#[trigger] g.leaves_at(al, lo, hi, a as int, t)
        }),
        exit_of(g, old(alive)@, v as int, a as int) == match r {
            Some(i) => Some(i as int),
            None => None::<int>,
        },
{
    let nb = g.bounds.len();
    assert(v + 1 < nb);
    let lo = g.bounds[v];
    let hi = g.bounds[v + 1];
    assert(hi <= g.entries@.len());
    let ghost al = alive@.update(a as int, false);
    alive.set(a, false);
    let n = hi - lo;
    let base = a - lo + 1;
    let mut t: usize = 0;
    let mut outs: usize = 0;
    let mut ins: usize = 0;
    while t + 1 < n
        invariant
            g.bounds_ok(),
            v + 1 < g.bounds@.len(),
            alive@ == al,
            al == old(alive)@.update(a as int, false),
            old(alive)@.len() == g.entries@.len(),
            al.len() == g.entries@.len(),
            outs <= ins,
            lo == g.bounds@[v as int],
            hi == g.bounds@[v as int + 1],
            lo <= a < hi,
            hi <= g.entries@.len(),
            n == hi - lo,
            base == a - lo + 1,
            t < n,
            outs <= t,
            ins <= t,
            outs - ins == g.scan_count(al, lo as int, hi as int, a as int, t - 1),
            forall|t2: int| 0 <= t2 < t ==> !#[trigger] g.leaves_at(al, lo as int, hi as int, a as int, t2),
        decreases n - t,
    {
        let off: usize = if t < n - base { base + t } else { t - (n - base) };
        let i = lo + off;
        proof {
            if base + t >= n {
                vstd::arithmetic::div_mod::lemma_mod_multiples_vanish(1, (base + t - n) as int, n as int);
                vstd::arithmetic::div_mod::lemma_small_mod((base + t - n) as nat, n as nat);
            } else {
                vstd::arithmetic::div_mod::lemma_small_mod((base + t) as nat, n as nat);
            }
            assert(i as int == PathGraph::cyc(lo as int, hi as int, a as int, t as int));
            assert(off < n);
        }
        if alive[i] {
            if g.entries[i].1 {
                outs = outs + 1;
            } else {
                ins = ins + 1;
            }
            if outs == ins + 1 {
                assert(g.leaves_at(al, lo as int, hi as int, a as int, t as int));
                proof {
                    lemma_first_leave_found(g, al, lo as int, hi as int, a as int, 0, t as int);
                }
                alive.set(i, false);
                return Some(i);
            }
        }
        t = t + 1;
    }
    proof {
        lemma_first_leave_none(g, al, lo as int, hi as int, a as int, 0);
    }
    None
}

proof fn lemma_indices_in_range(g: &PathGraph)
    requires
        g.bounds_ok(),
        g.paths_ok(),
        g.arrival@.len() == g.paths@.len(),
        g.departure@.len() == g.paths@.len(),
    ensures
        forall|q: int| 0 <= q < g.paths@.len() ==> #[trigger] g.departure@[q] < g.entries@.len(),
        forall|q: int| 0 <= q < g.paths@.len() ==> #[trigger] g.arrival@[q] < g.entries@.len(),
{
    reveal(PathGraph::paths_ok);
    assert forall|q: int| 0 <= q < g.paths@.len() implies #[trigger] g.departure@[q] < g.entries@.len() by {
        let _ = g.paths@[q];
    }
    assert forall|q: int| 0 <= q < g.paths@.len() implies #[trigger] g.arrival@[q] < g.entries@.len() by {
        let _ = g.paths@[q];
    }
}

proof fn lemma_ranges_ordered(g: &PathGraph)
    requires
        g.bounds_ok(),
    ensures
        g.ranges_ordered(),
{
    reveal(PathGraph::ranges_ordered);
    assert forall|v1: int, v2: int| 0 <= v1 <= v2 <= g.vertices() implies #[trigger] g.bounds@[v1] <= #[trigger] g.bounds@[v2] by {
        bounds_increase(g, v1, v2);
    }
}

proof fn bounds_increase(g: &PathGraph, v1: int, v2: int)
    requires
        g.bounds_ok(),
        0 <= v1 <= v2 <= g.vertices(),
    ensures
        g.bounds@[v1] <= g.bounds@[v2],
    decreases v2 - v1,
{
    if v1 < v2 {
        bounds_increase(g, v1 + 1, v2);
        assert(g.bounds@[v1] <= g.bounds@[v1 + 1]);
    }
}

/// Number of live entries.
pub open spec fn alive_count(s: Seq<bool>) -> nat
    decreases s.len(),
{
    if s.len() == 0 {
        0
    } else {
        alive_count(s.drop_last()) + if s.last() { 1nat } else { 0nat }
    }
}

proof fn lemma_kill_decreases(s: Seq<bool>, i: int)
    requires
        0 <= i < s.len(),
    ensures
        alive_count(s.update(i, false)) <= alive_count(s),
        s[i] ==> alive_count(s.update(i, false)) < alive_count(s),
    decreases s.len(),
{
    let u = s.update(i, false);
    if i == s.len() - 1 {
        assert(u.drop_last() =~= s.drop_last());
    } else {
        assert(u.drop_last() =~= s.drop_last().update(i, false));
        lemma_kill_decreases(s.drop_last(), i);
    }
}

proof fn lemma_owner_unique(g: &PathGraph, v1: int, v2: int, i: int)
    requires
        g.bounds_ok(),
        g.ranges_ordered(),
        g.owns(v1, i),
        g.owns(v2, i),
    ensures
        v1 == v2,
{
    reveal(PathGraph::ranges_ordered);
    if v1 < v2 {
        assert(g.bounds@[v1 + 1] <= g.bounds@[v2]);
    } else if v2 < v1 {
        assert(g.bounds@[v2 + 1] <= g.bounds@[v1]);
    }
}

proof fn lemma_path(g: &PathGraph, p: int)
    requires
        g.wf(),
        0 <= p < g.paths@.len(),
    ensures
        g.owns(g.paths@[p].1 as int, g.arrival@[p] as int),
        g.owns(g.paths@[p].0 as int, g.departure@[p] as int),
        g.entries@[g.arrival@[p] as int] == (p as usize, false),
{
    reveal(PathGraph::paths_ok);
}

proof fn lemma_entry(g: &PathGraph, i: int)
    requires
        g.wf(),
        0 <= i < g.entries@.len(),
    ensures
        g.entries@[i].0 < g.paths@.len(),
        g.entries@[i].1 ==> g.departure@[g.entries@[i].0 as int] == i,
{
    reveal(PathGraph::entries_ok);
}

/// `ps` put in front of the chain `o`, if there is one.
pub open spec fn prepend_opt(ps: Seq<usize>, o: Option<Seq<usize>>) -> Option<Seq<usize>> {
    match o {
        Some(rest) => Some(ps + rest),
        None => None,
    }
}

/// The rest of a walk started at `v0` that has just taken path `last`:
/// the paths it goes on with until it is back at `v0` (`None` when it gets
/// stuck), and the live entries afterwards.
pub open spec fn walk_from(g: &PathGraph, alive: Seq<bool>, v0: int, last: int, fuel: nat) -> (Option<Seq<usize>>, Seq<bool>)
    decreases fuel,
{
    if g.paths@[last].1 == v0 {
        (Some(seq![]), alive)
    } else {
        let v = g.paths@[last].1 as int;
        let a = g.arrival@[last] as int;
        match exit_of(g, alive, v, a) {
            None => (None, alive.update(a, false)),
            Some(i) => if fuel == 0 {
                (None, alive)
            } else {
                let p = g.entries@[i].0;
                let w = walk_from(g, alive.update(a, false).update(i, false), v0, p as int, (fuel - 1) as nat);
                (prepend_opt(seq![p], w.0), w.1)
            },
        }
    }
}

/// One walk from the live entries `alive`: the chain of paths it closes
/// (`None` when no walk starts or the walk gets stuck), and the live
/// entries afterwards.
pub open spec fn pocket_spec(g: &PathGraph, alive: Seq<bool>) -> (Option<Seq<usize>>, Seq<bool>) {
    match start_of(g, alive) {
        None => (None, alive),
        Some(va) => match exit_of(g, alive, va.0, va.1) {
            None => (None, alive.update(va.1, false)),
            Some(i) => {
                let p = g.entries@[i].0;
                let s1 = alive.update(va.1, false).update(i, false);
                let w = walk_from(g, s1, va.0, p as int, alive_count(s1));
                (prepend_opt(seq![p], w.0), w.1)
            },
        },
    }
}

/// The chains found by walking again and again from `alive`, until no walk
/// starts or one gets stuck (at most `fuel` walks).
pub open spec fn pockets_spec(g: &PathGraph, alive: Seq<bool>, fuel: nat) -> Seq<Seq<usize>>
    decreases fuel,
{
    if fuel == 0 {
        seq![]
    } else {
        let w = pocket_spec(g, alive);
        match w.0 {
            None => seq![],
            Some(ps) => seq![ps] + pockets_spec(g, w.1, (fuel - 1) as nat),
        }
    }
}

proof fn lemma_count_le_len(s: Seq<bool>)
    ensures
        alive_count(s) <= s.len(),
    decreases s.len(),
{
    if s.len() > 0 {
        lemma_count_le_len(s.drop_last());
    }
}

proof fn lemma_prepend(ps: Seq<usize>, p: usize, o: Option<Seq<usize>>)
    ensures
        prepend_opt(ps, prepend_opt(seq![p], o)) == prepend_opt(ps.push(p), o),
{
    if let Some(rest) = o {
        assert(ps + (seq![p] + rest) =~= ps.push(p) + rest);
    }
}

/// `ps` is a closed chain of paths: each ends where the next starts, and
/// the last ends where the first starts.
pub open spec fn is_closed_chain(paths: Seq<(usize, usize)>, ps: Seq<usize>) -> bool {
    &&& ps.len() >= 1
    &&& forall|k: int| 0 <= k < ps.len() ==> #[trigger] ps[k] < paths.len()
    &&& forall|k: int| 0 <= k < ps.len() - 1 ==> paths[#[trigger] ps[k] as int].1 == paths[ps[k + 1] as int].0
    &&& paths[ps.last() as int].1 == paths[ps[0] as int].0
}

/// Vertex `v` has a live entry.
pub open spec fn live_at(g: &PathGraph, alive: Seq<bool>, v: int) -> bool {
    exists|i: int| #[trigger] g.owns(v, i) && alive[i]
}

/// `v` is the first vertex with a live entry.
pub open spec fn first_live(g: &PathGraph, alive: Seq<bool>, v: int) -> bool {
    &&& 0 <= v < g.vertices()
    &&& live_at(g, alive, v)
    &&& forall|w: int| 0 <= w < v ==> !#[trigger] live_at(g, alive, w)
}

/// A walk starts at `v`, the first vertex with a live entry, arriving by
/// `a`, its first live arriving entry.
pub open spec fn start_entry(g: &PathGraph, alive: Seq<bool>, v: int, a: int) -> bool {
    &&& first_live(g, alive, v)
    &&& g.owns(v, a)
    &&& alive[a]
    &&& !g.entries@[a].1
    &&& forall|i: int| #[trigger] g.owns(v, i) && i < a && alive[i] ==> g.entries@[i].1
}

/// Arriving at `v` by entry `a`, with the live entries `alive` (`a` no
/// longer among them), the scan finds no way out.
pub open spec fn stuck_at(g: &PathGraph, alive: Seq<bool>, v: int, a: int) -> bool {
    let lo = g.bounds@[v] as int;
    let hi = g.bounds@[v + 1] as int;
    &&& g.owns(v, a)
    &&& !g.entries@[a].1
    &&& !alive[a]
    &&& forall|t: int| 0 <= t < hi - lo - 1 ==> !#[trigger] g.leaves_at(alive, lo, hi, a, t)
}

/// A walk starts at `v`.
pub open spec fn starts_walk(g: &PathGraph, alive: Seq<bool>, v: int) -> bool {
    exists|a: int| #[trigger] start_entry(g, alive, v, a)
}

/// No walk can start: no entry is live, or the first vertex with a live
/// entry has only live leaving entries.
pub open spec fn no_start(g: &PathGraph, alive: Seq<bool>) -> bool {
    forall|v: int| #[trigger] first_live(g, alive, v) ==> forall|i: int| #[trigger] g.owns(v, i) && alive[i] ==> g.entries@[i].1
}

/// Where a walk starts, if one can.
pub open spec fn start_of(g: &PathGraph, alive: Seq<bool>) -> Option<(int, int)> {
    if exists|v: int, a: int| #[trigger] start_entry(g, alive, v, a) {
        Some(choose|va: (int, int)| start_entry(g, alive, va.0, va.1))
    } else {
        None
    }
}

proof fn lemma_start_unique(g: &PathGraph, alive: Seq<bool>, v1: int, a1: int, v2: int, a2: int)
    requires
        start_entry(g, alive, v1, a1),
        start_entry(g, alive, v2, a2),
    ensures
        v1 == v2 && a1 == a2,
{
    if v1 < v2 {
        assert(!live_at(g, alive, v1));
    } else if v2 < v1 {
        assert(!live_at(g, alive, v2));
    } else if a1 < a2 {
        assert(g.owns(v2, a1));
    } else if a2 < a1 {
        assert(g.owns(v1, a2));
    }
}

proof fn lemma_start_of(g: &PathGraph, alive: Seq<bool>, v: int, a: int)
    requires
        start_entry(g, alive, v, a),
    ensures
        start_of(g, alive) == Some((v, a)),
{
    let w = (v, a);
    assert(start_entry(g, alive, w.0, w.1));
    let va = choose|va: (int, int)| start_entry(g, alive, va.0, va.1);
    lemma_start_unique(g, alive, v, a, va.0, va.1);
}

proof fn lemma_no_start(g: &PathGraph, alive: Seq<bool>)
    requires
        no_start(g, alive),
    ensures
        start_of(g, alive) is None,
{
    if exists|v: int, a: int| #[trigger] start_entry(g, alive, v, a) {
        let (v, a) = choose|v: int, a: int| #[trigger] start_entry(g, alive, v, a);
        assert(first_live(g, alive, v));
        assert(g.owns(v, a) && alive[a]);
    }
}

/// The first vertex with a live entry, and its first live arriving entry.
fn starting_entry(g: &PathGraph, alive: &Vec<bool>) -> (r: Option<(usize, usize)>)
    requires
        g.bounds_ok(),
        alive@.len() == g.entries@.len(),
    ensures
        r matches Some((v, a)) ==> start_entry(g, alive@, v as int, a as int),
        r is None ==> no_start(g, alive@),
{
    let nv = g.bounds.len() - 1;
    let mut v: usize = 0;
    while v < nv
        invariant
            g.bounds_ok(),
            nv == g.vertices(),
            alive@.len() == g.entries@.len(),
            v <= nv,
            forall|w: int| 0 <= w < v ==> !#[trigger] live_at(g, alive@, w),
        decreases nv - v,
    {
        let lo = g.bounds[v];
        let hi = g.bounds[v + 1];
        let mut i = lo;
        let mut any_alive = false;
        let mut first_in: Option<usize> = None;
        while i < hi
            invariant
                g.bounds_ok(),
                v < nv,
                nv == g.vertices(),
                alive@.len() == g.entries@.len(),
                lo == g.bounds@[v as int],
                hi == g.bounds@[v + 1],
                lo <= i <= hi,
                any_alive <==> exists|j: int| lo <= j < i && #[trigger] alive@[j],
                first_in matches Some(a) ==> lo <= a < i && alive@[a as int] && !g.entries@[a as int].1
                    && forall|j: int| lo <= j < a && #[trigger] alive@[j] ==> g.entries@[j].1,
                first_in is None ==> forall|j: int| lo <= j < i && #[trigger] alive@[j] ==> g.entries@[j].1,
            decreases hi - i,
        {
            if alive[i] {
                any_alive = true;
                if first_in.is_none() && !g.entries[i].1 {
                    first_in = Some(i);
                }
            }
            i = i + 1;
        }
        if any_alive {
            proof {
                let j = choose|j: int| lo <= j < hi && #[trigger] alive@[j];
                assert(g.owns(v as int, j));
                assert(first_live(g, alive@, v as int));
            }
            match first_in {
                Some(a) => {
                    return Some((v, a));
                },
                None => {
                    assert forall|v2: int| #[trigger] first_live(g, alive@, v2) implies forall|i2: int| #[trigger] g.owns(v2, i2) && alive@[i2] ==> g.entries@[i2].1 by {
                        if v2 < v {
                        } else if v2 > v {
                            assert(!live_at(g, alive@, v as int));
                        }
                    }
                    return None;
                },
            }
        }
        proof {
            if live_at(g, alive@, v as int) {
                let j = choose|j: int| #[trigger] g.owns(v as int, j) && alive@[j];
                assert(lo <= j < hi && alive@[j]);
            }
        }
        v = v + 1;
    }
    None
}

/// Follows one walk from the first vertex with a live entry until it comes
/// back to where it started; returns its paths in order. `None` when no
/// entry is live, or when the walk finds no way to go on.
pub fn build_pocket(g: &PathGraph, alive: &mut Vec<bool>) -> (r: Option<Vec<usize>>)
    requires
        g.wf(),
        old(alive)@.len() == g.entries@.len(),
    ensures
        final(alive)@.len() == old(alive)@.len(),
        forall|i: int| 0 <= i < final(alive)@.len() && #[trigger] final(alive)@[i] ==> old(alive)@[i],
        r matches Some(ps) ==> is_closed_chain(g.paths@, ps@),
        r matches Some(ps) ==> forall|k: int| 0 <= k < ps@.len() ==> old(alive)@[g.departure@[#[trigger] ps@[k] as int] as int]
            && !final(alive)@[g.departure@[ps@[k] as int] as int],
        r is Some ==> alive_count(final(alive)@) < alive_count(old(alive)@),
        r matches Some(ps) ==> ps@.no_duplicates(),
        r matches Some(ps) ==> starts_walk(g, old(alive)@, g.paths@[ps@[0] as int].0 as int),
        r is None ==> (no_start(g, old(alive)@) && final(alive)@ == old(alive)@) || (alive_count(final(alive)@)
            < alive_count(old(alive)@) && exists|v: int, a: int| #[trigger] stuck_at(g, final(alive)@, v, a)),
        pocket_spec(g, old(alive)@) == (match r {
            Some(ps) => Some(ps@),
            None => None::<Seq<usize>>,
        }, final(alive)@),
{
    let ghost a0 = alive@;
    let (v, a) = match starting_entry(g, alive) {
        Some(x) => x,
        None => {
            proof {
                lemma_no_start(g, a0);
            }
            return None;
        },
    };
    proof {
        lemma_start_of(g, a0, v as int, a as int);
    }
    let ghost a1 = alive@;
    let i = match find_next_path(g, alive, v, a) {
        Some(i) => i,
        None => {
            proof {
                lemma_kill_decreases(a1, a as int);
                assert(stuck_at(g, alive@, v as int, a as int));
            }
            return None;
        },
    };
    proof {
        lemma_kill_decreases(a1, a as int);
        lemma_kill_decreases(a1.update(a as int, false), i as int);
    }
    proof {
        lemma_entry(g, i as int);
    }
    let first = g.entries[i].0;
    proof {
        lemma_path(g, first as int);
        lemma_owner_unique(g, v as int, g.paths@[first as int].0 as int, i as int);
    }
    let mut ps: Vec<usize> = Vec::new();
    ps.push(first);
    let mut last = first;
    let ghost mut fuel: nat = alive_count(alive@);
    proof {
        assert(ps@ =~= seq![first]);
    }
    while g.paths[last].1 != g.paths[first].0
        invariant
            g.wf(),
            alive@.len() == g.entries@.len(),
            a0 == old(alive)@,
            a0.len() == g.entries@.len(),
            forall|x: int| 0 <= x < alive@.len() && #[trigger] alive@[x] ==> a0[x],
            alive_count(alive@) < alive_count(a0),
            ps@.len() >= 1,
            ps@[0] == first,
            ps@.no_duplicates(),
            start_entry(g, a0, g.paths@[first as int].0 as int, a as int),
            last == ps@.last(),
            forall|k: int| 0 <= k < ps@.len() ==> #[trigger] ps@[k] < g.paths@.len(),
            forall|k: int| 0 <= k < ps@.len() - 1 ==> g.paths@[#[trigger] ps@[k] as int].1 == g.paths@[ps@[k + 1] as int].0,
            forall|k: int| 0 <= k < ps@.len() ==> a0[g.departure@[#[trigger] ps@[k] as int] as int]
                && !alive@[g.departure@[ps@[k] as int] as int],
            v as int == g.paths@[first as int].0,
            fuel >= alive_count(alive@),
            pocket_spec(g, a0) == (prepend_opt(ps@, walk_from(g, alive@, v as int, last as int, fuel).0),
                walk_from(g, alive@, v as int, last as int, fuel).1),
        decreases alive_count(alive@),
    {
        proof {
            lemma_path(g, last as int);
        }
        let vv = g.paths[last].1;
        let aa = g.arrival[last];
        let ghost before = alive@;
        let i = match find_next_path(g, alive, vv, aa) {
            Some(i) => i,
            None => {
                proof {
                    lemma_kill_decreases(before, aa as int);
                    assert(stuck_at(g, alive@, vv as int, aa as int));
                }
                return None;
            },
        };
        proof {
            lemma_kill_decreases(before, aa as int);
            lemma_kill_decreases(before.update(aa as int, false), i as int);
        }
        proof {
            lemma_entry(g, i as int);
        }
        let p = g.entries[i].0;
        proof {
            lemma_path(g, p as int);
            lemma_owner_unique(g, vv as int, g.paths@[p as int].0 as int, i as int);
        }
        let ghost old_ps = ps@;
        assert(!old_ps.contains(p)) by {
            if old_ps.contains(p) {
                let k = choose|k: int| 0 <= k < old_ps.len() && old_ps[k] == p;
                assert(!before[g.departure@[old_ps[k] as int] as int]);
            }
        }
        ps.push(p);
        proof {
            lemma_prepend(old_ps, p, walk_from(g, alive@, v as int, p as int, (fuel - 1) as nat).0);
            fuel = (fuel - 1) as nat;
        }
        assert forall|k1: int, k2: int| 0 <= k1 < k2 < ps@.len() implies ps@[k1] != ps@[k2] by {
            if k2 == old_ps.len() {
                assert(old_ps.contains(old_ps[k1]));
            }
        }
        assert forall|k: int| 0 <= k < ps@.len() implies a0[g.departure@[#[trigger] ps@[k] as int] as int]
            && !alive@[g.departure@[ps@[k] as int] as int] by {
            if k < old_ps.len() {
                assert(ps@[k] == old_ps[k]);
                let d = g.departure@[old_ps[k] as int] as int;
                assert(a0[d] && !before[d]);
                assert(alive@ == before.update(aa as int, false).update(i as int, false));
                assert(!alive@[d]);
            } else {
                assert(ps@[k] == p);
                assert(before[i as int]);
                assert(a0[i as int]);
            }
        }
        assert forall|k: int| 0 <= k < ps@.len() - 1 implies g.paths@[#[trigger] ps@[k] as int].1 == g.paths@[ps@[k + 1] as int].0 by {
            if k < old_ps.len() - 1 {
                assert(ps@[k] == old_ps[k] && ps@[k + 1] == old_ps[k + 1]);
            }
        }
        last = p;
    }
    proof {
        assert(ps@ + seq![] =~= ps@);
        let x = a as int;
        assert(start_entry(g, a0, g.paths@[ps@[0] as int].0 as int, x));
        assert(starts_walk(g, a0, g.paths@[ps@[0] as int].0 as int));
    }
    Some(ps)
}

/// Follows walks until no entry is live or a walk gets stuck; returns the
/// closed chains of paths found, in order.
pub fn build_pockets(g: &PathGraph) -> (r: Vec<Vec<usize>>)
    requires
        g.wf(),
    ensures
        r@.map_values(|c: Vec<usize>| c@) == pockets_spec(g, Seq::new(g.entries@.len(), |i: int| true), g.entries@.len()),
        forall|k: int| 0 <= k < r@.len() ==> is_closed_chain(g.paths@, #[trigger] r@[k]@),
        forall|k: int| 0 <= k < r@.len() ==> (#[trigger] r@[k])@.no_duplicates(),
        forall|k1: int, k2: int, x: usize|
            0 <= k1 < k2 < r@.len() && #[trigger] r@[k1]@.contains(x) ==> !#[trigger] r@[k2]@.contains(x),
{
    let ghost all_live = Seq::new(g.entries@.len(), |i: int| true);
    let mut alive: Vec<bool> = Vec::new();
    let mut i: usize = 0;
    while i < g.entries.len()
        invariant
            i <= g.entries@.len(),
            alive@ == Seq::new(i as nat, |j: int| true),
        decreases g.entries@.len() - i,
    {
        alive.push(true);
        i = i + 1;
        assert(alive@ =~= Seq::new(i as nat, |j: int| true));
    }
    let mut pockets: Vec<Vec<usize>> = Vec::new();
    let ghost mut fuel: nat = g.entries@.len();
    proof {
        lemma_count_le_len(alive@);
        assert(pockets@.map_values(|c: Vec<usize>| c@) + pockets_spec(g, alive@, fuel) =~= pockets_spec(g, all_live, g.entries@.len() as nat));
    }
    loop
        invariant_except_break
            fuel >= alive_count(alive@),
            pockets@.map_values(|c: Vec<usize>| c@) + pockets_spec(g, alive@, fuel) == pockets_spec(g, all_live, g.entries@.len() as nat),
        invariant
            g.wf(),
            alive@.len() == g.entries@.len(),
            forall|k: int| 0 <= k < pockets@.len() ==> is_closed_chain(g.paths@, #[trigger] pockets@[k]@),
            forall|k: int| 0 <= k < pockets@.len() ==> (#[trigger] pockets@[k])@.no_duplicates(),
            forall|k1: int, k2: int, x: usize|
                0 <= k1 < k2 < pockets@.len() && #[trigger] pockets@[k1]@.contains(x) ==> !#[trigger] pockets@[k2]@.contains(x),
            forall|k: int, x: usize|
                0 <= k < pockets@.len() && #[trigger] pockets@[k]@.contains(x) ==> x < g.paths@.len() && !alive@[g.departure@[x as int] as int],
        ensures
            pockets@.map_values(|c: Vec<usize>| c@) == pockets_spec(g, all_live, g.entries@.len() as nat),
        decreases alive_count(alive@),
    {
        let ghost before = alive@;
        let ghost old_view = pockets@.map_values(|c: Vec<usize>| c@);
        match build_pocket(g, &mut alive) {
            Some(ps) => {
                let ghost old_pockets = pockets@;
                let ghost psv = ps@;
                assert(pockets_spec(g, before, fuel) == seq![psv] + pockets_spec(g, alive@, (fuel - 1) as nat));
                pockets.push(ps);
                proof {
                    assert(pockets@.map_values(|c: Vec<usize>| c@) =~= old_view.push(psv));
                    assert(old_view.push(psv) + pockets_spec(g, alive@, (fuel - 1) as nat) =~= old_view + (seq![psv] + pockets_spec(g, alive@, (fuel - 1) as nat)));
                    fuel = (fuel - 1) as nat;
                }
                assert forall|k: int| 0 <= k < pockets@.len() implies is_closed_chain(g.paths@, #[trigger] pockets@[k]@)
                    && (pockets@[k])@.no_duplicates() by {
                    if k < old_pockets.len() {
                        assert(pockets@[k] == old_pockets[k]);
                    }
                }
                assert forall|k: int, x: usize|
                    0 <= k < pockets@.len() && #[trigger] pockets@[k]@.contains(x) implies x < g.paths@.len() && !alive@[g.departure@[x as int] as int] by {
                    if k < old_pockets.len() {
                        assert(pockets@[k] == old_pockets[k]);
                    } else {
                        let m = choose|m: int| 0 <= m < psv.len() && psv[m] == x;
                        assert(psv[m] < g.paths@.len());
                    }
                }
                assert forall|k1: int, k2: int, x: usize|
                    0 <= k1 < k2 < pockets@.len() && #[trigger] pockets@[k1]@.contains(x) implies !#[trigger] pockets@[k2]@.contains(x) by {
                    assert(pockets@[k1] == old_pockets[k1]);
                    if k2 < old_pockets.len() {
                        assert(pockets@[k2] == old_pockets[k2]);
                    } else if psv.contains(x) {
                        assert(old_pockets[k1]@.contains(x));
                        assert(!before[g.departure@[x as int] as int]);
                        let m = choose|m: int| 0 <= m < psv.len() && psv[m] == x;
                        assert(before[g.departure@[psv[m] as int] as int]);
                    }
                }
            },
            None => {
                assert(pockets_spec(g, before, fuel) =~= Seq::<Seq<usize>>::empty());
                assert(pockets@.map_values(|c: Vec<usize>| c@) =~= old_view + Seq::<Seq<usize>>::empty());
                break;
            },
        }
    }
    pockets
}

} // verus!
