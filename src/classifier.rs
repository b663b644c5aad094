//! Classification of shapes into an inclusion forest.
//!
//! The geometry (an inner horizontal line of a shape and the shapes it
//! crosses, from left to right) is handed in from outside: one sweep per
//! line. This module decides, from the order of the crossings, who lies
//! inside whom.
use vstd::prelude::*;

verus! {

/// Number of times `s` occurs among the first `k` elements of `c`.
pub open spec fn occurrences(c: Seq<usize>, k: int, s: usize) -> nat
    decreases k,
{
    if k <= 0 {
        0
    } else {
        occurrences(c, k - 1, s) + if c[k - 1] == s { 1nat } else { 0nat }
    }
}

/// Fathers after the first `k` crossings of one sweep, starting from `f0`.
///
/// A crossing on a shape that is already classified changes nothing. The
/// first crossing of the sweep makes its shape a root. A later crossing on
/// an unclassified shape looks at the shape crossed just before: if that
/// one has been crossed an odd number of times, the shape lies inside it;
/// otherwise it lies beside it, and gets its father (or is a root when the
/// neighbour is a root).
pub open spec fn fathers_after(f0: Seq<Option<usize>>, c: Seq<usize>, k: int) -> Seq<Option<usize>>
    decreases k,
{
    if k <= 0 {
        f0
    } else {
        let f = fathers_after(f0, c, k - 1);
        let idx = c[k - 1];
        if f[idx as int] is Some {
            f
        } else if k == 1 {
            f.update(idx as int, Some(idx))
        } else {
            let prev = c[k - 2];
            if occurrences(c, k - 1, prev) % 2 == 1 {
                f.update(idx as int, Some(prev))
            } else if f[prev as int] != Some(prev) {
                f.update(idx as int, f[prev as int])
            } else {
                f.update(idx as int, Some(idx))
            }
        }
    }
}

/// `f` is an inclusion forest: every father is a classified shape, and a
/// rank that strictly decreases from each non-root shape to its father exists.
pub open spec fn is_forest(f: Seq<Option<usize>>) -> bool {
    exists|rank: Seq<nat>| #[trigger] ranks_decrease(f, rank)
}

pub open spec fn ranks_decrease(f: Seq<Option<usize>>, rank: Seq<nat>) -> bool {
    &&& rank.len() == f.len()
    &&& forall|i: int|
        0 <= i < f.len() && #[trigger] f[i] is Some ==> {
            let p = f[i]->0 as int;
            &&& 0 <= p < f.len()
            &&& f[p] is Some
            &&& p != i ==> rank[p] < rank[i]
        }
}

/// The shape reached from `i` after walking `k` times to the father.
pub open spec fn walk(f: Seq<Option<usize>>, i: int, k: nat) -> int
    decreases k,
{
    if k == 0 {
        i
    } else {
        match f[i] {
            Some(p) => walk(f, p as int, (k - 1) as nat),
            None => i,
        }
    }
}

/// In an inclusion forest, walking from a classified shape to its father
/// repeatedly reaches a root (a shape that is its own father).
pub proof fn lemma_father_walk_reaches_root(f: Seq<Option<usize>>, i: int)
    requires
        is_forest(f),
        0 <= i < f.len(),
        f[i] is Some,
    ensures
        exists|k: nat| #[trigger] f[walk(f, i, k)] == Some(walk(f, i, k) as usize),
{
    let rank = choose|rank: Seq<nat>| ranks_decrease(f, rank);
    let k = walk_to_root(f, rank, i);
    assert(f[walk(f, i, k)] == Some(walk(f, i, k) as usize));
}

proof fn walk_to_root(f: Seq<Option<usize>>, rank: Seq<nat>, i: int) -> (k: nat)
    requires
        ranks_decrease(f, rank),
        0 <= i < f.len(),
        f[i] is Some,
    ensures
        0 <= walk(f, i, k) < f.len(),
        f[walk(f, i, k)] == Some(walk(f, i, k) as usize),
    decreases rank[i],
{
    let p = f[i]->0 as int;
    if p == i {
        0
    } else {
        let k = walk_to_root(f, rank, p);
        assert(walk(f, i, k + 1) == walk(f, p, k));
        k + 1
    }
}

/// In an inclusion forest where every shape is classified, walking from
/// any shape to its father reaches a root in fewer steps than there are
/// shapes.
pub proof fn lemma_father_walk_within_count(f: Seq<Option<usize>>, i: int)
    requires
        is_forest(f),
        0 <= i < f.len(),
        forall|j: int| 0 <= j < f.len() ==> #[trigger] f[j] is Some,
    ensures
        exists|k: nat| k < f.len() && #[trigger] f[walk(f, i, k)] == Some(walk(f, i, k) as usize),
{
    let rank = choose|rank: Seq<nat>| ranks_decrease(f, rank);
    let n = f.len();
    if !exists|k: nat| k < n && #[trigger] f[walk(f, i, k)] == Some(walk(f, i, k) as usize) {
        assert forall|k: nat| k < n implies #[trigger] f[walk(f, i, k)] != Some(walk(f, i, k) as usize) by {}
        let s = Seq::new((n + 1) as nat, |k: int| walk(f, i, k as nat));
        assert forall|k1: int, k2: int| 0 <= k1 < k2 < s.len() implies s[k1] != s[k2] by {
            rank_strict(f, rank, i, k1 as nat, k2 as nat);
        }
        assert(s.no_duplicates());
        s.unique_seq_to_set();
        vstd::set_lib::lemma_int_range(0, n as int);
        assert forall|x: int| s.to_set().contains(x) implies vstd::set_lib::set_int_range(0, n as int).contains(x) by {
            let k = choose|k: int| 0 <= k < s.len() && s[k] == x;
            walk_rank(f, rank, i, k as nat);
        }
        vstd::set_lib::lemma_len_subset(s.to_set(), vstd::set_lib::set_int_range(0, n as int));
    }
}

proof fn walk_succ(f: Seq<Option<usize>>, rank: Seq<nat>, i: int, k: nat)
    requires
        ranks_decrease(f, rank),
        0 <= i < f.len(),
        f[i] is Some,
    ensures
        walk(f, i, k + 1) == f[walk(f, i, k)]->0 as int,
    decreases k,
{
    let p = f[i]->0 as int;
    assert(0 <= p < f.len() && f[p] is Some);
    assert(walk(f, i, k + 1) == walk(f, p, k));
    if k > 0 {
        assert(walk(f, i, k) == walk(f, p, (k - 1) as nat));
        walk_succ(f, rank, p, (k - 1) as nat);
    }
}

proof fn rank_strict(f: Seq<Option<usize>>, rank: Seq<nat>, i: int, k1: nat, k2: nat)
    requires
        ranks_decrease(f, rank),
        0 <= i < f.len(),
        f[i] is Some,
        k1 < k2 <= f.len(),
        forall|k: nat| k < f.len() ==> #[trigger] f[walk(f, i, k)] != Some(walk(f, i, k) as usize),
    ensures
        rank[walk(f, i, k2)] < rank[walk(f, i, k1)],
    decreases k2 - k1,
{
    walk_rank(f, rank, i, k1);
    walk_succ(f, rank, i, k1);
    assert(f[walk(f, i, k1)] != Some(walk(f, i, k1) as usize));
    if k1 + 1 < k2 {
        rank_strict(f, rank, i, k1 + 1, k2);
    }
}

/// In an inclusion forest no walk from a non-root shape comes back to it.
pub proof fn lemma_father_walk_acyclic(f: Seq<Option<usize>>, i: int, k: nat)
    requires
        is_forest(f),
        0 <= i < f.len(),
        f[i] is Some,
        f[i] != Some(i as usize),
        k > 0,
    ensures
        walk(f, i, k) != i,
{
    let rank = choose|rank: Seq<nat>| ranks_decrease(f, rank);
    walk_rank(f, rank, f[i]->0 as int, (k - 1) as nat);
}

proof fn walk_rank(f: Seq<Option<usize>>, rank: Seq<nat>, i: int, k: nat)
    requires
        ranks_decrease(f, rank),
        0 <= i < f.len(),
        f[i] is Some,
    ensures
        0 <= walk(f, i, k) < f.len(),
        f[walk(f, i, k)] is Some,
        rank[walk(f, i, k)] <= rank[i],
    decreases k,
{
    if k > 0 {
        walk_rank(f, rank, f[i]->0 as int, (k - 1) as nat);
    }
}

/// `p` is a root, or the shape of one of the first `j` classified pairs.
pub open spec fn father_known_before(roots: Seq<usize>, classified: Seq<(usize, usize)>, p: usize, j: int) -> bool {
    roots.contains(p) || exists|j2: int| 0 <= j2 < j && #[trigger] classified[j2].0 == p
}

/// State of a classification: for each shape its father (itself for a
/// root, `None` while unknown), the roots and the (shape, father) pairs.
pub struct Classification {
    fathers: Vec<Option<usize>>,
    roots: Vec<usize>,
    classified: Vec<(usize, usize)>,
    rank: Ghost<Seq<nat>>,
    clock: Ghost<nat>,
}

impl Classification {
    pub closed spec fn fathers_view(&self) -> Seq<Option<usize>> {
        self.fathers@
    }

    pub closed spec fn roots_view(&self) -> Seq<usize> {
        self.roots@
    }

    pub closed spec fn classified_view(&self) -> Seq<(usize, usize)> {
        self.classified@
    }

    pub closed spec fn wf(&self) -> bool {
        &&& ranks_decrease(self.fathers@, self.rank@)
        &&& forall|i: int|
            0 <= i < self.fathers@.len() ==> #[trigger] self.rank@[i] < self.clock@
        &&& forall|s: usize|
            #[trigger] self.roots@.contains(s) <==> (s < self.fathers@.len() && self.fathers@[s as int]
                == Some(s))
        &&& forall|s: usize, p: usize|
            #[trigger] self.classified@.contains((s, p)) <==> (s < self.fathers@.len()
                && self.fathers@[s as int] == Some(p) && p != s)
        &&& self.roots@.no_duplicates()
        &&& forall|j1: int, j2: int|
            0 <= j1 < self.classified@.len() && 0 <= j2 < self.classified@.len()
                && #[trigger] self.classified@[j1].0 == #[trigger] self.classified@[j2].0 ==> j1 == j2
        &&& forall|j: int|
            0 <= j < self.classified@.len() ==> father_known_before(
                self.roots@,
                self.classified@,
                #[trigger] self.classified@[j].1,
                j,
            )
    }

    /// Every shape is classified.
    pub open spec fn complete(&self) -> bool {
        forall|i: int| 0 <= i < self.fathers_view().len() ==> #[trigger] self.fathers_view()[i] is Some
    }

    /// A new classification of `n` shapes, none classified yet.
    pub fn new(n: usize) -> (r: Self)
        ensures
            r.wf(),
            r.fathers_view() == Seq::new(n as nat, |i: int| None::<usize>),
    {
        let mut fathers: Vec<Option<usize>> = Vec::new();
        let mut i: usize = 0;
        while i < n
            invariant
                i <= n,
                fathers@ == Seq::new(i as nat, |j: int| None::<usize>),
            decreases n - i,
        {
            fathers.push(None);
            i = i + 1;
            assert(fathers@ =~= Seq::new(i as nat, |j: int| None::<usize>));
        }
        Classification {
            fathers,
            roots: Vec::new(),
            classified: Vec::new(),
            rank: Ghost(Seq::new(n as nat, |j: int| 0nat)),
            clock: Ghost(1),
        }
    }

    /// The lowest-index shape not classified yet.
    pub fn first_unclassified(&self) -> (r: Option<usize>)
        ensures
            r matches Some(u) ==> u < self.fathers_view().len() && self.fathers_view()[u as int] is None
                && forall|j: int| 0 <= j < u ==> #[trigger] self.fathers_view()[j] is Some,
            r is None ==> forall|j: int|
                0 <= j < self.fathers_view().len() ==> #[trigger] self.fathers_view()[j] is Some,
    {
        let mut i: usize = 0;
        while i < self.fathers.len()
            invariant
                i <= self.fathers@.len(),
                forall|j: int| 0 <= j < i ==> #[trigger] self.fathers@[j] is Some,
            decreases self.fathers@.len() - i,
        {
            if self.fathers[i].is_none() {
                return Some(i);
            }
            i = i + 1;
        }
        None
    }
    /// Classifies from one sweep: `crossings` lists, from left to right, the
    /// shape of each crossing of one horizontal line.
    pub fn sweep(&mut self, crossings: &Vec<usize>)
        requires
            old(self).wf(),
            forall|j: int|
                0 <= j < crossings@.len() ==> #[trigger] crossings@[j] < old(self).fathers_view().len(),
        ensures
            final(self).wf(),
            final(self).fathers_view() == fathers_after(
                old(self).fathers_view(),
                crossings@,
                crossings@.len() as int,
            ),
    {
        let n = self.fathers.len();
        let ghost f0 = self.fathers@;
        let ghost c = crossings@;
        if crossings.len() == 0 {
            return;
        }
        let mut counts: Vec<usize> = Vec::new();
        let mut i: usize = 0;
        while i < n
            invariant
                i <= n,
                counts@ == Seq::new(i as nat, |j: int| 0usize),
            decreases n - i,
        {
            counts.push(0);
            i = i + 1;
            assert(counts@ =~= Seq::new(i as nat, |j: int| 0usize));
        }
        let first = crossings[0];
        assert(fathers_after(f0, c, 0) == f0);
        if self.fathers[first].is_none() {
            self.classify(first, first);
        }
        assert(self.fathers@ == fathers_after(f0, c, 1));
        counts.set(first, 1);
        assert forall|s: int| 0 <= s < n implies #[trigger] counts@[s] == occurrences(c, 1, s as usize) by {
            assert(occurrences(c, 0, s as usize) == 0);
        }
        let mut prev = first;
        let mut k: usize = 1;
        while k < crossings.len()
            invariant
                self.wf(),
                n == self.fathers@.len(),
                c == crossings@,
                forall|j: int| 0 <= j < c.len() ==> #[trigger] c[j] < n,
                1 <= k <= c.len(),
                prev == c[k - 1],
                self.fathers@ == fathers_after(f0, c, k as int),
                self.fathers@[prev as int] is Some,
                counts@.len() == n,
                forall|s: int| 0 <= s < n ==> #[trigger] counts@[s] == occurrences(c, k as int, s as usize),
                forall|s: int| 0 <= s < n ==> #[trigger] counts@[s] <= k,
            decreases c.len() - k,
        {
            let idx = crossings[k];
            assert(occurrences(c, k as int, prev) == counts@[prev as int]);
            if self.fathers[idx].is_none() {
                if counts[prev] % 2 == 1 {
                    self.classify(idx, prev);
                } else {
                    match self.fathers[prev] {
                        Some(g) => {
                            if g != prev {
                                self.classify(idx, g);
                            } else {
                                self.classify(idx, idx);
                            }
                        },
                        None => {},
                    }
                }
            }
            assert(self.fathers@ == fathers_after(f0, c, k + 1));
            counts.set(idx, counts[idx] + 1);
            prev = idx;
            k = k + 1;
            assert forall|s: int| 0 <= s < n implies #[trigger] counts@[s] == occurrences(c, k as int, s as usize) by {
                assert(occurrences(c, k as int, s as usize) == occurrences(c, k - 1, s as usize) + if c[k - 1] == s as usize { 1nat } else { 0nat });
            }
        }
    }

    /// Gives the unclassified shape `s` the father `p` (itself for a root).
    fn classify(&mut self, s: usize, p: usize)
        requires
            old(self).wf(),
            s < old(self).fathers_view().len(),
            p < old(self).fathers_view().len(),
            old(self).fathers_view()[s as int] is None,
            old(self).fathers_view()[p as int] is Some || p == s,
        ensures
            final(self).wf(),
            final(self).fathers_view() == old(self).fathers_view().update(s as int, Some(p)),
    {
        let ghost old_f = self.fathers@;
        let ghost old_roots = self.roots@;
        let ghost old_classified = self.classified@;
        self.fathers.set(s, Some(p));
        if p == s {
            self.roots.push(s);
        } else {
            self.classified.push((s, p));
        }
        let ghost t = self.clock@;
        self.rank = Ghost(self.rank@.update(s as int, t));
        self.clock = Ghost(t + 1);
        if p == s {
            assert(!old_roots.contains(s));
            assert forall|j1: int, j2: int| 0 <= j1 < j2 < self.roots@.len() implies self.roots@[j1] != self.roots@[j2] by {
                if j2 == old_roots.len() {
                    assert(old_roots.contains(old_roots[j1]));
                }
            }
        }
        assert forall|x: usize| #[trigger] self.roots@.contains(x) <==> (x < self.fathers@.len()
            && self.fathers@[x as int] == Some(x)) by {
            if p == s {
                assert(self.roots@ == old_roots.push(s));
                if old_roots.contains(x) {
                    let j = choose|j: int| 0 <= j < old_roots.len() && old_roots[j] == x;
                    assert(self.roots@[j] == x);
                }
                if x == s {
                    assert(self.roots@[old_roots.len() as int] == x);
                }
            } else {
                assert(self.roots@ == old_roots);
            }
        }
        assert forall|x: usize, q: usize| #[trigger] self.classified@.contains((x, q)) <==> (x
            < self.fathers@.len() && self.fathers@[x as int] == Some(q) && q != x) by {
            if p != s {
                assert(self.classified@ == old_classified.push((s, p)));
                if old_classified.contains((x, q)) {
                    let j = choose|j: int| 0 <= j < old_classified.len() && old_classified[j] == (x, q);
                    assert(self.classified@[j] == (x, q));
                }
                if x == s && q == p {
                    assert(self.classified@[old_classified.len() as int] == (x, q));
                }
            } else {
                assert(self.classified@ == old_classified);
            }
        }
        if p != s {
            assert(self.classified@ == old_classified.push((s, p)));
            assert forall|j1: int, j2: int|
                0 <= j1 < self.classified@.len() && 0 <= j2 < self.classified@.len()
                    && #[trigger] self.classified@[j1].0 == #[trigger] self.classified@[j2].0 implies j1 == j2 by {
                if j1 < old_classified.len() && j2 == old_classified.len() {
                    assert(old_classified.contains((old_classified[j1].0, old_classified[j1].1)));
                }
                if j2 < old_classified.len() && j1 == old_classified.len() {
                    assert(old_classified.contains((old_classified[j2].0, old_classified[j2].1)));
                }
            }
            assert forall|j: int| 0 <= j < self.classified@.len() implies father_known_before(
                self.roots@,
                self.classified@,
                #[trigger] self.classified@[j].1,
                j,
            ) by {
                if j < old_classified.len() {
                    assert(father_known_before(old_roots, old_classified, old_classified[j].1, j));
                    if !old_roots.contains(old_classified[j].1) {
                        let j2 = choose|j2: int| 0 <= j2 < j && #[trigger] old_classified[j2].0 == old_classified[j].1;
                        assert(self.classified@[j2].0 == self.classified@[j].1);
                    }
                } else {
                    if !old_roots.contains(p) {
                        assert(old_f[p as int] is Some);
                        let q = old_f[p as int]->0;
                        assert(q != p);
                        assert(old_classified.contains((p, q)));
                        let j2 = choose|j2: int| 0 <= j2 < old_classified.len() && old_classified[j2] == (p, q);
                        assert(self.classified@[j2].0 == p);
                    }
                }
            }
        } else {
            assert forall|j: int| 0 <= j < self.classified@.len() implies father_known_before(
                self.roots@,
                self.classified@,
                #[trigger] self.classified@[j].1,
                j,
            ) by {
                assert(father_known_before(old_roots, old_classified, old_classified[j].1, j));
                if old_roots.contains(old_classified[j].1) {
                    let k = choose|k: int| 0 <= k < old_roots.len() && old_roots[k] == old_classified[j].1;
                    assert(self.roots@[k] == old_classified[j].1);
                } else {
                    let j2 = choose|j2: int| 0 <= j2 < j && #[trigger] old_classified[j2].0 == old_classified[j].1;
                    assert(self.classified@[j2].0 == self.classified@[j].1);
                }
            }
        }
    }

    /// The fathers: for each shape its father, itself for a root, `None`
    /// while unknown. They always form an inclusion forest.
    pub fn fathers(&self) -> (r: &Vec<Option<usize>>)
        requires
            self.wf(),
        ensures
            r@ == self.fathers_view(),
            is_forest(r@),
    {
        assert(ranks_decrease(self.fathers@, self.rank@));
        &self.fathers
    }

    /// The roots, in the order in which they were found.
    pub fn roots(&self) -> (r: &Vec<usize>)
        requires
            self.wf(),
        ensures
            r@ == self.roots_view(),
            r@.no_duplicates(),
            forall|s: usize| #[trigger] r@.contains(s) <==> (s < self.fathers_view().len()
                && self.fathers_view()[s as int] == Some(s)),
    {
        &self.roots
    }

    /// The (shape, father) pairs of the shapes that are not roots, in the
    /// order in which they were classified.
    pub fn classified(&self) -> (r: &Vec<(usize, usize)>)
        requires
            self.wf(),
        ensures
            r@ == self.classified_view(),
            forall|j1: int, j2: int|
                0 <= j1 < r@.len() && 0 <= j2 < r@.len() && #[trigger] r@[j1].0 == #[trigger] r@[j2].0 ==> j1 == j2,
            forall|s: usize, p: usize| #[trigger] r@.contains((s, p)) <==> (s < self.fathers_view().len()
                && self.fathers_view()[s as int] == Some(p) && p != s),
    {
        &self.classified
    }
    /// Tells whether every shape is classified.
    pub fn is_complete(&self) -> (r: bool)
        ensures
            r == self.complete(),
    {
        self.first_unclassified().is_none()
    }

    /// Depth of each shape in the forest: 0 for a root, one more than its
    /// father for any other shape.
    pub fn depths(&self) -> (r: Vec<usize>)
        requires
            self.wf(),
        ensures
            r@.len() == self.fathers_view().len(),
            forall|i: int|
                0 <= i < r@.len() && #[trigger] self.fathers_view()[i] == Some(i as usize) ==> r@[i] == 0,
            forall|i: int|
                0 <= i < r@.len() && #[trigger] self.fathers_view()[i] is Some && self.fathers_view()[i]
                    != Some(i as usize) ==> r@[i] == r@[self.fathers_view()[i]->0 as int] + 1,
    {
        let n = self.fathers.len();
        let mut d: Vec<usize> = Vec::new();
        let mut i: usize = 0;
        while i < n
            invariant
                i <= n,
                d@ == Seq::new(i as nat, |j: int| 0usize),
            decreases n - i,
        {
            d.push(0);
            i = i + 1;
            assert(d@ =~= Seq::new(i as nat, |j: int| 0usize));
        }
        let ghost cl = self.classified@;
        let ghost roots = self.roots@;
        assert forall|k: int| 0 <= k < cl.len() implies (#[trigger] cl[k]).0 < n && cl[k].1 < n && cl[k].0 != cl[k].1 by {
            assert(cl.contains((cl[k].0, cl[k].1)));
        }
        let mut j: usize = 0;
        while j < self.classified.len()
            invariant
                self.wf(),
                n == self.fathers@.len(),
                cl == self.classified@,
                roots == self.roots@,
                d@.len() == n,
                j <= cl.len(),
                forall|k: int| 0 <= k < cl.len() ==> (#[trigger] cl[k]).0 < n && cl[k].1 < n && cl[k].0 != cl[k].1,
                forall|s: usize| #[trigger] roots.contains(s) ==> d@[s as int] == 0,
                forall|k: int| 0 <= k < n ==> #[trigger] d@[k] <= j,
                forall|k: int|
                    0 <= k < j ==> d@[(#[trigger] cl[k]).0 as int] == d@[cl[k].1 as int] + 1,
                forall|k: int|
                    j <= k < cl.len() ==> d@[(#[trigger] cl[k]).0 as int] == 0,
            decreases cl.len() - j,
        {
            let (s, p) = self.classified[j];
            assert(cl.contains((s, p)));
            assert(father_known_before(roots, cl, p, j as int));
            let ghost old_d = d@;
            let v = d[p] + 1;
            d.set(s, v);
            assert forall|k: int| 0 <= k < j + 1 implies d@[(#[trigger] cl[k]).0 as int] == d@[cl[k].1 as int] + 1 by {
                if k < j {
                    assert(cl[k].0 != s);
                    if cl[k].1 == s {
                        assert(cl.contains((cl[k].0, cl[k].1)));
                        assert(father_known_before(roots, cl, cl[k].1, k));
                        if roots.contains(s) {
                            assert(cl.contains((s, p)));
                        } else {
                            let k2 = choose|k2: int| 0 <= k2 < k && #[trigger] cl[k2].0 == cl[k].1;
                            assert(cl[k2].0 == cl[j as int].0);
                        }
                    }
                }
            }
            assert forall|r: usize| #[trigger] roots.contains(r) implies d@[r as int] == 0 by {
                if r == s {
                    assert(cl.contains((s, p)));
                }
            }
            assert forall|k: int| j + 1 <= k < cl.len() implies d@[(#[trigger] cl[k]).0 as int] == 0 by {
                assert(cl[k].0 != cl[j as int].0);
            }
            j = j + 1;
        }
        assert forall|i: int|
            0 <= i < d@.len() && #[trigger] self.fathers@[i] is Some && self.fathers@[i]
                != Some(i as usize) implies d@[i] == d@[self.fathers@[i]->0 as int] + 1 by {
            let p = self.fathers@[i]->0;
            assert(cl.contains((i as usize, p)));
            let k = choose|k: int| 0 <= k < cl.len() && cl[k] == (i as usize, p);
            assert(d@[(cl[k]).0 as int] == d@[cl[k].1 as int] + 1);
        }
        assert forall|i: int|
            0 <= i < d@.len() && #[trigger] self.fathers@[i] == Some(i as usize) implies d@[i] == 0 by {
            assert(roots.contains(i as usize));
        }
        d
    }
}

} // verus!
