//! Grouping of classified faces into outer faces with their holes.
//!
//! Faces at even depth of the inclusion forest are outer faces; a face at
//! odd depth is a hole of its father. Pockets left by an offset keep only
//! the roots as outer pockets, each with its direct children as holes.
use vstd::prelude::*;
use crate::classifier::{Classification, is_forest, ranks_decrease};

verus! {

/// `d` gives each shape its depth in `f`: 0 for a root, one more than the
/// father for any other shape.
pub open spec fn depth_solves(f: Seq<Option<usize>>, d: Seq<usize>) -> bool {
    &&& d.len() == f.len()
    &&& forall|i: int| 0 <= i < f.len() && #[trigger] f[i] == Some(i as usize) ==> d[i] == 0
    &&& forall|i: int|
        0 <= i < f.len() && #[trigger] f[i] is Some && f[i] != Some(i as usize) ==> d[i] == d[f[i]->0 as int]
            + 1
}

/// `r` lists, by increasing index, each face of even depth with the faces
/// whose father it is (by increasing index).
pub open spec fn holed_parts(f: Seq<Option<usize>>, d: Seq<usize>, r: Seq<(usize, Vec<usize>)>) -> bool {
    &&& forall|k: int| 0 <= k < r.len() ==> (#[trigger] r[k]).0 < f.len() && d[r[k].0 as int] % 2 == 0
    &&& forall|k1: int, k2: int| 0 <= k1 < k2 < r.len() ==> (#[trigger] r[k1]).0 < (#[trigger] r[k2]).0
    &&& forall|i: int| 0 <= i < f.len() && #[trigger] d[i] % 2 == 0 ==> exists|k: int| 0 <= k < r.len() && #[trigger] r[k].0 == i
    &&& forall|k: int, m: int|
        0 <= k < r.len() && 0 <= m < r[k].1@.len() ==> {
            let j = #[trigger] r[k].1@[m];
            &&& j < f.len()
            &&& f[j as int] == Some(r[k].0)
            &&& j != r[k].0
        }
    &&& forall|k: int, m1: int, m2: int|
        0 <= k < r.len() && 0 <= m1 < m2 < r[k].1@.len() ==> #[trigger] r[k].1@[m1] < #[trigger] r[k].1@[m2]
    &&& forall|k: int, j: usize|
        0 <= k < r.len() && j < f.len() && #[trigger] f[j as int] == Some((#[trigger] r[k]).0) && j != r[k].0
            ==> r[k].1@.contains(j)
}

/// In an inclusion forest where every shape is classified, the depths are
/// unique.
pub proof fn lemma_depths_unique(f: Seq<Option<usize>>, d1: Seq<usize>, d2: Seq<usize>)
    requires
        is_forest(f),
        forall|i: int| 0 <= i < f.len() ==> #[trigger] f[i] is Some,
        depth_solves(f, d1),
        depth_solves(f, d2),
    ensures
        d1 == d2,
{
    let rank = choose|rank: Seq<nat>| ranks_decrease(f, rank);
    assert forall|i: int| 0 <= i < f.len() implies d1[i] == d2[i] by {
        depth_equal_at(f, rank, d1, d2, i);
    }
    assert(d1 =~= d2);
}

proof fn depth_equal_at(f: Seq<Option<usize>>, rank: Seq<nat>, d1: Seq<usize>, d2: Seq<usize>, i: int)
    requires
        ranks_decrease(f, rank),
        forall|i: int| 0 <= i < f.len() ==> #[trigger] f[i] is Some,
        depth_solves(f, d1),
        depth_solves(f, d2),
        0 <= i < f.len(),
    ensures
        d1[i] == d2[i],
    decreases rank[i],
{
    assert(f[i] is Some);
    let p = f[i]->0 as int;
    if p != i {
        depth_equal_at(f, rank, d1, d2, p);
    }
}

/// Groups the classified faces: each face of even depth, by increasing
/// index, with the faces directly inside it (its holes), by increasing index.
pub fn build_holed_polygons(c: &Classification) -> (r: Vec<(usize, Vec<usize>)>)
    requires
        c.wf(),
        c.complete(),
    ensures
        exists|d: Seq<usize>| depth_solves(c.fathers_view(), d) && holed_parts(c.fathers_view(), d, r@),
{
    let d = c.depths();
    let f = c.fathers();
    let n = f.len();
    let mut r: Vec<(usize, Vec<usize>)> = Vec::new();
    let mut i: usize = 0;
    assert(depth_solves(f@, d@));
    while i < n
        invariant
            n == f@.len(),
            d@.len() == n,
            i <= n,
            depth_solves(f@, d@),
            forall|k: int| 0 <= k < r@.len() ==> (#[trigger] r@[k]).0 < i && d@[r@[k].0 as int] % 2 == 0,
            forall|k1: int, k2: int| 0 <= k1 < k2 < r@.len() ==> (#[trigger] r@[k1]).0 < (#[trigger] r@[k2]).0,
            forall|x: int| 0 <= x < i && #[trigger] d@[x] % 2 == 0 ==> exists|k: int| 0 <= k < r@.len() && #[trigger] r@[k].0 == x,
            forall|k: int, m: int|
                0 <= k < r@.len() && 0 <= m < r@[k].1@.len() ==> {
                    let j = #[trigger] r@[k].1@[m];
                    &&& j < n
                    &&& f@[j as int] == Some(r@[k].0)
                    &&& j != r@[k].0
                },
            forall|k: int, m1: int, m2: int|
                0 <= k < r@.len() && 0 <= m1 < m2 < r@[k].1@.len() ==> #[trigger] r@[k].1@[m1] < #[trigger] r@[k].1@[m2],
            forall|k: int, j: usize|
                0 <= k < r@.len() && j < n && #[trigger] f@[j as int] == Some((#[trigger] r@[k]).0) && j != r@[k].0
                    ==> r@[k].1@.contains(j),
        decreases n - i,
    {
        if d[i] % 2 == 0 {
            let holes = children_of(f, i);
            let ghost old_r = r@;
            r.push((i, holes));
            assert(r@[old_r.len() as int].0 == i);
            assert forall|x: int| 0 <= x < i + 1 && #[trigger] d@[x] % 2 == 0 implies exists|k: int| 0 <= k < r@.len() && #[trigger] r@[k].0 == x by {
                if x < i {
                    let k = choose|k: int| 0 <= k < old_r.len() && #[trigger] old_r[k].0 == x;
                    assert(r@[k].0 == x);
                } else {
                    assert(r@[old_r.len() as int].0 == x);
                }
            }
            assert forall|k: int, h: usize|
                0 <= k < r@.len() && h < n && #[trigger] f@[h as int] == Some((#[trigger] r@[k]).0) && h != r@[k].0
                    implies r@[k].1@.contains(h) by {
                if k < old_r.len() {
                    assert(r@[k] == old_r[k]);
                }
            }
        }
        i = i + 1;
    }
    assert(holed_parts(f@, d@, r@));
    r
}

/// `r` lists, by increasing index, each root of `f` with the shapes whose
/// father it is (by increasing index).
pub open spec fn roots_with_children(f: Seq<Option<usize>>, r: Seq<(usize, Vec<usize>)>) -> bool {
    &&& forall|k: int| 0 <= k < r.len() ==> (#[trigger] r[k]).0 < f.len() && f[r[k].0 as int] == Some(r[k].0)
    &&& forall|k1: int, k2: int| 0 <= k1 < k2 < r.len() ==> (#[trigger] r[k1]).0 < (#[trigger] r[k2]).0
    &&& forall|i: int| 0 <= i < f.len() && #[trigger] f[i] == Some(i as usize) ==> exists|k: int| 0 <= k < r.len() && #[trigger] r[k].0 == i
    &&& forall|k: int, m: int|
        0 <= k < r.len() && 0 <= m < r[k].1@.len() ==> {
            let j = #[trigger] r[k].1@[m];
            &&& j < f.len()
            &&& f[j as int] == Some(r[k].0)
            &&& j != r[k].0
        }
    &&& forall|k: int, m1: int, m2: int|
        0 <= k < r.len() && 0 <= m1 < m2 < r[k].1@.len() ==> #[trigger] r[k].1@[m1] < #[trigger] r[k].1@[m2]
    &&& forall|k: int, j: usize|
        0 <= k < r.len() && j < f.len() && #[trigger] f[j as int] == Some((#[trigger] r[k]).0) && j != r[k].0
            ==> r[k].1@.contains(j)
}

/// The shapes whose father is `i` (other than `i` itself), by increasing index.
fn children_of(f: &Vec<Option<usize>>, i: usize) -> (holes: Vec<usize>)
    requires
        i < f@.len(),
    ensures
        forall|m: int| 0 <= m < holes@.len() ==> {
            let h = #[trigger] holes@[m];
            &&& h < f@.len()
            &&& f@[h as int] == Some(i)
            &&& h != i
        },
        forall|m1: int, m2: int| 0 <= m1 < m2 < holes@.len() ==> #[trigger] holes@[m1] < #[trigger] holes@[m2],
        forall|h: usize| h < f@.len() && #[trigger] f@[h as int] == Some(i) && h != i ==> holes@.contains(h),
{
    let n = f.len();
    let mut holes: Vec<usize> = Vec::new();
    let mut j: usize = 0;
    while j < n
        invariant
            n == f@.len(),
            i < n,
            j <= n,
            forall|m: int| 0 <= m < holes@.len() ==> {
                let h = #[trigger] holes@[m];
                &&& h < j
                &&& f@[h as int] == Some(i)
                &&& h != i
            },
            forall|m1: int, m2: int| 0 <= m1 < m2 < holes@.len() ==> #[trigger] holes@[m1] < #[trigger] holes@[m2],
            forall|h: usize| h < j && #[trigger] f@[h as int] == Some(i) && h != i ==> holes@.contains(h),
        decreases n - j,
    {
        let is_child = match f[j] {
            Some(p) => p == i && j != i,
            None => false,
        };
        let ghost old_holes = holes@;
        if is_child {
            holes.push(j);
            assert(holes@[old_holes.len() as int] == j);
        }
        assert forall|h: usize| h < j + 1 && #[trigger] f@[h as int] == Some(i) && h != i implies holes@.contains(h) by {
            if h < j {
                assert(old_holes.contains(h));
                let m = choose|m: int| 0 <= m < old_holes.len() && old_holes[m] == h;
                assert(holes@[m] == h);
            }
        }
        j = j + 1;
    }
    holes
}

/// Groups classified pockets: each root, by increasing index, with the
/// pockets directly inside it (its holes), by increasing index.
pub fn build_holed_pockets(c: &Classification) -> (r: Vec<(usize, Vec<usize>)>)
    requires
        c.wf(),
    ensures
        roots_with_children(c.fathers_view(), r@),
{
    let f = c.fathers();
    let n = f.len();
    let mut r: Vec<(usize, Vec<usize>)> = Vec::new();
    let mut i: usize = 0;
    while i < n
        invariant
            n == f@.len(),
            i <= n,
            forall|k: int| 0 <= k < r@.len() ==> (#[trigger] r@[k]).0 < i && f@[r@[k].0 as int] == Some(r@[k].0),
            forall|k1: int, k2: int| 0 <= k1 < k2 < r@.len() ==> (#[trigger] r@[k1]).0 < (#[trigger] r@[k2]).0,
            forall|x: int| 0 <= x < i && #[trigger] f@[x] == Some(x as usize) ==> exists|k: int| 0 <= k < r@.len() && #[trigger] r@[k].0 == x,
            forall|k: int, m: int|
                0 <= k < r@.len() && 0 <= m < r@[k].1@.len() ==> {
                    let j = #[trigger] r@[k].1@[m];
                    &&& j < n
                    &&& f@[j as int] == Some(r@[k].0)
                    &&& j != r@[k].0
                },
            forall|k: int, m1: int, m2: int|
                0 <= k < r@.len() && 0 <= m1 < m2 < r@[k].1@.len() ==> #[trigger] r@[k].1@[m1] < #[trigger] r@[k].1@[m2],
            forall|k: int, j: usize|
                0 <= k < r@.len() && j < n && #[trigger] f@[j as int] == Some((#[trigger] r@[k]).0) && j != r@[k].0
                    ==> r@[k].1@.contains(j),
        decreases n - i,
    {
        let is_root = match f[i] {
            Some(p) => p == i,
            None => false,
        };
        if is_root {
            let holes = children_of(f, i);
            let ghost old_r = r@;
            r.push((i, holes));
            assert(r@[old_r.len() as int].0 == i);
            assert forall|x: int| 0 <= x < i + 1 && #[trigger] f@[x] == Some(x as usize) implies exists|k: int| 0 <= k < r@.len() && #[trigger] r@[k].0 == x by {
                if x < i {
                    let k = choose|k: int| 0 <= k < old_r.len() && #[trigger] old_r[k].0 == x;
                    assert(r@[k].0 == x);
                } else {
                    assert(r@[old_r.len() as int].0 == x);
                }
            }
            assert forall|k: int, h: usize|
                0 <= k < r@.len() && h < n && #[trigger] f@[h as int] == Some((#[trigger] r@[k]).0) && h != r@[k].0
                    implies r@[k].1@.contains(h) by {
                if k < old_r.len() {
                    assert(r@[k] == old_r[k]);
                }
            }
        }
        i = i + 1;
    }
    r
}

} // verus!
