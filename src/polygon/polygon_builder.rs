//! Extraction of faces from a planar graph by following edges.
//!
//! The graph is given by its directed edges, each edge present in both
//! directions, and for each vertex the edges leaving it, sorted by angle.
//! Arriving at a vertex, a walk leaves by the edge that precedes, in that
//! order, the edge going back to where it came from; each face is thus
//! walked with the face on its left, bounded faces with positive signed
//! area.
use vstd::prelude::*;

verus! {

/// The edges and rotations describe a graph: endpoints are vertices, each
/// vertex lists only edges leaving it, and every edge has a reverse edge.
pub open spec fn graph_ok(edges: Seq<(usize, usize)>, rotations: Seq<Vec<usize>>) -> bool {
    &&& forall|e: int| 0 <= e < edges.len() ==> (#[trigger] edges[e]).0 < rotations.len() && edges[e].1 < rotations.len()
    &&& forall|u: int, s: int|
        0 <= u < rotations.len() && 0 <= s < rotations[u]@.len() ==> {
            let e = #[trigger] rotations[u]@[s];
            &&& e < edges.len()
            &&& edges[e as int].0 == u
        }
    &&& forall|e: int| 0 <= e < edges.len() ==> #[trigger] has_slot_to(edges, rotations[edges[e].1 as int]@, edges[e].0)
}

/// Some edge of `rotation` goes to `target`.
pub open spec fn has_slot_to(edges: Seq<(usize, usize)>, rotation: Seq<usize>, target: usize) -> bool {
    exists|s: int| 0 <= s < rotation.len() && #[trigger] edges[rotation[s] as int].1 == target
}

/// Tells whether the edges and rotations describe a graph fit for face
/// extraction.
pub fn check_graph(edges: &Vec<(usize, usize)>, rotations: &Vec<Vec<usize>>) -> (r: bool)
    ensures
        r == graph_ok(edges@, rotations@),
{
    let n = rotations.len();
    let mut e: usize = 0;
    while e < edges.len()
        invariant
            n == rotations@.len(),
            e <= edges@.len(),
            forall|x: int| 0 <= x < e ==> (#[trigger] edges@[x]).0 < n && edges@[x].1 < n,
        decreases edges@.len() - e,
    {
        if edges[e].0 >= n || edges[e].1 >= n {
            assert(!((edges@[e as int]).0 < n && edges@[e as int].1 < n));
            return false;
        }
        e = e + 1;
    }
    let mut u: usize = 0;
    while u < n
        invariant
            n == rotations@.len(),
            u <= n,
            forall|x: int| 0 <= x < edges@.len() ==> (#[trigger] edges@[x]).0 < n && edges@[x].1 < n,
            forall|v: int, s: int| 0 <= v < u && 0 <= s < rotations@[v]@.len() ==> {
                let x = #[trigger] rotations@[v]@[s];
                &&& x < edges@.len()
                &&& edges@[x as int].0 == v
            },
        decreases n - u,
    {
        let mut s: usize = 0;
        while s < rotations[u].len()
            invariant
                n == rotations@.len(),
                u < n,
                s <= rotations@[u as int]@.len(),
                forall|v: int, t: int| 0 <= v < u && 0 <= t < rotations@[v]@.len() ==> {
                    let x = #[trigger] rotations@[v]@[t];
                    &&& x < edges@.len()
                    &&& edges@[x as int].0 == v
                },
                forall|t: int| 0 <= t < s ==> {
                    let x = #[trigger] rotations@[u as int]@[t];
                    &&& x < edges@.len()
                    &&& edges@[x as int].0 == u
                },
            decreases rotations@[u as int]@.len() - s,
        {
            let x = rotations[u][s];
            if x >= edges.len() || edges[x].0 != u {
                return false;
            }
            s = s + 1;
        }
        u = u + 1;
    }
    let mut e: usize = 0;
    while e < edges.len()
        invariant
            n == rotations@.len(),
            e <= edges@.len(),
            forall|x: int| 0 <= x < edges@.len() ==> (#[trigger] edges@[x]).0 < n && edges@[x].1 < n,
            forall|v: int, s: int| 0 <= v < n && 0 <= s < rotations@[v]@.len() ==> {
                let x = #[trigger] rotations@[v]@[s];
                &&& x < edges@.len()
                &&& edges@[x as int].0 == v
            },
            forall|x: int| 0 <= x < e ==> #[trigger] has_slot_to(edges@, rotations@[edges@[x].1 as int]@, edges@[x].0),
        decreases edges@.len() - e,
    {
        let (a, b) = edges[e];
        let rotation = &rotations[b];
        let mut s: usize = 0;
        let mut found = false;
        while s < rotation.len()
            invariant
                rotation@ == rotations@[b as int]@,
                b < n,
                n == rotations@.len(),
                s <= rotation@.len(),
                forall|t: int| 0 <= t < rotation@.len() ==> #[trigger] rotation@[t] < edges@.len(),
                found ==> has_slot_to(edges@, rotation@, a),
                !found ==> forall|t: int| 0 <= t < s ==> #[trigger] edges@[rotation@[t] as int].1 != a,
            decreases rotation@.len() - s,
        {
            if edges[rotation[s]].1 == a {
                found = true;
                assert(edges@[rotation@[s as int] as int].1 == a);
            }
            s = s + 1;
        }
        if !found {
            assert(!has_slot_to(edges@, rotations@[edges@[e as int].1 as int]@, edges@[e as int].0));
            return false;
        }
        e = e + 1;
    }
    true
}

/// The first slot of `rotation`, from `s` on, whose edge goes to `target`.
pub open spec fn slot_to(edges: Seq<(usize, usize)>, rotation: Seq<usize>, target: usize, s: int) -> int
    decreases rotation.len() - s,
{
    if s >= rotation.len() || s < 0 {
        s
    } else if edges[rotation[s] as int].1 == target {
        s
    } else {
        slot_to(edges, rotation, target, s + 1)
    }
}

/// The edge a walk takes after edge `e`.
pub open spec fn next_edge(edges: Seq<(usize, usize)>, rotations: Seq<Vec<usize>>, e: int) -> int {
    let (p, c) = edges[e];
    let rotation = rotations[c as int]@;
    let back = slot_to(edges, rotation, p, 0);
    rotation[(back + rotation.len() - 1) % (rotation.len() as int)] as int
}

/// The edge reached from `e` after `k` steps of a walk.
pub open spec fn walk_edge(edges: Seq<(usize, usize)>, rotations: Seq<Vec<usize>>, e: int, k: nat) -> int
    decreases k,
{
    if k == 0 {
        e
    } else {
        next_edge(edges, rotations, walk_edge(edges, rotations, e, (k - 1) as nat))
    }
}

proof fn lemma_slot_to(edges: Seq<(usize, usize)>, rotation: Seq<usize>, target: usize, s: int)
    requires
        0 <= s <= rotation.len(),
        exists|t: int| s <= t < rotation.len() && #[trigger] edges[rotation[t] as int].1 == target,
    ensures
        s <= slot_to(edges, rotation, target, s) < rotation.len(),
        edges[rotation[slot_to(edges, rotation, target, s)] as int].1 == target,
    decreases rotation.len() - s,
{
    if edges[rotation[s] as int].1 != target {
        let t = choose|t: int| s <= t < rotation.len() && #[trigger] edges[rotation[t] as int].1 == target;
        assert(t != s);
        lemma_slot_to(edges, rotation, target, s + 1);
    }
}

proof fn lemma_slot_to_ge(edges: Seq<(usize, usize)>, rotation: Seq<usize>, target: usize, s: int)
    requires
        0 <= s,
    ensures
        slot_to(edges, rotation, target, s) >= s,
    decreases rotation.len() - s,
{
    if s < rotation.len() && edges[rotation[s] as int].1 != target {
        lemma_slot_to_ge(edges, rotation, target, s + 1);
    }
}

proof fn lemma_walk_in_range(edges: Seq<(usize, usize)>, rotations: Seq<Vec<usize>>, e: int, k: nat)
    requires
        graph_ok(edges, rotations),
        0 <= e < edges.len(),
    ensures
        0 <= walk_edge(edges, rotations, e, k) < edges.len(),
    decreases k,
{
    if k > 0 {
        lemma_walk_in_range(edges, rotations, e, (k - 1) as nat);
        lemma_next_edge(edges, rotations, walk_edge(edges, rotations, e, (k - 1) as nat));
    }
}

proof fn lemma_next_edge(edges: Seq<(usize, usize)>, rotations: Seq<Vec<usize>>, e: int)
    requires
        graph_ok(edges, rotations),
        0 <= e < edges.len(),
    ensures
        0 <= next_edge(edges, rotations, e) < edges.len(),
        edges[next_edge(edges, rotations, e)].0 == edges[e].1,
{
    let (p, c) = edges[e];
    let rotation = rotations[c as int]@;
    assert(has_slot_to(edges, rotation, p));
    lemma_slot_to(edges, rotation, p, 0);
    let back = slot_to(edges, rotation, p, 0);
    let s = (back + rotation.len() - 1) % (rotation.len() as int);
    assert(0 <= s < rotation.len());
    assert(rotations[c as int]@[s] == rotation[s]);
}

/// The slot of the edge that precedes, around vertex `c`, the edge going
/// back to `p`.
fn find_next_slot(edges: &Vec<(usize, usize)>, rotation: &Vec<usize>, p: usize) -> (r: usize)
    requires
        forall|s: int| 0 <= s < rotation@.len() ==> #[trigger] rotation@[s] < edges@.len(),
        has_slot_to(edges@, rotation@, p),
    ensures
        r as int == (slot_to(edges@, rotation@, p, 0) + rotation@.len() - 1) % (rotation@.len() as int),
{
    proof {
        lemma_slot_to(edges@, rotation@, p, 0);
    }
    let n = rotation.len();
    let mut s: usize = 0;
    while edges[rotation[s]].1 != p
        invariant
            n == rotation@.len(),
            0 <= s <= slot_to(edges@, rotation@, p, 0),
            slot_to(edges@, rotation@, p, s as int) == slot_to(edges@, rotation@, p, 0),
            slot_to(edges@, rotation@, p, 0) < rotation@.len(),
            forall|t: int| 0 <= t < rotation@.len() ==> #[trigger] rotation@[t] < edges@.len(),
        decreases rotation@.len() - s,
    {
        proof {
            lemma_slot_to_ge(edges@, rotation@, p, s + 1);
            assert(slot_to(edges@, rotation@, p, s as int) == slot_to(edges@, rotation@, p, s + 1));
        }
        s = s + 1;
    }
    if s == 0 {
        proof {
            vstd::arithmetic::div_mod::lemma_small_mod((n - 1) as nat, n as nat);
        }
        n - 1
    } else {
        proof {
            vstd::arithmetic::div_mod::lemma_mod_multiples_vanish(1, s - 1, n as int);
            vstd::arithmetic::div_mod::lemma_small_mod((s - 1) as nat, n as nat);
        }
        s - 1
    }
}

/// `f` lists the vertices of the walk that starts with edge `start`, up to
/// its first return to the vertex it started from.
pub open spec fn is_face_walk(edges: Seq<(usize, usize)>, rotations: Seq<Vec<usize>>, start: int, f: Seq<usize>) -> bool {
    &&& 1 <= f.len() <= edges.len()
    &&& forall|i: int| 0 <= i < f.len() ==> #[trigger] f[i] == edges[walk_edge(edges, rotations, start, i as nat)].0
    &&& forall|i: int| 1 <= i < f.len() ==> #[trigger] f[i] != f[0]
    &&& edges[walk_edge(edges, rotations, start, (f.len() - 1) as nat)].1 == f[0]
}

/// `f` is the face walk of some edge.
pub open spec fn face_of_some_edge(edges: Seq<(usize, usize)>, rotations: Seq<Vec<usize>>, f: Seq<usize>) -> bool {
    exists|e: int| 0 <= e < edges.len() && #[trigger] is_face_walk(edges, rotations, e, f)
}

/// The length of the walk from edge `start`: the first `s` (from the given
/// one on, at most as many as there are edges) after which it is back at
/// its starting vertex, or `None` if there is none.
pub open spec fn face_len(edges: Seq<(usize, usize)>, rotations: Seq<Vec<usize>>, start: int, s: nat) -> Option<nat>
    decreases edges.len() - s,
{
    if edges[walk_edge(edges, rotations, start, (s - 1) as nat)].1 == edges[start].0 {
        Some(s)
    } else if s >= edges.len() {
        None
    } else {
        face_len(edges, rotations, start, s + 1)
    }
}

/// The number of edges the walk from `start` uses up: its length when it
/// closes, all the steps it was allowed otherwise.
pub open spec fn walked(edges: Seq<(usize, usize)>, rotations: Seq<Vec<usize>>, start: int) -> nat {
    match face_len(edges, rotations, start, 1) {
        Some(l) => l,
        None => edges.len(),
    }
}

/// The vertices of the first `l` edges of the walk from `start`.
pub open spec fn face_seq(edges: Seq<(usize, usize)>, rotations: Seq<Vec<usize>>, start: int, l: nat) -> Seq<usize> {
    Seq::new(l, |i: int| edges[walk_edge(edges, rotations, start, i as nat)].0)
}

/// `used` with the first `m` edges of the walk from `start` marked.
pub open spec fn mark_walk(used: Seq<bool>, edges: Seq<(usize, usize)>, rotations: Seq<Vec<usize>>, start: int, m: nat) -> Seq<bool>
    decreases m,
{
    if m == 0 {
        used
    } else {
        mark_walk(used, edges, rotations, start, (m - 1) as nat).update(walk_edge(edges, rotations, start, (m - 1) as nat), true)
    }
}

/// The faces found from edge `e` on, with the edges in `used` already used:
/// an unused edge starts a walk, which uses up its edges and gives a face
/// when it closes on three vertices or more.
pub open spec fn faces_from(edges: Seq<(usize, usize)>, rotations: Seq<Vec<usize>>, used: Seq<bool>, e: int) -> Seq<Seq<usize>>
    decreases edges.len() - e,
{
    if e < 0 || e >= edges.len() {
        seq![]
    } else if used[e] {
        faces_from(edges, rotations, used, e + 1)
    } else {
        let rest = faces_from(edges, rotations, mark_walk(used, edges, rotations, e, walked(edges, rotations, e)), e + 1);
        match face_len(edges, rotations, e, 1) {
            Some(l) => if l >= 3 {
                seq![face_seq(edges, rotations, e, l)] + rest
            } else {
                rest
            },
            None => rest,
        }
    }
}

/// Follows the walk that starts with edge `start` until it comes back to
/// the vertex it started from, marking the edges it takes as used. Returns
/// the vertices met, or `None` when the walk does not come back within as
/// many steps as there are edges.
pub fn build_polygon(edges: &Vec<(usize, usize)>, rotations: &Vec<Vec<usize>>, used: &mut Vec<bool>, start: usize) -> (r: Option<Vec<usize>>)
    requires
        graph_ok(edges@, rotations@),
        start < edges@.len(),
        old(used)@.len() == edges@.len(),
    ensures
        final(used)@.len() == edges@.len(),
        forall|e: int| 0 <= e < edges@.len() && #[trigger] old(used)@[e] ==> final(used)@[e],
        final(used)@[start as int],
        r matches Some(f) ==> is_face_walk(edges@, rotations@, start as int, f@),
        r matches Some(f) ==> forall|i: int| 0 <= i < f@.len() ==> final(used)@[#[trigger] walk_edge(edges@, rotations@, start as int, i as nat)],
        r is None ==> forall|i: int| 0 <= i < edges@.len() ==> edges@[#[trigger] walk_edge(edges@, rotations@, start as int, i as nat)].1 != edges@[start as int].0,
        final(used)@ == mark_walk(old(used)@, edges@, rotations@, start as int, walked(edges@, rotations@, start as int)),
        r is Some <==> face_len(edges@, rotations@, start as int, 1) is Some,
        r matches Some(f) ==> f@ == face_seq(edges@, rotations@, start as int, f@.len()) && face_len(edges@, rotations@, start as int, 1) == Some(f@.len()),
{
    let ghost eg = edges@;
    let ghost rs = rotations@;
    let first = edges[start].0;
    let mut face: Vec<usize> = Vec::new();
    face.push(first);
    let ghost u0 = used@;
    used.set(start, true);
    let mut e = start;
    let mut steps: usize = 1;
    assert(walk_edge(eg, rs, start as int, 0) == start);
    assert(mark_walk(u0, eg, rs, start as int, 1) == mark_walk(u0, eg, rs, start as int, 0).update(start as int, true));
    while edges[e].1 != first
        invariant
            eg == edges@,
            rs == rotations@,
            graph_ok(eg, rs),
            start < eg.len(),
            first == eg[start as int].0,
            used@.len() == eg.len(),
            forall|x: int| 0 <= x < eg.len() && #[trigger] old(used)@[x] ==> used@[x],
            used@[start as int],
            1 <= steps <= eg.len(),
            face@.len() == steps,
            e < eg.len(),
            e as int == walk_edge(eg, rs, start as int, (steps - 1) as nat),
            forall|i: int| 0 <= i < steps ==> #[trigger] face@[i] == eg[walk_edge(eg, rs, start as int, i as nat)].0,
            forall|i: int| 1 <= i < steps ==> #[trigger] face@[i] != first,
            forall|i: int| 0 <= i < steps - 1 ==> eg[#[trigger] walk_edge(eg, rs, start as int, i as nat)].1 != first,
            forall|i: int| 0 <= i < steps ==> used@[#[trigger] walk_edge(eg, rs, start as int, i as nat)],
            face@[0] == first,
            forall|i: int| 0 <= i < steps ==> 0 <= #[trigger] walk_edge(eg, rs, start as int, i as nat) < eg.len(),
            u0 == old(used)@,
            used@ == mark_walk(u0, eg, rs, start as int, steps as nat),
            face_len(eg, rs, start as int, 1) == face_len(eg, rs, start as int, steps as nat),
        decreases eg.len() - steps,
    {
        if steps == edges.len() {
            assert(face_len(eg, rs, start as int, steps as nat) is None);
            return None;
        }
        assert(face_len(eg, rs, start as int, steps as nat) == face_len(eg, rs, start as int, (steps + 1) as nat));
        let c = edges[e].1;
        let p = edges[e].0;
        proof {
            lemma_next_edge(eg, rs, e as int);
            assert(has_slot_to(eg, rs[c as int]@, p));
        }
        let slot = find_next_slot(edges, &rotations[c], p);
        let next = rotations[c][slot];
        assert(next as int == next_edge(eg, rs, e as int));
        assert(walk_edge(eg, rs, start as int, steps as nat) == next_edge(eg, rs, walk_edge(eg, rs, start as int, (steps - 1) as nat)));
        proof {
            lemma_walk_in_range(eg, rs, start as int, steps as nat);
        }
        let ghost old_used = used@;
        face.push(c);
        used.set(next, true);
        assert forall|i: int| 0 <= i < steps + 1 implies used@[#[trigger] walk_edge(eg, rs, start as int, i as nat)] by {
            if i < steps {
                assert(old_used[walk_edge(eg, rs, start as int, i as nat)]);
            }
        }
        e = next;
        steps = steps + 1;
    }
    assert(face_len(eg, rs, start as int, steps as nat) == Some(steps as nat));
    assert(face@ =~= face_seq(eg, rs, start as int, steps as nat));
    Some(face)
}

/// Extracts the faces of the graph: starting from each edge not used yet,
/// in order, follows its walk and keeps the faces that close.
pub fn build_polygons(edges: &Vec<(usize, usize)>, rotations: &Vec<Vec<usize>>) -> (r: Vec<Vec<usize>>)
    requires
        graph_ok(edges@, rotations@),
    ensures
        r@.map_values(|f: Vec<usize>| f@) == faces_from(edges@, rotations@, Seq::new(edges@.len(), |i: int| false), 0),
        forall|k: int| 0 <= k < r@.len() ==> face_of_some_edge(edges@, rotations@, #[trigger] r@[k]@),
        forall|k: int| 0 <= k < r@.len() ==> (#[trigger] r@[k])@.len() >= 3,
{
    let ghost eg = edges@;
    let ghost rs = rotations@;
    let ghost init = Seq::new(edges@.len(), |i: int| false);
    let mut used: Vec<bool> = Vec::new();
    let mut i: usize = 0;
    while i < edges.len()
        invariant
            i <= edges@.len(),
            used@ == Seq::new(i as nat, |j: int| false),
        decreases edges@.len() - i,
    {
        used.push(false);
        i = i + 1;
        assert(used@ =~= Seq::new(i as nat, |j: int| false));
    }
    let mut faces: Vec<Vec<usize>> = Vec::new();
    let mut e: usize = 0;
    while e < edges.len()
        invariant
            eg == edges@,
            rs == rotations@,
            graph_ok(edges@, rotations@),
            used@.len() == edges@.len(),
            e <= edges@.len(),
            faces@.map_values(|f: Vec<usize>| f@) + faces_from(eg, rs, used@, e as int) == faces_from(eg, rs, init, 0),
            forall|k: int| 0 <= k < faces@.len() ==> face_of_some_edge(edges@, rotations@, #[trigger] faces@[k]@),
            forall|k: int| 0 <= k < faces@.len() ==> (#[trigger] faces@[k])@.len() >= 3,
        decreases edges@.len() - e,
    {
        let ghost before = faces@.map_values(|f: Vec<usize>| f@);
        let ghost u = used@;
        if !used[e] {
            let res = build_polygon(edges, rotations, &mut used, e);
            match res {
                Some(f) => if f.len() >= 3 {
                    let ghost old_faces = faces@;
                    let ghost fv = f@;
                    faces.push(f);
                    assert(faces@.map_values(|f: Vec<usize>| f@) =~= before.push(fv));
                    assert(before.push(fv) + faces_from(eg, rs, used@, e + 1) =~= before + (seq![fv] + faces_from(eg, rs, used@, e + 1)));
                    assert(face_of_some_edge(edges@, rotations@, faces@[old_faces.len() as int]@));
                    assert forall|k: int| 0 <= k < faces@.len() implies face_of_some_edge(edges@, rotations@, #[trigger] faces@[k]@)
                        && (faces@[k])@.len() >= 3 by {
                        if k < old_faces.len() {
                            assert(faces@[k] == old_faces[k]);
                        }
                    }
                },
                None => {},
            }
        } else {
            assert(faces_from(eg, rs, u, e as int) == faces_from(eg, rs, u, e + 1));
        }
        e = e + 1;
    }
    assert(faces_from(eg, rs, used@, e as int) == Seq::<Seq<usize>>::empty());
    assert(faces@.map_values(|f: Vec<usize>| f@) =~= faces@.map_values(|f: Vec<usize>| f@) + Seq::<Seq<usize>>::empty());
    faces
}

} // verus!
