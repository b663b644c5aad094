//! Small helpers: ordering two values, the two smallest distinct values of a
//! sequence, and windows over a sequence that wrap back to its beginning.
use vstd::prelude::*;

pub mod iterators;

verus! {

/// Returns `a` and `b` in non-decreasing order (`a` first when they are equal).
pub fn min_max(a: i64, b: i64) -> (r: [i64; 2])
    ensures
        r@[0] == if a <= b { a } else { b },
        r@[1] == if a <= b { b } else { a },
{
    if a > b {
        [b, a]
    } else {
        [a, b]
    }
}

/// `a` is the smallest value of `s` and `b` the smallest value of `s` above `a`.
pub open spec fn are_two_mins(s: Seq<i64>, a: i64, b: i64) -> bool {
    &&& a < b
    &&& s.contains(a)
    &&& s.contains(b)
    &&& forall|i: int| 0 <= i < s.len() ==> a <= #[trigger] s[i]
    &&& forall|i: int| 0 <= i < s.len() && #[trigger] s[i] != a ==> b <= s[i]
}

/// `s` holds fewer than two distinct values.
pub open spec fn all_equal(s: Seq<i64>) -> bool {
    forall|i: int, j: int| 0 <= i < s.len() && 0 <= j < s.len() ==> #[trigger] s[i] == #[trigger] s[j]
}

/// Returns the two smallest distinct values of `values`, or `None` when it
/// holds fewer than two distinct values.
pub fn two_mins(values: &Vec<i64>) -> (r: Option<(i64, i64)>)
    ensures
        r is None <==> all_equal(values@),
        r matches Some((a, b)) ==> are_two_mins(values@, a, b),
{
    let mut first: Option<i64> = None;
    let mut second: Option<i64> = None;
    let mut i: usize = 0;
    while i < values.len()
        invariant
            i <= values.len(),
            first is None <==> i == 0,
            first matches Some(f) ==> {
                &&& values@.subrange(0, i as int).contains(f)
                &&& forall|k: int| 0 <= k < i ==> f <= #[trigger] values@[k]
            },
            second is Some ==> first is Some,
            second is None ==> forall|k: int|
                0 <= k < i ==> Some(#[trigger] values@[k]) == first,
            second matches Some(g) ==> {
                &&& first->0 < g
                &&& values@.subrange(0, i as int).contains(g)
                &&& forall|k: int|
                    0 <= k < i && Some(#[trigger] values@[k]) != first ==> g <= values@[k]
            },
        decreases values.len() - i,
    {
        let value = values[i];
        let ghost prefix = values@.subrange(0, i as int);
        let ghost next = values@.subrange(0, i + 1);
        assert(next == prefix.push(value));
        match first {
            None => {
                first = Some(value);
                assert(next[0] == value);
            },
            Some(f) => {
                match second {
                    Some(g) => {
                        if value < g && value != f {
                            if value < f {
                                second = first;
                                first = Some(value);
                            } else {
                                second = Some(value);
                            }
                        }
                    },
                    None => {
                        if value > f {
                            second = Some(value);
                        } else if value < f {
                            second = first;
                            first = Some(value);
                        }
                    },
                }
            },
        }
        proof {
            assert(next[i as int] == value);
            if let Some(f) = first {
                if f != value {
                    assert(prefix.contains(f));
                    let k = choose|k: int| 0 <= k < prefix.len() && prefix[k] == f;
                    assert(next[k] == f);
                }
            }
            if let Some(g) = second {
                if g != value {
                    assert(prefix.contains(g));
                    let k = choose|k: int| 0 <= k < prefix.len() && prefix[k] == g;
                    assert(next[k] == g);
                }
            }
        }
        i = i + 1;
    }
    assert(values@.subrange(0, values.len() as int) == values@);
    match (first, second) {
        (Some(f), Some(g)) => {
            assert(!all_equal(values@)) by {
                let k1 = choose|k: int| 0 <= k < values.len() && values@[k] == f;
                let k2 = choose|k: int| 0 <= k < values.len() && values@[k] == g;
                assert(values@[k1] != values@[k2]);
            }
            Some((f, g))
        },
        _ => None,
    }
}

} // verus!
