use grouille::classifier::Classification;
use grouille::holed_polygon::{build_holed_pockets, build_holed_polygons};

fn follows_fathers_to_root(fathers: &[Option<usize>], mut i: usize) -> bool {
    for _ in 0..=fathers.len() {
        match fathers[i] {
            Some(p) if p == i => return true,
            Some(p) => i = p,
            None => return false,
        }
    }
    false
}

#[test]
fn concentric_squares_form_a_chain() {
    // squares of radii 4, 3, 2, 1 around the origin; the line y = 0 crosses
    // them at x = -4, -3, -2, -1, 1, 2, 3, 4
    let mut c = Classification::new(4);
    assert_eq!(c.first_unclassified(), Some(0));
    c.sweep(&vec![0, 1, 2, 3, 3, 2, 1, 0]);
    assert!(c.is_complete());
    assert_eq!(c.fathers(), &vec![Some(0), Some(0), Some(1), Some(2)]);
    assert_eq!(c.roots(), &vec![0]);
    assert_eq!(c.classified(), &vec![(1, 0), (2, 1), (3, 2)]);
}

#[test]
fn neighbours_share_a_father() {
    // one big square holding two small ones side by side, seen from the
    // first small one (index 0)
    let mut c = Classification::new(3);
    c.sweep(&vec![2, 0, 0, 1, 1, 2]);
    assert_eq!(c.fathers(), &vec![Some(2), Some(2), Some(2)]);
    assert_eq!(c.roots(), &vec![2]);
}

#[test]
fn separate_shapes_are_roots() {
    let mut c = Classification::new(2);
    c.sweep(&vec![1, 1, 0, 0]);
    assert_eq!(c.fathers(), &vec![Some(0), Some(1)]);
    let mut roots = c.roots().clone();
    roots.sort();
    assert_eq!(roots, vec![0, 1]);
    assert!(c.classified().is_empty());
}

#[test]
fn later_sweeps_keep_earlier_fathers() {
    let mut c = Classification::new(3);
    c.sweep(&vec![0, 0]);
    assert_eq!(c.first_unclassified(), Some(1));
    c.sweep(&vec![0, 1, 1, 0]);
    assert_eq!(c.first_unclassified(), Some(2));
    c.sweep(&vec![2, 2]);
    assert!(c.is_complete());
    let fathers = c.fathers().clone();
    assert_eq!(fathers, vec![Some(0), Some(0), Some(2)]);
    for i in 0..3 {
        assert!(follows_fathers_to_root(&fathers, i));
    }
}

#[test]
fn crossing_order_without_sweep_leaves_shapes_unclassified() {
    let mut c = Classification::new(2);
    c.sweep(&vec![]);
    assert_eq!(c.first_unclassified(), Some(0));
    assert!(!c.is_complete());
}

#[test]
fn depths_follow_the_chain() {
    let mut c = Classification::new(4);
    c.sweep(&vec![0, 1, 2, 3, 3, 2, 1, 0]);
    assert_eq!(c.depths(), vec![0, 1, 2, 3]);
}

#[test]
fn nested_faces_alternate_outer_and_hole() {
    // A contains B contains C contains D
    let mut c = Classification::new(4);
    c.sweep(&vec![0, 1, 2, 3, 3, 2, 1, 0]);
    let holed = build_holed_polygons(&c);
    assert_eq!(holed, vec![(0, vec![1]), (2, vec![3])]);
}

#[test]
fn nested_faces_in_any_index_order() {
    // D, C, B, A given as 0, 1, 2, 3: the innermost is seen first
    let mut c = Classification::new(4);
    c.sweep(&vec![3, 2, 1, 0, 0, 1, 2, 3]);
    assert_eq!(c.fathers(), &vec![Some(1), Some(2), Some(3), Some(3)]);
    let holed = build_holed_polygons(&c);
    assert_eq!(holed, vec![(1, vec![0]), (3, vec![2])]);
}

#[test]
fn outer_with_two_holes() {
    let mut c = Classification::new(3);
    c.sweep(&vec![2, 0, 0, 1, 1, 2]);
    assert_eq!(build_holed_polygons(&c), vec![(2, vec![0, 1])]);
}

#[test]
fn pockets_keep_roots_and_direct_children() {
    // A contains B contains C, and D stands apart
    let mut c = Classification::new(4);
    c.sweep(&vec![0, 1, 2, 2, 1, 0, 3, 3]);
    assert_eq!(c.fathers(), &vec![Some(0), Some(0), Some(1), Some(3)]);
    assert_eq!(build_holed_pockets(&c), vec![(0, vec![1]), (3, vec![])]);
}
