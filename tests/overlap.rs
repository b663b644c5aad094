use grouille::overlap::{remove_overlaps, sweep_line};
use grouille::point::Point;
use grouille::segment::Segment;

fn p(x: i64, y: i64) -> Point {
    Point::new(x, y)
}

#[test]
fn collinear_overlapping_segments_merge() {
    // (0,0)-(1,2), (1,2)-(2,4), (0.5,1)-(1.5,3) in halves: the count at
    // (1,2) cancels out
    let events = vec![(p(0, 0), 1), (p(1, 2), 1), (p(3, 6), -1), (p(4, 8), -1)];
    assert_eq!(sweep_line(&events, false), vec![Segment::new(p(0, 0), p(4, 8))]);
}

#[test]
fn disjoint_segments_stay_apart() {
    let events = vec![(p(0, 0), 1), (p(1, 0), -1), (p(2, 0), 1), (p(5, 0), -1)];
    assert_eq!(
        sweep_line(&events, false),
        vec![Segment::new(p(0, 0), p(1, 0)), Segment::new(p(2, 0), p(5, 0))]
    );
}

#[test]
fn parity_keeps_odd_coverage() {
    // two copies of (0,0)-(4,0) and one of (2,0)-(6,0)
    let events = vec![(p(0, 0), 2), (p(2, 0), 1), (p(4, 0), -2), (p(6, 0), -1)];
    assert_eq!(sweep_line(&events, false), vec![Segment::new(p(0, 0), p(6, 0))]);
    assert_eq!(
        sweep_line(&events, true),
        vec![Segment::new(p(2, 0), p(6, 0))]
    );
}

#[test]
fn no_events_no_segments() {
    assert!(sweep_line(&vec![], false).is_empty());
    assert!(sweep_line(&vec![], true).is_empty());
}

#[test]
fn non_overlapping_input_keeps_its_length() {
    let events = vec![(p(0, 0), 1), (p(3, 1), -1), (p(6, 2), 1), (p(9, 3), -1)];
    let out = sweep_line(&events, false);
    let length: i64 = out.iter().map(|s| s.end.x - s.start.x).sum();
    let input_length: i64 = events.iter().map(|(q, d)| -d * q.x).sum();
    assert_eq!(length, input_length);
    assert_eq!(length, 6);
}

fn seg(a: (i64, i64), b: (i64, i64)) -> Segment {
    Segment::new(p(a.0, a.1), p(b.0, b.1))
}

#[test]
fn collinear_chain_merges_into_one_segment() {
    // (0,0)-(1,2), (1,2)-(2,4), (0.5,1)-(1.5,3), coordinates in halves
    let line = (7, 0);
    let segments = vec![
        (line, seg((0, 0), (2, 4))),
        (line, seg((2, 4), (4, 8))),
        (line, seg((1, 2), (3, 6))),
    ];
    assert_eq!(remove_overlaps(&segments, false), vec![seg((0, 0), (4, 8))]);
}

#[test]
fn lines_are_handled_apart_in_key_order() {
    let segments = vec![
        ((2, 5), seg((3, 1), (0, 1))),
        ((0, 0), seg((0, 0), (2, 0))),
        ((2, 5), seg((1, 1), (5, 1))),
        ((0, 0), seg((5, 0), (7, 0))),
    ];
    assert_eq!(
        remove_overlaps(&segments, false),
        vec![seg((0, 0), (2, 0)), seg((5, 0), (7, 0)), seg((1, 1), (0, 1)), seg((3, 1), (5, 1))]
    );
}

#[test]
fn antiparallel_duplicates_cancel() {
    let line = (1, 1);
    let segments = vec![(line, seg((0, 0), (3, 3))), (line, seg((3, 3), (0, 0)))];
    assert!(remove_overlaps(&segments, false).is_empty());
    assert!(remove_overlaps(&segments, true).is_empty());
}

#[test]
fn parallel_duplicates_are_removed() {
    let line = (1, 1);
    let segments = vec![(line, seg((0, 0), (3, 3))), (line, seg((0, 0), (3, 3)))];
    assert_eq!(remove_overlaps(&segments, false), vec![seg((0, 0), (3, 3))]);
    assert!(remove_overlaps(&segments, true).is_empty());
}

#[test]
fn reversed_segment_keeps_its_direction() {
    let line = (4, 2);
    let segments = vec![(line, seg((5, 1), (2, 1)))];
    assert_eq!(remove_overlaps(&segments, false), vec![seg((5, 1), (2, 1))]);
    assert_eq!(remove_overlaps(&segments, true), vec![seg((2, 1), (5, 1))]);
}

#[test]
fn run_splits_where_direction_changes() {
    // (0,0)->(2,0) forward, then (4,0)->(2,0) backward: the count goes
    // from +1 to -1 at (2,0)
    let line = (0, 0);
    let segments = vec![(line, seg((0, 0), (2, 0))), (line, seg((4, 0), (2, 0)))];
    assert_eq!(remove_overlaps(&segments, false), vec![seg((0, 0), (2, 0)), seg((4, 0), (2, 0))]);
    assert_eq!(remove_overlaps(&segments, true), vec![seg((0, 0), (4, 0))]);
}

#[test]
fn signed_displacement_is_kept_without_overlap() {
    let events = vec![(p(0, 0), 1), (p(2, 0), -2), (p(5, 0), 1)];
    let out = sweep_line(&events, false);
    assert_eq!(out, vec![seg((0, 0), (2, 0)), seg((5, 0), (2, 0))]);
    let length: i64 = out.iter().map(|s| s.end.x - s.start.x).sum();
    let input_length: i64 = events.iter().map(|(q, d)| -d * q.x).sum();
    assert_eq!(length, input_length);
    assert_eq!(length, -1);
}

#[test]
fn parity_variant_keeps_odd_parts() {
    let line = (0, 0);
    let segments = vec![(line, seg((0, 0), (4, 0))), (line, seg((2, 0), (6, 0)))];
    assert_eq!(
        remove_overlaps(&segments, true),
        vec![seg((0, 0), (2, 0)), seg((4, 0), (6, 0))]
    );
    assert_eq!(remove_overlaps(&segments, false), vec![seg((0, 0), (6, 0))]);
}

#[test]
fn no_segments_no_output() {
    assert!(remove_overlaps(&vec![], false).is_empty());
}
