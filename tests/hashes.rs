use grouille::hashes::{CoordinatesHash, HashKey, PointsHash};
use grouille::point::Point;

#[test]
fn snapping_in_tenths() {
    // precision 0.4 with inputs 1.0, 1.3, 4.2, written in tenths
    let mut h = CoordinatesHash::new(4);
    assert_eq!(h.add(10), 10);
    assert_eq!(h.add(13), 10);
    assert_eq!(h.add(42), 42);
}

#[test]
fn snapper_starts_with_zero() {
    let mut h = CoordinatesHash::new(10);
    assert_eq!(h.add(3), 0);
    assert_eq!(h.add(-7), 0);
    assert_eq!(h.add(25), 25);
}

#[test]
fn snapping_twice_changes_nothing() {
    let mut h = CoordinatesHash::new(100);
    for c in [1234, -999, 1300, 1180, 40000, -1, 99999] {
        let once = h.add(c);
        let twice = h.add(once);
        assert_eq!(once, twice);
    }
}

#[test]
fn close_coordinate_snaps_to_earlier_one() {
    let mut h = CoordinatesHash::new(30);
    let kept = h.add(600);
    assert_eq!(kept, 600);
    // within a third of the precision, on either side
    assert_eq!(h.add(609), 600);
    assert_eq!(h.add(591), 600);
}

#[test]
fn bucket_before_wins_over_close_value() {
    // 600 is kept in bucket 20 and 540 in bucket 18; 595 lies in bucket 19,
    // and the bucket before it is looked at first
    let mut h = CoordinatesHash::new(30);
    assert_eq!(h.add(540), 540);
    assert_eq!(h.add(600), 600);
    assert_eq!(h.add(595), 540);
}

#[test]
fn negative_coordinates_use_floor_buckets() {
    let mut h = CoordinatesHash::new(4);
    // -5 lies in bucket -2; buckets -3, -2, -1 are empty
    assert_eq!(h.add(-5), -5);
    // -1 lies in bucket -1: bucket -2 comes first
    assert_eq!(h.add(-1), -5);
}

#[test]
fn key_wraps_snapped_value() {
    let mut h = CoordinatesHash::new(4);
    assert_eq!(h.key(13), HashKey(13));
    assert_eq!(h.key(14), HashKey(13));
}

#[test]
fn points_snap_axis_by_axis() {
    let mut h = PointsHash::new(4);
    let p1 = h.add(Point::new(10, 35));
    let p2 = h.add(Point::new(13, 42));
    assert_eq!(p1, Point::new(10, 35));
    assert_eq!(p2, Point::new(10, 42));
    assert_eq!(h.add(p2), p2);
}
