use grouille::pocket::pocket_builder::{build_pocket, build_pockets, find_next_path, PathGraph};
use grouille::polygon::polygon_builder::{build_polygon, build_polygons, check_graph};

// unit square (0,0), (1,0), (1,1), (0,1); edges 0..4 go round it, edges
// 4..8 are their reverses; each vertex lists its edges by increasing angle
fn square() -> (Vec<(usize, usize)>, Vec<Vec<usize>>) {
    let edges = vec![(0, 1), (1, 2), (2, 3), (3, 0), (1, 0), (2, 1), (3, 2), (0, 3)];
    let rotations = vec![vec![0, 7], vec![1, 4], vec![5, 2], vec![3, 6]];
    (edges, rotations)
}

fn doubled_area(points: &[(i64, i64)], face: &[usize]) -> i64 {
    let n = face.len();
    (0..n)
        .map(|i| {
            let (x1, y1) = points[face[i]];
            let (x2, y2) = points[face[(i + 1) % n]];
            x1 * y2 - y1 * x2
        })
        .sum()
}

#[test]
fn square_edges_give_one_clockwise_face() {
    let (edges, rotations) = square();
    let faces = build_polygons(&edges, &rotations);
    assert_eq!(faces, vec![vec![0, 1, 2, 3], vec![1, 0, 3, 2]]);
    let points = [(0, 0), (1, 0), (1, 1), (0, 1)];
    let clockwise: Vec<&Vec<usize>> = faces.iter().filter(|f| doubled_area(&points, f) > 0).collect();
    assert_eq!(clockwise, vec![&vec![0, 1, 2, 3]]);
}

#[test]
fn single_walk_marks_its_edges() {
    let (edges, rotations) = square();
    let mut used = vec![false; 8];
    let face = build_polygon(&edges, &rotations, &mut used, 4);
    assert_eq!(face, Some(vec![1, 0, 3, 2]));
    assert_eq!(used, vec![false, false, false, false, true, true, true, true]);
}

#[test]
fn two_triangles_sharing_an_edge() {
    // (0,0), (2,0), (1,1), (1,-1): triangles above and below the x axis
    let edges = vec![
        (0, 1), (1, 0), (1, 2), (2, 1), (2, 0), (0, 2), (0, 3), (3, 0), (3, 1), (1, 3),
    ];
    // by increasing angle (atan2) at each vertex
    let rotations = vec![vec![6, 0, 5], vec![9, 2, 1], vec![4, 3], vec![8, 7]];
    let faces = build_polygons(&edges, &rotations);
    assert_eq!(faces.len(), 3);
    let points = [(0, 0), (2, 0), (1, 1), (1, -1)];
    let areas: Vec<i64> = faces.iter().map(|f| doubled_area(&points, f)).collect();
    assert_eq!(areas.iter().filter(|a| **a > 0).count(), 2);
    assert_eq!(areas.iter().sum::<i64>(), 0);
}

// four paths round a square, entries of each vertex sorted by angle
fn square_paths() -> PathGraph {
    // path p goes from vertex p to vertex (p + 1) % 4
    let paths = vec![(0, 1), (1, 2), (2, 3), (3, 0)];
    // vertex 0: leaves by 0, arrives by 3; vertex 1: leaves by 1, arrives by 0; ...
    let entries = vec![(0, true), (3, false), (1, true), (0, false), (2, true), (1, false), (3, true), (2, false)];
    PathGraph {
        paths,
        entries,
        bounds: vec![0, 2, 4, 6, 8],
        arrival: vec![3, 5, 7, 1],
        departure: vec![0, 2, 4, 6],
    }
}

#[test]
fn walk_leaves_by_first_count_of_one() {
    let g = square_paths();
    let mut alive = vec![true; 8];
    assert_eq!(find_next_path(&g, &mut alive, 1, 3), Some(2));
    assert_eq!(alive, vec![true, true, false, false, true, true, true, true]);
}

#[test]
fn walk_skips_nested_arrivals() {
    // one vertex with entries: arrival a, arrival b, departure c, departure d
    let g = PathGraph {
        paths: vec![(1, 0), (2, 0), (0, 3), (0, 4)],
        entries: vec![(0, false), (1, false), (2, true), (3, true)],
        bounds: vec![0, 4, 4, 4, 4, 4],
        arrival: vec![0, 1, 0, 0],
        departure: vec![0, 0, 2, 3],
    };
    let mut alive = vec![true; 4];
    // from arrival 0 the count goes -1 (entry 1), 0 (entry 2), +1 (entry 3)
    assert_eq!(find_next_path(&g, &mut alive, 0, 0), Some(3));
    // from arrival 1 the count reaches +1 at once
    let mut alive = vec![true; 4];
    assert_eq!(find_next_path(&g, &mut alive, 0, 1), Some(2));
}

#[test]
fn walk_without_way_out() {
    let g = PathGraph {
        paths: vec![(1, 0), (2, 0)],
        entries: vec![(0, false), (1, false)],
        bounds: vec![0, 2, 2, 2],
        arrival: vec![0, 1],
        departure: vec![0, 0],
    };
    let mut alive = vec![true; 2];
    assert_eq!(find_next_path(&g, &mut alive, 0, 0), None);
    assert_eq!(alive, vec![false, true]);
}

#[test]
fn square_paths_close_into_one_pocket() {
    let g = square_paths();
    let mut alive = vec![true; 8];
    assert_eq!(build_pocket(&g, &mut alive), Some(vec![0, 1, 2, 3]));
    assert_eq!(alive, vec![false; 8]);
    assert_eq!(build_pocket(&g, &mut alive), None);
    assert_eq!(build_pockets(&g), vec![vec![0, 1, 2, 3]]);
}

#[test]
fn graph_checks() {
    let (edges, rotations) = square();
    assert!(check_graph(&edges, &rotations));
    // an edge without its reverse
    assert!(!check_graph(&vec![(0, 1)], &vec![vec![0], vec![]]));
    // a rotation listing an edge that does not leave its vertex
    assert!(!check_graph(&vec![(0, 1), (1, 0)], &vec![vec![1], vec![0]]));
    // an endpoint that is not a vertex
    assert!(!check_graph(&vec![(0, 2)], &vec![vec![0], vec![]]));
    assert!(check_graph(&vec![], &vec![]));
}

#[test]
fn path_graph_checks() {
    assert!(square_paths().is_valid());
    let mut g = square_paths();
    g.arrival[0] = 0;
    assert!(!g.is_valid());
    let mut g = square_paths();
    g.bounds = vec![0, 2, 4, 6, 7];
    assert!(!g.is_valid());
    let mut g = square_paths();
    g.entries[2] = (1, false);
    assert!(!g.is_valid());
    let g = PathGraph { paths: vec![], entries: vec![], bounds: vec![0], arrival: vec![], departure: vec![] };
    assert!(g.is_valid());
}

#[test]
fn walk_through_a_pinch_vertex_stops_there() {
    // (0,0), (-1,1), (-1,-1), (1,1), (1,-1): two triangles meeting at vertex 0
    let edges = vec![
        (0, 3), (3, 0), (3, 4), (4, 3), (4, 0), (0, 4),
        (2, 1), (1, 2), (1, 0), (0, 1), (2, 0), (0, 2),
    ];
    let rotations = vec![vec![11, 5, 0, 9], vec![7, 8], vec![10, 6], vec![1, 2], vec![3, 4]];
    // the outer boundary, started from vertex 0, closes at once on its
    // right half; started from vertex 2, it goes all the way round again
    assert_eq!(
        build_polygons(&edges, &rotations),
        vec![vec![0, 3, 4], vec![3, 0, 4], vec![2, 1, 0, 3, 4, 0], vec![1, 2, 0]]
    );
}

#[test]
fn dangling_edge_gives_no_face() {
    let edges = vec![(0, 1), (1, 0)];
    let rotations = vec![vec![0], vec![1]];
    assert!(build_polygons(&edges, &rotations).is_empty());
    let mut used = vec![false; 2];
    assert_eq!(build_polygon(&edges, &rotations, &mut used, 0), Some(vec![0, 1]));
}
