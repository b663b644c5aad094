use grouille::stl::{facets_at_heights, is_nan, parse_triangles, StlError};

fn stl_bytes(triangles: &[[f32; 9]]) -> Vec<u8> {
    let mut bytes = vec![0u8; 80];
    bytes.extend_from_slice(&(triangles.len() as u32).to_le_bytes());
    for t in triangles {
        bytes.extend_from_slice(&[0u8; 12]);
        for c in t {
            bytes.extend_from_slice(&c.to_le_bytes());
        }
        bytes.extend_from_slice(&[0u8; 2]);
    }
    bytes
}

#[test]
fn one_upright_triangle() {
    let t = [0.0, 0.0, 0.0, 1.0, 0.0, 0.0, 0.0, 0.0, 1.0];
    let parsed = parse_triangles(&stl_bytes(&[t])).unwrap();
    assert_eq!(parsed.len(), 1);
    let coordinates: Vec<f32> = parsed[0].iter().map(|b| f32::from_bits(*b)).collect();
    assert_eq!(coordinates, t.to_vec());
}

#[test]
fn coordinates_keep_their_byte_order() {
    let t = [1.5, -2.25, 3.0, 0.125, 7.0, -0.5, 10.0, 20.0, 30.0];
    let u = [4.0, 5.0, 6.0, 7.0, 8.0, 9.0, 10.0, 11.0, 12.0];
    let parsed = parse_triangles(&stl_bytes(&[t, u])).unwrap();
    assert_eq!(parsed[0][1], (-2.25f32).to_bits());
    assert_eq!(parsed[1][8], 12.0f32.to_bits());
    assert_eq!(parsed[0][0], 0x3fc0_0000);
}

#[test]
fn empty_model() {
    assert_eq!(parse_triangles(&stl_bytes(&[])), Ok(vec![]));
}

#[test]
fn truncated_data_is_refused() {
    assert_eq!(parse_triangles(&vec![0u8; 83]), Err(StlError::Truncated));
    let mut bytes = stl_bytes(&[[0.0; 9]]);
    bytes.pop();
    assert_eq!(parse_triangles(&bytes), Err(StlError::Truncated));
    let mut bytes = stl_bytes(&[]);
    bytes[80] = 1;
    assert_eq!(parse_triangles(&bytes), Err(StlError::Truncated));
}

#[test]
fn nan_coordinate_is_refused() {
    let mut t = [0.0f32; 9];
    t[4] = f32::NAN;
    assert_eq!(parse_triangles(&stl_bytes(&[t])), Err(StlError::NotANumber));
}

#[test]
fn nan_bit_patterns() {
    assert!(is_nan(f32::NAN.to_bits()));
    assert!(is_nan(0xffc0_0001));
    assert!(!is_nan(f32::INFINITY.to_bits()));
    assert!(!is_nan(1.0f32.to_bits()));
}

#[test]
fn planes_cut_facets_spanning_them() {
    let limits = vec![(0, 10), (5, 5), (10, 20), (-3, 12)];
    let heights = vec![0, 5, 10, 15, 20];
    assert_eq!(
        facets_at_heights(&limits, &heights),
        vec![vec![0, 3], vec![0, 3], vec![2, 3], vec![2], vec![]]
    );
}

#[test]
fn no_heights_no_slices() {
    assert!(facets_at_heights(&vec![(0, 1)], &vec![]).is_empty());
    assert_eq!(facets_at_heights(&vec![], &vec![3]), vec![Vec::<usize>::new()]);
}
