use terra::shape::{tri_count_at_n, vert_count_from_tri, Shape};

#[test]
fn icosahedron_counts() {
    let ico = Shape::icosahedron();
    assert_eq!(ico.vertex_count, 12);
    assert_eq!(ico.indices.len(), 60);
    for &i in ico.indices.iter() {
        assert!(i < 12);
    }
}

// one subdivision level: every triangle becomes four, vertices follow the
// closed-sphere formula tris / 2 + 2
#[test]
fn subdivide_once_counts() {
    let (s, pairs) = Shape::icosahedron().subdivide(1);
    assert_eq!(s.indices.len() / 3, 80);
    assert_eq!(s.vertex_count, 42);
    assert_eq!(s.vertex_count, 12 + pairs.len());
    for &i in s.indices.iter() {
        assert!((i as usize) < s.vertex_count);
    }
}

#[test]
fn subdivide_levels_follow_the_formula() {
    for n in 0..4u8 {
        let (s, _) = Shape::icosahedron().subdivide(n);
        let tris = (s.indices.len() / 3) as u32;
        assert_eq!(tris, tri_count_at_n(n as u32));
        assert_eq!(s.vertex_count as u32, vert_count_from_tri(tris));
    }
}

#[test]
fn subdivision_pairs_reference_earlier_vertices() {
    let (_, pairs) = Shape::icosahedron().subdivide(2);
    for (j, p) in pairs.iter().enumerate() {
        assert!((p.0 as usize) < 12 + j);
        assert!((p.1 as usize) < 12 + j);
    }
}

#[test]
fn count_helpers() {
    assert_eq!(tri_count_at_n(0), 20);
    assert_eq!(tri_count_at_n(1), 80);
    assert_eq!(tri_count_at_n(3), 1280);
    assert_eq!(vert_count_from_tri(20), 12);
    assert_eq!(vert_count_from_tri(1280), 642);
}

#[test]
fn zero_subdivisions_change_nothing() {
    let (s, pairs) = Shape::icosahedron().subdivide(0);
    assert_eq!(s.vertex_count, 12);
    assert_eq!(s.indices.len(), 60);
    assert!(pairs.is_empty());
}

#[test]
fn subdivision_rebuilds_the_first_triangle() {
    // midpoints are synthesised per undirected edge in listing order and
    // recorded larger-index-first: 0-11 becomes vertex 12, 0-5 vertex 13,
    // 0-1 vertex 14, and 5-11 — first listed inside triangle 5-11-4 — 22
    let (s, pairs) = Shape::icosahedron().subdivide(1);
    assert_eq!(&pairs[0..3], &[(11, 0), (5, 0), (1, 0)]);
    let expected: [u32; 12] = [12, 22, 13, 0, 12, 13, 11, 22, 12, 5, 13, 22];
    assert_eq!(&s.indices[0..12], &expected);
}

// each undirected edge of the consistently wound icosahedron is split
// exactly once: thirty edges, thirty new vertices
#[test]
fn one_new_vertex_per_edge() {
    let ico = Shape::icosahedron();
    let edge_count = terra::mesh::indices_to_edges(&ico.indices).len();
    let (_, pairs) = ico.subdivide(1);
    assert_eq!(edge_count, 30);
    assert_eq!(pairs.len(), 30);
}
