use terra::mesh::{
    connect_point, indices_to_connections, indices_to_directed_edges, indices_to_edges,
    order_edge,
};
use terra::shape::Shape;

#[test]
fn connect_point_to_tri() {
    // initial tris the point will be inserted into
    let start_tris: Vec<u32> = vec![0, 1, 2];
    // use the method
    let result = connect_point(start_tris, 3);
    // expect one triangle per rim edge, keeping the winding
    let expected = vec![0, 1, 3, 1, 2, 3, 2, 0, 3];
    // test if the results are correct
    assert_eq!(result, expected);
}

#[test]
fn connect_point_discards_interior_edges() {
    // two triangles sharing the edge 1-2: the shared edge must not be
    // connected to the target
    let tris: Vec<u32> = vec![0, 1, 2, 2, 1, 3];
    let result = connect_point(tris, 9);
    let expected = vec![0, 1, 9, 2, 0, 9, 1, 3, 9, 3, 2, 9];
    assert_eq!(result, expected);
}

#[test]
fn order_edge_flips_when_needed() {
    assert_eq!(order_edge(2, 5), (5, 2));
    assert_eq!(order_edge(5, 2), (5, 2));
    assert_eq!(order_edge(4, 4), (4, 4));
}

#[test]
fn directed_edges_of_one_triangle() {
    let tris: Vec<u32> = vec![0, 1, 2];
    let edges = indices_to_directed_edges(&tris);
    assert_eq!(edges, vec![(0, 1), (1, 2), (2, 0)]);
}

#[test]
fn undirected_edges_of_two_triangles() {
    let tris: Vec<u32> = vec![0, 1, 2, 2, 1, 3];
    let edges = indices_to_edges(&tris);
    assert_eq!(edges, vec![(0, 1), (1, 2), (1, 3)]);
}

#[test]
fn icosahedron_edges_unique_and_loop_free() {
    // a closed consistently wound mesh: every undirected edge exactly once
    let ico = Shape::icosahedron();
    let edges = indices_to_edges(&ico.indices);
    assert_eq!(edges.len(), 30);
    for (i, e) in edges.iter().enumerate() {
        assert!(e.0 != e.1);
        for e2 in edges.iter().skip(i + 1) {
            assert!(e != e2);
            assert!((e.1, e.0) != *e2);
        }
    }
}

#[test]
fn connections_list_each_successor() {
    let ico = Shape::icosahedron();
    let conns = indices_to_connections(&ico.indices);
    assert_eq!(conns.len(), 20);
    // the triangles around vertex 0, in buffer order
    assert_eq!(conns[0], vec![11, 5, 1, 7, 10]);
    // vertex 3's fan
    assert_eq!(conns[3], vec![9, 4, 2, 6, 8]);
}

#[test]
fn connect_point_of_nothing_is_nothing() {
    let result = connect_point(Vec::new(), 5);
    assert!(result.is_empty());
}
