use delaunator::{triangulate, Point, EMPTY};
use particle_links::graph::extract;

#[test]
fn single_triangle_with_boundary_edges_gives_three_pairs() {
    let triangles = vec![0, 1, 2];
    let halfedges = vec![EMPTY, EMPTY, EMPTY];
    let edges = extract(&triangles, &halfedges);
    assert_eq!(edges, vec![(0, 1), (1, 2), (0, 2)]);
}

#[test]
fn twinned_halfedges_emit_through_the_larger_index() {
    // Halfedges 1 and 2 are marked as twins: only halfedge 2 gives its edge.
    let triangles = vec![0, 1, 2];
    let halfedges = vec![EMPTY, 2, 1];
    let edges = extract(&triangles, &halfedges);
    assert_eq!(edges, vec![(0, 1), (0, 2)]);
}

#[test]
fn shared_edge_of_two_triangles_is_emitted_once() {
    let triangles = vec![0, 1, 2, 2, 1, 3];
    let halfedges = vec![EMPTY, 3, EMPTY, 1, EMPTY, EMPTY];
    let edges = extract(&triangles, &halfedges);
    assert_eq!(edges, vec![(0, 1), (0, 2), (1, 2), (1, 3), (2, 3)]);
}

#[test]
fn empty_triangulation_has_no_edges() {
    let edges = extract(&vec![], &vec![]);
    assert!(edges.is_empty());
}

#[test]
fn edges_are_in_canonical_order() {
    let triangles = vec![5, 3, 9];
    let halfedges = vec![EMPTY, EMPTY, EMPTY];
    let edges = extract(&triangles, &halfedges);
    assert_eq!(edges, vec![(3, 5), (3, 9), (5, 9)]);
}

#[test]
fn square_triangulation_gives_each_edge_once() {
    let points = vec![
        Point { x: 0.0, y: 0.0 },
        Point { x: 10.0, y: 0.0 },
        Point { x: 0.0, y: 10.0 },
        Point { x: 10.0, y: 11.0 },
    ];
    let t = triangulate(&points);
    let edges = extract(&t.triangles, &t.halfedges);
    // Four sides and one diagonal.
    assert_eq!(edges.len(), 5);
    for i in 0..edges.len() {
        assert!(edges[i].0 < edges[i].1);
        for j in (i + 1)..edges.len() {
            assert_ne!(edges[i], edges[j]);
        }
    }
    for side in [(0, 1), (0, 2), (1, 3), (2, 3)] {
        assert!(edges.contains(&side));
    }
}
