use algraphs::symmat::SymMat;
use algraphs::utgraph::UTGraph;

fn star_graph_3() -> UTGraph {
    UTGraph::new(3).with_edges(&[(0, 2), (1, 2)])
}

fn twelve_vertex_graph() -> UTGraph {
    UTGraph::new(12).with_edges(&[
        (0, 1),
        (0, 2),
        (0, 3),
        (2, 3),
        (3, 4),
        (3, 5),
        (5, 6),
        (6, 7),
        (6, 8),
        (6, 9),
        (8, 10),
        (9, 10),
        (10, 4),
    ])
}

#[test]
fn matrix_get_is_symmetric() {
    let mut mat: SymMat<usize> = SymMat::fill(5, 0);
    mat.set(1, 3, 7);
    mat.set(4, 0, 9);
    mat.set(2, 2, 4);
    for i in 0..5 {
        for j in 0..5 {
            assert_eq!(mat.get(i, j), mat.get(j, i));
        }
    }
    assert_eq!(mat.get(3, 1), Some(&7));
    assert_eq!(mat.get(0, 4), Some(&9));
    assert_eq!(mat.get(2, 2), Some(&4));
}

#[test]
fn matrix_get_out_of_bounds_is_absent() {
    let mat: SymMat<usize> = SymMat::fill(3, 1);
    assert!(mat.get(0, 3).is_none());
    assert!(mat.get(3, 0).is_none());
    assert!(mat.get(7, 7).is_none());
    let empty: SymMat<usize> = SymMat::fill(0, 1);
    assert!(empty.get(0, 0).is_none());
    assert_eq!(empty.values().len(), 0);
}

#[test]
fn matrix_fill_seeds_every_slot() {
    let mat: SymMat<u8> = SymMat::fill(4, 3);
    assert_eq!(mat.values().len(), 4 * 5 / 2);
    assert!(mat.values().iter().all(|v| *v == 3));
    let mat: SymMat<usize> = SymMat::fill_default(4);
    assert!(mat.values().iter().all(|v| *v == 0));
}

#[test]
fn fresh_graph_has_no_edges_and_zero_degrees() {
    for n in [0, 1, 5] {
        let graph = UTGraph::new(n);
        assert_eq!(graph.verts(), n);
        assert_eq!(graph.edges(), 0);
        for v in 0..n {
            assert_eq!(graph.degree(v), Some(0));
        }
        assert!(graph.degree(n).is_none());
    }
    assert_eq!(UTGraph::new(5).max_deg(), 0);
}

#[test]
fn star_on_three_vertices() {
    let graph = star_graph_3();
    assert_eq!(graph.degree(0), Some(1));
    assert_eq!(graph.degree(1), Some(1));
    assert_eq!(graph.degree(2), Some(2));
    assert_eq!(graph.max_deg(), 2);
    assert!(graph.is_star());
}

#[test]
fn four_isolated_vertices() {
    let graph = UTGraph::new(4).with_edges(&[]);
    assert_eq!(graph.max_deg(), 0);
    assert!(!graph.is_star());
    assert!(graph.path(0, 1).is_none());
}

#[test]
fn star_needs_exactly_one_edge_less_than_vertices() {
    let star = UTGraph::new(4).with_edges(&[(0, 2), (1, 2), (3, 2)]);
    assert_eq!(star.edges(), 3);
    assert_eq!(star.verts() - 1, 3);
    assert!(star.is_star());

    let with_cycle = UTGraph::new(4).with_edges(&[(0, 2), (1, 2), (3, 2), (0, 1)]);
    assert_eq!(with_cycle.edges(), 4);
    assert!(!with_cycle.is_star());
}

#[test]
fn path_walks_along_edges() {
    let graph = twelve_vertex_graph();
    let path = graph.path(0, 6).expect("a walk must exist");
    assert_eq!(*path.first().unwrap(), 0);
    assert_eq!(*path.last().unwrap(), 6);
    for pair in path.windows(2) {
        assert!(graph.connected(pair[0], pair[1]));
    }
    assert!(graph.path(0, 11).is_none());
}

#[test]
fn path_to_self_goes_through_a_neighbor() {
    let graph = star_graph_3();
    let path = graph.path(0, 0).expect("vertex 0 has a neighbor");
    assert_eq!(*path.first().unwrap(), 0);
    assert_eq!(*path.last().unwrap(), 0);
    assert!(path.len() >= 2);
    for pair in path.windows(2) {
        assert!(graph.connected(pair[0], pair[1]));
    }

    let isolated = UTGraph::new(2).with_edges(&[]);
    assert!(isolated.path(0, 0).is_none());
}

#[test]
fn neighborhood_is_ascending_and_exact() {
    let graph = twelve_vertex_graph();
    for a in 0..graph.verts() {
        let nbhd = graph.nbhd(a);
        for pair in nbhd.windows(2) {
            assert!(pair[0] < pair[1]);
        }
        for &b in &nbhd {
            assert!(graph.connected(a, b));
        }
        for b in 0..graph.verts() {
            assert_eq!(graph.connected(a, b), nbhd.contains(&b));
        }
        assert_eq!(nbhd.len(), graph.degree(a).unwrap());
    }
}

#[test]
fn connected_is_symmetric_and_rejects_self_loops() {
    let graph = twelve_vertex_graph();
    for a in 0..graph.verts() {
        assert!(!graph.connected(a, a));
        for b in 0..graph.verts() {
            assert_eq!(graph.connected(a, b), graph.connected(b, a));
        }
    }
}

#[test]
fn connect_sets_edge_and_both_degrees() {
    let mut graph = UTGraph::new(3);
    graph.connect(0, 1);
    assert!(graph.connected(0, 1));
    assert!(graph.connected(1, 0));
    assert!(!graph.connected(0, 2));
    assert_eq!(graph.degree(0), Some(1));
    assert_eq!(graph.degree(1), Some(1));
    assert_eq!(graph.degree(2), Some(0));
    // `connect` leaves the edge-count field to `with_edges`.
    assert_eq!(graph.edges(), 0);
}
