use algraphs::models::graphs;
use algraphs::utgraph::UTGraph;

#[test]
fn test_deg() {
    let models = graphs();
    let model = &models[2];
    let graph = UTGraph::new(model.verts()).with_edges(model.edges());
    for v in 0..graph.verts() {
        assert!(graph.degree(v).unwrap() == 0)
    }

    let model = &models[4];
    let graph = UTGraph::new(model.verts()).with_edges(model.edges());
    let degrees = [2, 2, 3, 1];
    for (v, deg) in degrees.iter().enumerate() {
        assert!(graph.degree(v).unwrap() == *deg);
    }
}

#[test]
fn test_max_deg() {
    let max_degrees = [2, 3, 0, 3, 3, 4];
    for (model, max_deg) in graphs().iter().zip(max_degrees) {
        let graph = UTGraph::new(model.verts()).with_edges(model.edges());
        assert_eq!(max_deg, graph.max_deg())
    }
}

#[test]
fn test_is_star() {
    for (i, model) in graphs().iter().enumerate() {
        let graph = UTGraph::new(model.verts()).with_edges(model.edges());
        if i == 0 || i == 3 {
            assert!(graph.is_star());
        } else {
            assert!(!graph.is_star());
        }
    }
}

#[test]
fn test_path() {
    let models = graphs();
    let model = &models[5];
    let graph = UTGraph::new(model.verts()).with_edges(model.edges());

    assert!(graph.path(0, 11).is_none());

    let path = graph.path(0, 6).expect("No path received.");
    assert!(*path.first().unwrap() == 0 && *path.last().unwrap() == 6);
}
