use page_packing::DependencyGraph;

#[test]
fn test_roots() {
    let g = DependencyGraph::new(vec![(1, 4), (3, 2), (5, 3)], 6).unwrap();
    let expected: Vec<u32> = vec![1, 5, 6];
    assert_eq!(g.roots(), expected);
}

#[test]
fn test_isolated_vertices() {
    let g = DependencyGraph::new(vec![(1, 4), (3, 2), (5, 3), (5, 7)], 9).unwrap();
    let expected: Vec<u32> = vec![6, 8, 9];
    assert_eq!(g.isolated_vertices(), expected);
}

#[test]
fn test_count_edges() {
    let g = DependencyGraph::new(vec![(1, 4), (3, 2), (4, 3)], 4).unwrap();
    assert_eq!(g.count_edges(), 3);
}

#[test]
fn test_is_acyclic() {
    let c4 = DependencyGraph::new(vec![(1, 4), (4, 2), (2, 3), (3, 1)], 4).unwrap();
    assert_eq!(c4.is_acyclic(), false);
    let transitive_tournament = DependencyGraph::new(vec![(1, 3), (1, 2), (2, 3)], 3).unwrap();
    assert_eq!(transitive_tournament.is_acyclic(), true);
}

#[test]
fn test_count_vertices_after_removal() {
    let mut g = DependencyGraph::new(vec![(1, 2), (2, 3)], 4).unwrap();
    assert_eq!(g.count_vertices(), 4);
    g.remove(2);
    assert_eq!(g.count_vertices(), 3);
    g.remove(2);
    assert_eq!(g.count_vertices(), 3);
}

#[test]
fn test_stale_edges_persist_after_removal() {
    // Removing a target leaves the source's stored row untouched, so the
    // source does not become isolated and the stale entry still counts.
    let mut g = DependencyGraph::new(vec![(1, 2)], 3).unwrap();
    g.remove(2);
    assert_eq!(g.count_edges(), 1);
    assert_eq!(g.isolated_vertices(), vec![3]);
    assert_eq!(g.roots(), vec![1, 3]);
}

#[test]
fn test_invalid_edge_rejected() {
    assert_eq!(
        DependencyGraph::new(vec![(1, 5)], 4).unwrap_err(),
        page_packing::PackError::InvalidEdge
    );
    assert_eq!(
        DependencyGraph::new(vec![(0, 1)], 4).unwrap_err(),
        page_packing::PackError::InvalidEdge
    );
}
