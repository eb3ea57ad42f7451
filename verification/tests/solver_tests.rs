use page_packing::{min_pages, DependencyGraph};

#[test]
fn example1() {
    let g1 = DependencyGraph::new(vec![(2, 1), (3, 1), (1, 4)], 4).unwrap();
    assert_eq!(min_pages(g1, 2), Some(3));
}

#[test]
fn example2() {
    let g2 = DependencyGraph::new(vec![(2, 1), (3, 1), (4, 1), (1, 5)], 5).unwrap();
    assert_eq!(min_pages(g2, 2), Some(4));
}

#[test]
fn example3() {
    let g3 = DependencyGraph::new(vec![], 11).unwrap();
    assert_eq!(min_pages(g3, 2), Some(6));
}

#[test]
fn impossible_example() {
    let g = DependencyGraph::new(vec![(1, 2), (2, 3), (3, 1)], 4).unwrap();
    assert_eq!(min_pages(g, 2), None);
}

#[test]
fn slow_example() {
    let mut edges = Vec::new();
    for u in 1..7 {
        for v in 1..u {
            edges.push((u, v))
        }
    }
    let g = DependencyGraph::new(edges, 15).unwrap();
    assert_eq!(min_pages(g, 3), Some(6));
}

#[test]
fn slower_example() {
    // Star pointing to its root
    let edges: Vec<_> = (1..12).map(|i| (i, 12)).collect();
    let g = DependencyGraph::new(edges, 12).unwrap();
    assert_eq!(min_pages(g, 3), Some(5));
}

#[test]
fn path_example() {
    let g = DependencyGraph::new(vec![(1, 2), (2, 3), (3, 4), (4, 5)], 8).unwrap();
    assert_eq!(min_pages(g, 4), Some(5));
}
