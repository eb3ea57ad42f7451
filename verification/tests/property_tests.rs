use page_packing::{min_pages, solve, DependencyGraph, Feasibility, PackError};

#[test]
fn volume_bound_without_edges() {
    // With no edges the answer is exactly ceil(n / c).
    let g = DependencyGraph::new(vec![], 7).unwrap();
    assert_eq!(min_pages(g, 3), Some(3));
    let g = DependencyGraph::new(vec![], 9).unwrap();
    assert_eq!(min_pages(g, 3), Some(3));
    let g = DependencyGraph::new(vec![], 0).unwrap();
    assert_eq!(min_pages(g, 4), Some(0));
}

#[test]
fn capacity_one_counts_items() {
    let g = DependencyGraph::new(vec![(1, 2), (2, 3)], 5).unwrap();
    assert_eq!(min_pages(g, 1), Some(5));
}

#[test]
fn cycle_impossible_at_any_capacity() {
    for c in 1..6 {
        let g = DependencyGraph::new(vec![(1, 2), (2, 3), (3, 1)], 4).unwrap();
        assert_eq!(min_pages(g, c), None);
    }
}

#[test]
fn result_non_increasing_in_capacity() {
    let edges = vec![(2, 1), (3, 1), (4, 1), (1, 5)];
    let mut previous = usize::MAX;
    for c in 1..7 {
        let g = DependencyGraph::new(edges.clone(), 5).unwrap();
        let pages = min_pages(g, c).unwrap();
        assert!(pages <= previous);
        previous = pages;
    }
}

#[test]
fn deferred_isolated_items_fill_trailing_capacity() {
    // Items 3, 4, 5 have no precedence ties; the chain 1 -> 2 needs two
    // pages, and the volume bound ceil(5 / 2) = 3 governs the total.
    let g = DependencyGraph::new(vec![(1, 2)], 5).unwrap();
    assert_eq!(min_pages(g, 2), Some(3));
}

#[test]
fn branches_over_ready_subsets() {
    // Three ready items compete for two slots while item 4 waits on all of
    // them: the volume bound of 2 is not achievable, every branch needs 3.
    let g = DependencyGraph::new(vec![(1, 4), (2, 4), (3, 4)], 4).unwrap();
    assert_eq!(min_pages(g, 2), Some(3));
}

fn build_plain(edges: &[(u32, u32)], n: usize) -> Vec<Option<Vec<u32>>> {
    let mut adj: Vec<Option<Vec<u32>>> = vec![None];
    for _ in 0..n {
        adj.push(Some(Vec::new()));
    }
    for &(u, v) in edges {
        adj[u as usize].as_mut().unwrap().push(v);
    }
    adj
}

fn count_plain(adj: &[Option<Vec<u32>>]) -> usize {
    (1..adj.len()).filter(|&v| adj[v].is_some()).count()
}

fn roots_plain(adj: &[Option<Vec<u32>>]) -> Vec<u32> {
    let mut rs: Vec<u32> = Vec::new();
    for v in 1..adj.len() {
        if adj[v].is_some() {
            let mut incoming = false;
            for u in 1..adj.len() {
                if let Some(row) = &adj[u] {
                    if row.contains(&(v as u32)) {
                        incoming = true;
                    }
                }
            }
            if !incoming {
                rs.push(v as u32);
            }
        }
    }
    rs
}

// Reference search with no shortcuts and no isolated-item deferral: place
// any non-empty subset of at most `c` current roots on the next page and
// recurse, keeping the minimum over every choice.
fn brute_min_pages(adj: &Vec<Option<Vec<u32>>>, c: usize) -> usize {
    if count_plain(adj) == 0 {
        return 0;
    }
    let rs = roots_plain(adj);
    assert!(!rs.is_empty(), "only called on acyclic graphs");
    let mut best = usize::MAX;
    for mask in 1u32..(1u32 << rs.len()) {
        if (mask.count_ones() as usize) <= c {
            let mut sub = adj.clone();
            for (i, &v) in rs.iter().enumerate() {
                if mask & (1u32 << i) != 0 {
                    sub[v as usize] = None;
                }
            }
            let pages = 1 + brute_min_pages(&sub, c);
            if pages < best {
                best = pages;
            }
        }
    }
    best
}

#[test]
fn matches_exhaustive_search() {
    // The pruned search (density shortcut, isolated-item deferral, whole
    // ready set as one page) reports the same count as the exhaustive
    // reference that explores every choice through general branching.
    let cases: Vec<(Vec<(u32, u32)>, usize)> = vec![
        (vec![], 5),
        (vec![(1, 2)], 5),
        (vec![(2, 1), (3, 1), (1, 4)], 4),
        (vec![(2, 1), (3, 1), (4, 1), (1, 5)], 5),
        (vec![(1, 4), (2, 4), (3, 4)], 6),
        (vec![(1, 2), (2, 3), (3, 4)], 6),
    ];
    for (edges, n) in cases {
        for c in 1..4usize {
            let g = DependencyGraph::new(edges.clone(), n).unwrap();
            let fast = min_pages(g, c).unwrap();
            let slow = brute_min_pages(&build_plain(&edges, n), c);
            assert_eq!(fast, slow);
        }
    }
}

#[test]
fn solve_reports_feasible_count() {
    let g = DependencyGraph::new(vec![(2, 1), (3, 1), (1, 4)], 4).unwrap();
    assert_eq!(solve(g, 2), Ok(Feasibility::Feasible(3)));
}

#[test]
fn solve_reports_infeasible() {
    let g = DependencyGraph::new(vec![(1, 2), (2, 1)], 3).unwrap();
    assert_eq!(solve(g, 4), Ok(Feasibility::Infeasible));
}

#[test]
fn solve_rejects_zero_capacity() {
    let g = DependencyGraph::new(vec![], 3).unwrap();
    assert_eq!(solve(g, 0), Err(PackError::InvalidCapacity));
}
