//! General properties of the solver, stated over the graph model and
//! proved against the specs that the executable functions are held to.

use vstd::prelude::*;

use vstd::arithmetic::div_mod::lemma_fundamental_div_mod_converse;

use crate::model::{
    acyclic, has_incoming, is_isolated, is_root, isolated_of, n_edges, n_vertices, out_edges,
    present, remove_all, roots_of, row_len, GraphModel, lemma_edges_upto_rows_zero,
    lemma_isolated_upto_char, lemma_remove_all_char, lemma_roots_upto_char,
    lemma_vertices_upto_pos, lemma_vertices_upto_zero,
};
use crate::solver::{
    div_ceil, max_nat, outcome_of, pages_feasible, lemma_div_ceil, lemma_div_ceil_monotone,
};

verus! {

/// Removing a list that covers every present vertex empties the graph.
proof fn lemma_remove_all_present_empties(s: GraphModel, vs: Seq<u32>)
    requires
        s.len() <= u32::MAX as int + 1,
        s[0] is None,
        forall|j: int| 0 <= j < vs.len() ==> 1 <= #[trigger] vs[j] && (vs[j] as int) < s.len(),
        forall|v: u32| present(s, v) ==> vs.contains(v),
    ensures
        n_vertices(remove_all(s, vs)) == 0,
{
    lemma_remove_all_char(s, vs);
    let rest = remove_all(s, vs);
    assert forall|i: int| 0 <= i < rest.len() implies !(#[trigger] rest[i] is Some) by {
        if !vs.contains(i as u32) {
            if i >= 1 && s[i] is Some {
                assert(present(s, i as u32));
            }
        }
    }
    lemma_vertices_upto_zero(rest, rest.len() as int);
}

/// In a graph with no stored edges, every present vertex is an isolated
/// root.
proof fn lemma_no_edges_all_isolated(s: GraphModel)
    requires
        n_edges(s) == 0,
    ensures
        forall|v: u32| #[trigger] is_root(s, v) <==> present(s, v),
        forall|v: u32| #[trigger] is_isolated(s, v) <==> present(s, v),
{
    lemma_edges_upto_rows_zero(s, s.len() as int);
    assert forall|v: u32| !(#[trigger] has_incoming(s, v)) by {
        if has_incoming(s, v) {
            let u = choose|u: u32| present(s, u) && out_edges(s, u).contains(v);
            assert(row_len(s[u as int]) == 0);
        }
    }
    assert forall|v: u32| #[trigger] is_isolated(s, v) <==> present(s, v) by {
        if present(s, v) {
            assert(row_len(s[v as int]) == 0);
        }
    }
}

/// Volume-bound law: a graph with no edges is always feasible, and its
/// exact page count at capacity `c >= 1` is the volume bound
/// `ceil(n / c)`, for every vertex count `n >= 0`.
pub proof fn lemma_no_edges_volume_bound(s: GraphModel, c: nat)
    requires
        c >= 1,
        s.len() <= u32::MAX as int + 1,
        s[0] is None,
        n_edges(s) == 0,
    ensures
        acyclic(s),
        pages_feasible(s, c) == div_ceil(n_vertices(s), c),
{
    let n = n_vertices(s);
    lemma_no_edges_all_isolated(s);
    lemma_div_ceil(n, c);
    if n == 0 {
        assert(div_ceil(0, c) == 0) by {
            lemma_fundamental_div_mod_converse(0, c as int, 0, 0);
        }
    } else {
        lemma_vertices_upto_pos(s, s.len() as int);
        let w = choose|i: int| 0 <= i < s.len() && s[i] is Some;
        assert(w >= 1);
        assert(present(s, w as u32));
        lemma_roots_upto_char(s, s.len() as int);
        lemma_isolated_upto_char(s, s.len() as int);
        assert(roots_of(s).contains(w as u32));
        assert(roots_of(s).len() > 0);
        assert(isolated_of(s).contains(w as u32));
        assert(isolated_of(s).len() > 0);
        assert forall|j: int|
            0 <= j < roots_of(s).len() implies 1 <= #[trigger] roots_of(s)[j] && (roots_of(
            s,
        )[j] as int) < s.len() by {
            assert(roots_of(s).contains(roots_of(s)[j]));
        }
        assert forall|v: u32| present(s, v) implies roots_of(s).contains(v) by {}
        lemma_remove_all_present_empties(s, roots_of(s));
        assert(acyclic(remove_all(s, roots_of(s))));
        assert(acyclic(s));
        if c == 1 {
            assert(div_ceil(n, 1) == n) by {
                lemma_fundamental_div_mod_converse(n as int, 1, n as int, 0);
            }
            assert(pages_feasible(s, 1) == n);
        } else if n >= c * (n_edges(s) + 1) {
            assert(pages_feasible(s, c) == div_ceil(n, c));
        } else {
            assert forall|j: int|
                0 <= j < isolated_of(s).len() implies 1 <= #[trigger] isolated_of(s)[j] && (
            isolated_of(s)[j] as int) < s.len() by {
                assert(isolated_of(s).contains(isolated_of(s)[j]));
            }
            assert forall|v: u32| present(s, v) implies isolated_of(s).contains(v) by {}
            lemma_remove_all_present_empties(s, isolated_of(s));
            let rest = remove_all(s, isolated_of(s));
            assert(pages_feasible(rest, c) == 0);
            assert(pages_feasible(s, c) == max_nat(div_ceil(n, c), 0));
        }
    }
}

/// Capacity-one law: for a feasible graph, capacity one needs exactly one
/// page per remaining item.
pub proof fn lemma_capacity_one(s: GraphModel)
    requires
        acyclic(s),
    ensures
        outcome_of(s, 1) == Some(n_vertices(s)),
{
    assert(pages_feasible(s, 1) == n_vertices(s));
}

/// Infeasibility law: a graph containing a cycle is reported impossible,
/// whatever the capacity.
pub proof fn lemma_cyclic_impossible(s: GraphModel, c: nat)
    requires
        !acyclic(s),
    ensures
        outcome_of(s, c) is None,
{
}

/// A feasible, non-empty residual graph always offers a ready item: roots
/// run out only when no vertices remain or the graph had a cycle.
pub proof fn lemma_feasible_graph_has_roots(s: GraphModel)
    requires
        acyclic(s),
        n_vertices(s) > 0,
    ensures
        roots_of(s).len() > 0,
{
}

/// Capacity trade-off law, proved for edge-free graphs: the reported page
/// count never increases as the capacity grows.
pub proof fn lemma_no_edges_capacity_monotone(s: GraphModel, c1: nat, c2: nat)
    requires
        s.len() <= u32::MAX as int + 1,
        s[0] is None,
        n_edges(s) == 0,
        1 <= c1 <= c2,
    ensures
        pages_feasible(s, c2) <= pages_feasible(s, c1),
{
    lemma_no_edges_volume_bound(s, c1);
    lemma_no_edges_volume_bound(s, c2);
    lemma_div_ceil_monotone(n_vertices(s), c1, c2);
}

} // verus!
