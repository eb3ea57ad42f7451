//! The feasibility check and the recursive minimizer with its pruning
//! shortcuts.

use vstd::prelude::*;

use vstd::arithmetic::div_mod::{lemma_fundamental_div_mod, lemma_fundamental_div_mod_converse};

use crate::combos::{combinations_of, combos, lemma_combos_elem};
use crate::graph::{DependencyGraph, PackError};
use crate::model::{
    acyclic, is_isolated, is_root, isolated_of, n_edges, n_vertices, remove_all, roots_of,
    GraphModel, lemma_isolated_upto_char, lemma_remove_all_count, lemma_roots_upto_char,
};

verus! {

/// Outcome of a capacity-checked computation: the exact minimum page
/// count, or the report that no valid placement exists.
#[derive(Clone, Copy, Debug, PartialEq, Eq, Structural)]
pub enum Feasibility {
    Feasible(usize),
    Infeasible,
}

/// Ceiling division: the least page count whose total capacity covers `n`.
pub open spec fn div_ceil(n: nat, c: nat) -> nat
    recommends
        c >= 1,
{
    (((n + c) - 1) / (c as int)) as nat
}

/// The larger of two counts.
pub open spec fn max_nat(a: nat, b: nat) -> nat {
    if a >= b {
        a
    } else {
        b
    }
}

/// The smaller of two counts.
pub open spec fn min_nat(a: nat, b: nat) -> nat {
    if a <= b {
        a
    } else {
        b
    }
}

/// The page count reported by the pruned branch search on a feasible
/// residual graph, per call:
/// - no vertices: zero pages; capacity one: one page per vertex;
/// - density shortcut: with `n >= c * (e + 1)` the precedence structure is
///   too sparse to force more than the volume bound `ceil(n / c)`;
/// - isolated-item deferral: items with no remaining precedence ties fill
///   trailing capacity, so their removal costs at most the volume bound;
/// - few ready items: place the whole root set on the next page;
/// - otherwise branch over every capacity-sized subset of the root set.
///
/// The inner vertex-count comparisons only discharge termination: each
/// branch taken removes a non-empty set of present vertices. A non-empty
/// residual graph without roots (possible only when the input graph had a
/// cycle) is answered with its vertex count; `min_pages` screens cyclic
/// graphs out before this function is consulted.
pub open spec fn pages_feasible(s: GraphModel, c: nat) -> nat
    decreases n_vertices(s), 1int, 0int,
{
    let n = n_vertices(s);
    if n == 0 {
        0
    } else if c <= 1 {
        n
    } else if n >= c * (n_edges(s) + 1) {
        div_ceil(n, c)
    } else if isolated_of(s).len() > 0 {
        let rest = remove_all(s, isolated_of(s));
        if n_vertices(rest) < n {
            max_nat(div_ceil(n, c), pages_feasible(rest, c))
        } else {
            n
        }
    } else if roots_of(s).len() == 0 {
        n
    } else if roots_of(s).len() <= c {
        let rest = remove_all(s, roots_of(s));
        if n_vertices(rest) < n {
            1 + pages_feasible(rest, c)
        } else {
            n
        }
    } else {
        best_over(s, c, combos(roots_of(s), c), n)
    }
}

/// Fold of the branch search over the candidate next pages: the minimum of
/// the accumulator and `1 +` the recursive count after each candidate.
pub open spec fn best_over(s: GraphModel, c: nat, cs: Seq<Seq<u32>>, acc: nat) -> nat
    decreases n_vertices(s), 0int, cs.len(),
{
    if cs.len() == 0 {
        acc
    } else {
        let rest = remove_all(s, cs.first());
        let cand = if n_vertices(rest) < n_vertices(s) {
            1 + pages_feasible(rest, c)
        } else {
            n_vertices(s)
        };
        best_over(s, c, cs.drop_first(), min_nat(acc, cand))
    }
}

/// `div_ceil` splits as floor division plus a correction, covers `n`, and
/// never exceeds `n`.
pub proof fn lemma_div_ceil(n: nat, c: nat)
    requires
        c >= 1,
    ensures
        div_ceil(n, c) == n / c + (if n % c == 0 {
            0int
        } else {
            1int
        }),
        c * div_ceil(n, c) >= n,
        c * div_ceil(n, c) < n + c,
        div_ceil(n, c) <= n,
        n >= 1 ==> div_ceil(n, c) >= 1,
{
    let ci = c as int;
    let q = (n as int) / ci;
    let r = (n as int) % ci;
    lemma_fundamental_div_mod(n as int, ci);
    assert(0 <= r < ci);
    assert(q >= 0) by (nonlinear_arith)
        requires
            n as int == ci * q + r,
            0 <= r < ci,
            ci >= 1,
    ;
    assert(q <= q * ci) by (nonlinear_arith)
        requires
            q >= 0,
            ci >= 1,
    ;
    if r == 0 {
        assert((n + c) as int - 1 == q * ci + (ci - 1)) by (nonlinear_arith)
            requires
                n as int == ci * q + r,
                r == 0,
                c == ci,
        ;
        lemma_fundamental_div_mod_converse((n + c) as int - 1, ci, q, ci - 1);
        assert(div_ceil(n, c) == q);
        assert(c * div_ceil(n, c) >= n && c * div_ceil(n, c) < n + c) by (nonlinear_arith)
            requires
                n as int == ci * q + r,
                r == 0,
                c * div_ceil(n, c) == ci * q,
                c == ci,
                ci >= 1,
        ;
        if n >= 1 {
            assert(q >= 1) by (nonlinear_arith)
                requires
                    n as int == ci * q + r,
                    r == 0,
                    n >= 1,
                    q >= 0,
            ;
        }
    } else {
        assert((n + c) as int - 1 == (q + 1) * ci + (r - 1)) by (nonlinear_arith)
            requires
                n as int == ci * q + r,
                c == ci,
        ;
        lemma_fundamental_div_mod_converse((n + c) as int - 1, ci, q + 1, r - 1);
        assert(div_ceil(n, c) == q + 1);
        assert(c * div_ceil(n, c) >= n && c * div_ceil(n, c) < n + c) by (nonlinear_arith)
            requires
                n as int == ci * q + r,
                0 <= r < ci,
                c * div_ceil(n, c) == (q + 1) * ci,
                c == ci,
        ;
        assert(q + 1 <= n) by {
            assert(q <= n as int - r);
        }
    }
}

/// Raising the capacity never raises the volume bound.
pub proof fn lemma_div_ceil_monotone(n: nat, c1: nat, c2: nat)
    requires
        1 <= c1 <= c2,
    ensures
        div_ceil(n, c2) <= div_ceil(n, c1),
{
    lemma_div_ceil(n, c1);
    lemma_div_ceil(n, c2);
    let k1 = div_ceil(n, c1);
    let k2 = div_ceil(n, c2);
    if k2 > k1 {
        assert(false) by (nonlinear_arith)
            requires
                c1 * k1 >= n,
                c2 * k2 < n + c2,
                k2 > k1,
                1 <= c1 <= c2,
                k1 >= 0,
        ;
    }
}

/// The executable density test `e < n / c` matches the closed-form bound
/// `n >= c * (e + 1)`.
pub proof fn lemma_density_test(n: nat, e: nat, c: nat)
    requires
        c >= 1,
    ensures
        (e < n / c) <==> (n >= c * (e + 1)),
{
    let ci = c as int;
    let q = (n as int) / ci;
    let r = (n as int) % ci;
    lemma_fundamental_div_mod(n as int, ci);
    assert(0 <= r < ci);
    if e < q {
        assert(n >= c * (e + 1)) by (nonlinear_arith)
            requires
                n as int == ci * q + r,
                0 <= r,
                (e as int) + 1 <= q,
                ci >= 1,
                c == ci,
        ;
    }
    if n >= c * (e + 1) && e >= q {
        assert(false) by (nonlinear_arith)
            requires
                n as int == ci * q + r,
                0 <= r < ci,
                e >= q,
                n >= c * (e + 1),
                c == ci,
        ;
    }
}

/// The fold of candidate pages never exceeds its accumulator.
pub proof fn lemma_best_over_le(s: GraphModel, c: nat, cs: Seq<Seq<u32>>, acc: nat)
    ensures
        best_over(s, c, cs, acc) <= acc,
    decreases cs.len(),
{
    if cs.len() > 0 {
        let rest = remove_all(s, cs.first());
        let cand = if n_vertices(rest) < n_vertices(s) {
            1 + pages_feasible(rest, c)
        } else {
            n_vertices(s)
        };
        lemma_best_over_le(s, c, cs.drop_first(), min_nat(acc, cand));
    }
}

/// The reported page count never exceeds the number of present vertices.
pub proof fn lemma_pages_le_n(s: GraphModel, c: nat)
    requires
        c >= 1,
    ensures
        pages_feasible(s, c) <= n_vertices(s),
    decreases n_vertices(s),
{
    let n = n_vertices(s);
    if n == 0 {
    } else if c <= 1 {
    } else if n >= c * (n_edges(s) + 1) {
        lemma_div_ceil(n, c);
    } else if isolated_of(s).len() > 0 {
        let rest = remove_all(s, isolated_of(s));
        lemma_div_ceil(n, c);
        if n_vertices(rest) < n {
            lemma_pages_le_n(rest, c);
        }
    } else if roots_of(s).len() == 0 {
    } else if roots_of(s).len() <= c {
        let rest = remove_all(s, roots_of(s));
        if n_vertices(rest) < n {
            lemma_pages_le_n(rest, c);
        }
    } else {
        lemma_best_over_le(s, c, combos(roots_of(s), c), n);
    }
}

/// Exact minimum page count for a feasible residual graph, by branch
/// search with the two pruning shortcuts.
pub fn min_pages_feasible(graph: DependencyGraph, max_by_page: usize) -> (r: usize)
    requires
        graph.wf(),
        max_by_page >= 1,
    ensures
        r == pages_feasible(graph@, max_by_page as nat),
    decreases n_vertices(graph@),
{
    let ghost s = graph@;
    let ghost c = max_by_page as nat;
    let n = graph.count_vertices();
    if n == 0 {
        return 0;
    }
    if max_by_page == 1 {
        return n;
    }
    let e = graph.count_edges();
    proof {
        lemma_density_test(n as nat, e as nat, c);
    }
    if e < n / max_by_page {
        proof {
            lemma_div_ceil(n as nat, c);
        }
        let p = n / max_by_page + (if n % max_by_page == 0 {
            0
        } else {
            1
        });
        assert(p == div_ceil(n as nat, c));
        return p;
    }
    assert(!(n as nat >= c * (n_edges(s) + 1)));
    let iso = graph.isolated_vertices();
    if iso.len() > 0 {
        proof {
            lemma_isolated_upto_char(s, s.len() as int);
            assert forall|j: int| 0 <= j < iso@.len() implies is_isolated(
                s,
                #[trigger] iso@[j],
            ) by {
                assert(iso@.contains(iso@[j]));
            }
            assert forall|j: int| 0 <= j < iso@.len() implies 1 <= #[trigger] iso@[j] && (
            iso@[j] as int) < s.len() by {}
            lemma_remove_all_count(s, iso@);
        }
        let mut g = graph;
        g.remove_listed(&iso);
        let rec = min_pages_feasible(g, max_by_page);
        proof {
            lemma_div_ceil(n as nat, c);
            lemma_pages_le_n(remove_all(s, isolated_of(s)), c);
        }
        let ceil_pages = n / max_by_page + (if n % max_by_page == 0 {
            0
        } else {
            1
        });
        let out = if ceil_pages >= rec {
            ceil_pages
        } else {
            rec
        };
        assert(out == pages_feasible(s, c));
        return out;
    }
    let ready = graph.roots();
    proof {
        lemma_roots_upto_char(s, s.len() as int);
        assert forall|j: int| 0 <= j < ready@.len() implies is_root(s, #[trigger] ready@[j]) by {
            assert(ready@.contains(ready@[j]));
        }
    }
    if ready.len() == 0 {
        return n;
    }
    if ready.len() <= max_by_page {
        proof {
            lemma_remove_all_count(s, ready@);
        }
        let mut g = graph;
        g.remove_listed(&ready);
        let rec = min_pages_feasible(g, max_by_page);
        proof {
            lemma_pages_le_n(remove_all(s, roots_of(s)), c);
        }
        return 1 + rec;
    }
    let page_sets = combinations_of(&ready, max_by_page);
    let ghost cs = combos(ready@, c);
    let mut best = n;
    let mut idx: usize = 0;
    proof {
        assert(cs.skip(0) =~= cs);
    }
    while idx < page_sets.len()
        invariant
            graph.wf(),
            graph@ == s,
            n == n_vertices(s),
            n >= 1,
            c == max_by_page as nat,
            2 <= max_by_page,
            (max_by_page as int) < ready@.len(),
            !((n as nat) >= c * (n_edges(s) + 1)),
            isolated_of(s).len() == 0,
            ready@ == roots_of(s),
            ready@.no_duplicates(),
            forall|j: int| 0 <= j < ready@.len() ==> is_root(s, #[trigger] ready@[j]),
            s.len() <= u32::MAX as int + 1,
            page_sets@.map_values(|x: Vec<u32>| x@) == cs,
            cs == combos(ready@, c),
            idx <= page_sets@.len(),
            best <= n,
            best_over(s, c, cs, n as nat) == best_over(s, c, cs.skip(idx as int), best as nat),
        decreases page_sets@.len() - idx,
    {
        let ghost combo = cs[idx as int];
        proof {
            assert(cs.len() == page_sets@.len()) by {
                assert(page_sets@.map_values(|x: Vec<u32>| x@).len() == page_sets@.len());
            }
            assert(page_sets@[idx as int]@ == combo) by {
                assert(page_sets@.map_values(|x: Vec<u32>| x@)[idx as int] == page_sets@[idx as int]@);
            }
            lemma_combos_elem(ready@, c, idx as int);
            assert(combo.len() == c);
            assert forall|j: int| 0 <= j < combo.len() implies is_root(s, #[trigger] combo[j]) by {
                assert(combo[j] == combos(ready@, c)[idx as int][j]);
                assert(ready@.contains(combos(ready@, c)[idx as int][j]));
                assert(ready@.contains(combo[j]));
            }
            assert forall|j: int| 0 <= j < combo.len() implies 1 <= #[trigger] combo[j] && (
            combo[j] as int) < s.len() by {}
            lemma_remove_all_count(s, combo);
        }
        let mut g = graph.clone();
        let sub = &page_sets[idx];
        g.remove_listed(sub);
        let rec = min_pages_feasible(g, max_by_page);
        proof {
            lemma_pages_le_n(remove_all(s, combo), c);
        }
        let cand = 1 + rec;
        let ghost old_best = best as nat;
        if cand < best {
            best = cand;
        }
        proof {
            assert(cs.skip(idx as int).first() == combo);
            assert(cs.skip(idx as int).drop_first() =~= cs.skip(idx as int + 1));
            assert(best_over(s, c, cs.skip(idx as int), old_best) == best_over(
                s,
                c,
                cs.skip(idx as int + 1),
                min_nat(old_best, 1 + pages_feasible(remove_all(s, combo), c)),
            ));
            assert(min_nat(old_best, 1 + pages_feasible(remove_all(s, combo), c)) == best as nat);
        }
        idx = idx + 1;
    }
    proof {
        assert(cs.skip(cs.len() as int) =~= Seq::<Seq<u32>>::empty());
        assert(best_over(s, c, cs, n as nat) == best as nat);
    }
    best
}

/// The outcome of the whole computation: the exact page count of a
/// feasible graph, or `None` for a graph with a cycle.
pub open spec fn outcome_of(s: GraphModel, c: nat) -> Option<nat> {
    if acyclic(s) {
        Some(pages_feasible(s, c))
    } else {
        None
    }
}

/// Minimum number of pages for the given graph and capacity, or `None`
/// when the dependency graph is cyclic (no valid placement exists).
pub fn min_pages(graph: DependencyGraph, max_by_page: usize) -> (r: Option<usize>)
    requires
        graph.wf(),
        max_by_page >= 1,
    ensures
        match r {
            Some(p) => outcome_of(graph@, max_by_page as nat) == Some(p as nat),
            None => outcome_of(graph@, max_by_page as nat) is None,
        },
{
    if !graph.is_acyclic() {
        None
    } else {
        Some(min_pages_feasible(graph, max_by_page))
    }
}

/// Checked entry point: rejects a zero capacity, then reports the exact
/// minimum page count or infeasibility.
pub fn solve(graph: DependencyGraph, capacity: usize) -> (r: Result<Feasibility, PackError>)
    requires
        graph.wf(),
    ensures
        match r {
            Ok(Feasibility::Feasible(p)) => capacity >= 1 && acyclic(graph@) && p
                == pages_feasible(graph@, capacity as nat),
            Ok(Feasibility::Infeasible) => capacity >= 1 && !acyclic(graph@),
            Err(e) => e == PackError::InvalidCapacity && capacity == 0,
        },
{
    if capacity == 0 {
        return Err(PackError::InvalidCapacity);
    }
    match min_pages(graph, capacity) {
        Some(p) => Ok(Feasibility::Feasible(p)),
        None => Ok(Feasibility::Infeasible),
    }
}

} // verus!
