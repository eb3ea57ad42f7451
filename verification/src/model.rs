//! Mathematical model of a residual dependency graph.
//!
//! The model is a sequence with one entry per vertex id: entry `v` holds the
//! outgoing-edge list of vertex `v` while the vertex is present, and `None`
//! once it has been removed. Entry `0` is permanently `None`, so vertex ids
//! `1..=n` coincide with sequence indices. Removing a vertex clears only its
//! own entry: surviving vertices' lists may keep stale references to it.

use vstd::prelude::*;

verus! {

/// Residual graph model: one `Option` entry per vertex id (entry 0 unused).
pub type GraphModel = Seq<Option<Seq<u32>>>;

/// Vertex `v` is still present in the residual graph.
pub open spec fn present(s: GraphModel, v: u32) -> bool {
    1 <= v < s.len() && s[v as int] is Some
}

/// The stored outgoing list of a present vertex (may hold stale targets).
pub open spec fn out_edges(s: GraphModel, v: u32) -> Seq<u32>
    recommends
        present(s, v),
{
    s[v as int]->Some_0
}

/// Some surviving vertex still points at `v`.
pub open spec fn has_incoming(s: GraphModel, v: u32) -> bool {
    exists|u: u32| present(s, u) && out_edges(s, u).contains(v)
}

/// A root: present, and no surviving vertex points at it.
pub open spec fn is_root(s: GraphModel, v: u32) -> bool {
    present(s, v) && !has_incoming(s, v)
}

/// An isolated vertex: a root whose own stored outgoing list is empty.
pub open spec fn is_isolated(s: GraphModel, v: u32) -> bool {
    is_root(s, v) && out_edges(s, v).len() == 0
}

/// Number of present vertices among ids below `k`.
pub open spec fn n_vertices_upto(s: GraphModel, k: int) -> nat
    decreases k,
{
    if k <= 0 {
        0
    } else {
        n_vertices_upto(s, k - 1) + (if s[k - 1] is Some {
            1nat
        } else {
            0nat
        })
    }
}

/// Number of present vertices in the residual graph.
pub open spec fn n_vertices(s: GraphModel) -> nat {
    n_vertices_upto(s, s.len() as int)
}

/// Length of a stored row, counting a removed entry as zero.
pub open spec fn row_len(o: Option<Seq<u32>>) -> nat {
    match o {
        Some(r) => r.len(),
        None => 0,
    }
}

/// Total stored edge count among ids below `k` (stale entries included).
pub open spec fn n_edges_upto(s: GraphModel, k: int) -> nat
    decreases k,
{
    if k <= 0 {
        0
    } else {
        n_edges_upto(s, k - 1) + row_len(s[k - 1])
    }
}

/// Total stored edge count of the residual graph (stale entries included).
pub open spec fn n_edges(s: GraphModel) -> nat {
    n_edges_upto(s, s.len() as int)
}

/// Roots among ids below `k`, in ascending id order.
pub open spec fn roots_upto(s: GraphModel, k: int) -> Seq<u32>
    decreases k,
{
    if k <= 0 {
        Seq::empty()
    } else if is_root(s, (k - 1) as u32) {
        roots_upto(s, k - 1).push((k - 1) as u32)
    } else {
        roots_upto(s, k - 1)
    }
}

/// All roots of the residual graph, in ascending id order.
pub open spec fn roots_of(s: GraphModel) -> Seq<u32> {
    roots_upto(s, s.len() as int)
}

/// Isolated vertices among ids below `k`, in ascending id order.
pub open spec fn isolated_upto(s: GraphModel, k: int) -> Seq<u32>
    decreases k,
{
    if k <= 0 {
        Seq::empty()
    } else if is_isolated(s, (k - 1) as u32) {
        isolated_upto(s, k - 1).push((k - 1) as u32)
    } else {
        isolated_upto(s, k - 1)
    }
}

/// All isolated vertices of the residual graph, in ascending id order.
pub open spec fn isolated_of(s: GraphModel) -> Seq<u32> {
    isolated_upto(s, s.len() as int)
}

/// The graph after removing every vertex listed in `vs`.
pub open spec fn remove_all(s: GraphModel, vs: Seq<u32>) -> GraphModel
    decreases vs.len(),
{
    if vs.len() == 0 {
        s
    } else {
        remove_all(s, vs.drop_last()).update(vs.last() as int, None)
    }
}

/// Targets of the declared edges whose source is `v`, in declaration order.
pub open spec fn row_of(es: Seq<(u32, u32)>, v: u32) -> Seq<u32>
    decreases es.len(),
{
    if es.len() == 0 {
        Seq::empty()
    } else if es.last().0 == v {
        row_of(es.drop_last(), v).push(es.last().1)
    } else {
        row_of(es.drop_last(), v)
    }
}

/// The full graph built from a declared edge list over vertices `1..=n`.
pub open spec fn graph_from(es: Seq<(u32, u32)>, n: nat) -> GraphModel {
    Seq::new(
        n + 1,
        |i: int|
            if i == 0 {
                None
            } else {
                Some(row_of(es, i as u32))
            },
    )
}

/// Every declared edge stays within the vertex range `1..=n`.
pub open spec fn edges_ok(es: Seq<(u32, u32)>, n: nat) -> bool {
    forall|j: int| 0 <= j < es.len() ==> 1 <= #[trigger] es[j].0 <= n && 1 <= es[j].1 <= n
}

/// Acyclicity by root peeling: repeatedly discard all current roots; a
/// non-empty residual graph with no roots witnesses a cycle. The inner
/// bound check only discharges termination; peeling a non-empty root set
/// always removes at least one vertex.
pub open spec fn acyclic(s: GraphModel) -> bool
    decreases n_vertices(s),
{
    if n_vertices(s) == 0 {
        true
    } else if roots_of(s).len() == 0 {
        false
    } else {
        let rest = remove_all(s, roots_of(s));
        if n_vertices(rest) < n_vertices(s) {
            acyclic(rest)
        } else {
            false
        }
    }
}

/// Updating one entry shifts the prefix vertex count exactly by the change
/// at that entry.
pub proof fn lemma_vertices_upto_update(s: GraphModel, v: int, o: Option<Seq<u32>>, k: int)
    requires
        0 <= v < s.len(),
        k <= s.len(),
    ensures
        n_vertices_upto(s.update(v, o), k) == n_vertices_upto(s, k) + (if 0 <= v < k {
            (if o is Some {
                1int
            } else {
                0int
            }) - (if s[v] is Some {
                1int
            } else {
                0int
            })
        } else {
            0int
        }),
    decreases k,
{
    if k > 0 {
        lemma_vertices_upto_update(s, v, o, k - 1);
    }
}

/// A prefix with no present entry counts zero vertices.
pub proof fn lemma_vertices_upto_zero(s: GraphModel, k: int)
    requires
        forall|i: int| 0 <= i < k ==> !(#[trigger] s[i] is Some),
    ensures
        n_vertices_upto(s, k) == 0,
    decreases k,
{
    if k > 0 {
        lemma_vertices_upto_zero(s, k - 1);
    }
}

/// Updating one entry shifts the prefix edge count exactly by the change in
/// that entry's row length.
pub proof fn lemma_edges_upto_update(s: GraphModel, v: int, o: Option<Seq<u32>>, k: int)
    requires
        0 <= v < s.len(),
        k <= s.len(),
    ensures
        n_edges_upto(s.update(v, o), k) == n_edges_upto(s, k) + (if 0 <= v < k {
            row_len(o) - row_len(s[v])
        } else {
            0int
        }),
    decreases k,
{
    if k > 0 {
        lemma_edges_upto_update(s, v, o, k - 1);
    }
}

/// The prefix edge count is monotone in the prefix bound.
pub proof fn lemma_edges_upto_mono(s: GraphModel, k1: int, k2: int)
    requires
        k1 <= k2,
    ensures
        n_edges_upto(s, k1) <= n_edges_upto(s, k2),
    decreases k2,
{
    if k2 > 0 && k1 < k2 {
        lemma_edges_upto_mono(s, k1, k2 - 1);
    }
}

/// A positive prefix vertex count exhibits a present entry.
pub proof fn lemma_vertices_upto_pos(s: GraphModel, k: int)
    requires
        n_vertices_upto(s, k) >= 1,
    ensures
        exists|i: int| 0 <= i < k && s[i] is Some,
    decreases k,
{
    if k > 0 {
        if s[k - 1] is Some {
            assert(0 <= k - 1 < k && s[k - 1] is Some);
        } else {
            lemma_vertices_upto_pos(s, k - 1);
        }
    }
}

/// A zero total edge count means every row in range is empty.
pub proof fn lemma_edges_upto_rows_zero(s: GraphModel, k: int)
    requires
        n_edges_upto(s, k) == 0,
    ensures
        forall|i: int| 0 <= i < k ==> row_len(#[trigger] s[i]) == 0,
    decreases k,
{
    if k > 0 {
        lemma_edges_upto_rows_zero(s, k - 1);
    }
}

/// Which ids the ascending root list holds, and that the list is strictly
/// ascending and duplicate-free.
pub proof fn lemma_roots_upto_char(s: GraphModel, k: int)
    requires
        0 <= k <= u32::MAX as int + 1,
    ensures
        forall|v: u32| #[trigger] roots_upto(s, k).contains(v) <==> (is_root(s, v) && (v as int) < k),
        forall|i: int, j: int|
            0 <= i < j < roots_upto(s, k).len() ==> roots_upto(s, k)[i] < roots_upto(s, k)[j],
        roots_upto(s, k).no_duplicates(),
    decreases k,
{
    if k > 0 {
        lemma_roots_upto_char(s, k - 1);
        let prev = roots_upto(s, k - 1);
        let cur = roots_upto(s, k);
        let w = (k - 1) as u32;
        if is_root(s, w) {
            assert forall|v: u32| #[trigger] cur.contains(v) implies (is_root(s, v) && (
            v as int) < k) by {
                let idx = choose|idx: int| 0 <= idx < cur.len() && cur[idx] == v;
                if idx < prev.len() {
                    assert(prev[idx] == v);
                    assert(prev.contains(v));
                }
            }
            assert forall|v: u32| is_root(s, v) && (v as int) < k implies #[trigger] cur.contains(
                v,
            ) by {
                if (v as int) < k - 1 {
                    assert(prev.contains(v));
                    let idx = choose|idx: int| 0 <= idx < prev.len() && prev[idx] == v;
                    assert(cur[idx] == v);
                } else {
                    assert(cur[cur.len() - 1] == v);
                }
            }
            assert forall|i: int, j: int| 0 <= i < j < cur.len() implies cur[i] < cur[j] by {
                if j < prev.len() {
                } else {
                    assert(prev.contains(prev[i]));
                }
            }
        } else {
            assert forall|v: u32| #[trigger] cur.contains(v) <==> (is_root(s, v) && (v as int)
                < k) by {
                if is_root(s, v) && (v as int) == k - 1 {
                    assert(v == w);
                }
            }
        }
        assert forall|i: int, j: int|
            0 <= i < cur.len() && 0 <= j < cur.len() && i != j implies cur[i] != cur[j] by {
            if i < j {
            } else {
            }
        }
    }
}

/// Which ids the ascending isolated-vertex list holds, and that the list is
/// strictly ascending and duplicate-free.
pub proof fn lemma_isolated_upto_char(s: GraphModel, k: int)
    requires
        0 <= k <= u32::MAX as int + 1,
    ensures
        forall|v: u32| #[trigger] isolated_upto(s, k).contains(v) <==> (is_isolated(s, v) && (
        v as int) < k),
        forall|i: int, j: int|
            0 <= i < j < isolated_upto(s, k).len() ==> isolated_upto(s, k)[i] < isolated_upto(
                s,
                k,
            )[j],
        isolated_upto(s, k).no_duplicates(),
    decreases k,
{
    if k > 0 {
        lemma_isolated_upto_char(s, k - 1);
        let prev = isolated_upto(s, k - 1);
        let cur = isolated_upto(s, k);
        let w = (k - 1) as u32;
        if is_isolated(s, w) {
            assert forall|v: u32| #[trigger] cur.contains(v) implies (is_isolated(s, v) && (
            v as int) < k) by {
                let idx = choose|idx: int| 0 <= idx < cur.len() && cur[idx] == v;
                if idx < prev.len() {
                    assert(prev[idx] == v);
                    assert(prev.contains(v));
                }
            }
            assert forall|v: u32| is_isolated(s, v) && (v as int) < k implies #[trigger] cur
                .contains(v) by {
                if (v as int) < k - 1 {
                    assert(prev.contains(v));
                    let idx = choose|idx: int| 0 <= idx < prev.len() && prev[idx] == v;
                    assert(cur[idx] == v);
                } else {
                    assert(cur[cur.len() - 1] == v);
                }
            }
            assert forall|i: int, j: int| 0 <= i < j < cur.len() implies cur[i] < cur[j] by {
                if j < prev.len() {
                } else {
                    assert(prev.contains(prev[i]));
                }
            }
        } else {
            assert forall|v: u32| #[trigger] cur.contains(v) <==> (is_isolated(s, v) && (
            v as int) < k) by {
                if is_isolated(s, v) && (v as int) == k - 1 {
                    assert(v == w);
                }
            }
        }
        assert forall|i: int, j: int|
            0 <= i < cur.len() && 0 <= j < cur.len() && i != j implies cur[i] != cur[j] by {
            if i < j {
            } else {
            }
        }
    }
}

/// After `remove_all`, an entry is cleared exactly when its id is listed,
/// and every other entry is untouched.
pub proof fn lemma_remove_all_char(s: GraphModel, vs: Seq<u32>)
    requires
        s.len() <= u32::MAX as int + 1,
        forall|j: int| 0 <= j < vs.len() ==> 1 <= #[trigger] vs[j] && (vs[j] as int) < s.len(),
    ensures
        remove_all(s, vs).len() == s.len(),
        forall|i: int|
            0 <= i < s.len() ==> #[trigger] remove_all(s, vs)[i] == (if vs.contains(i as u32) {
                None
            } else {
                s[i]
            }),
    decreases vs.len(),
{
    if vs.len() > 0 {
        let dl = vs.drop_last();
        let last = vs.last();
        lemma_remove_all_char(s, dl);
        let mid = remove_all(s, dl);
        assert forall|i: int| 0 <= i < s.len() implies #[trigger] remove_all(s, vs)[i] == (
        if vs.contains(i as u32) {
            None
        } else {
            s[i]
        }) by {
            if i == last as int {
                assert(vs[vs.len() - 1] == last);
                assert(vs.contains(i as u32));
            } else {
                if vs.contains(i as u32) {
                    let j = choose|j: int| 0 <= j < vs.len() && vs[j] == i as u32;
                    assert(j != vs.len() - 1);
                    assert(dl[j] == i as u32);
                    assert(dl.contains(i as u32));
                } else {
                    if dl.contains(i as u32) {
                        let j = choose|j: int| 0 <= j < dl.len() && dl[j] == i as u32;
                        assert(vs[j] == i as u32);
                    }
                }
            }
        }
    }
}

/// Removing listed vertices, all present and pairwise distinct, lowers the
/// vertex count by exactly the list's length.
pub proof fn lemma_remove_all_count(s: GraphModel, vs: Seq<u32>)
    requires
        s.len() <= u32::MAX as int + 1,
        vs.no_duplicates(),
        forall|j: int| 0 <= j < vs.len() ==> present(s, #[trigger] vs[j]),
    ensures
        n_vertices(remove_all(s, vs)) + vs.len() == n_vertices(s),
        remove_all(s, vs).len() == s.len(),
    decreases vs.len(),
{
    if vs.len() > 0 {
        let dl = vs.drop_last();
        let last = vs.last();
        assert(dl.no_duplicates());
        lemma_remove_all_count(s, dl);
        lemma_remove_all_char(s, dl);
        let mid = remove_all(s, dl);
        assert(!dl.contains(last)) by {
            if dl.contains(last) {
                let j = choose|j: int| 0 <= j < dl.len() && dl[j] == last;
                assert(vs[j] == vs[vs.len() - 1]);
            }
        }
        assert(present(s, last));
        assert(mid[last as int] == s[last as int]);
        lemma_vertices_upto_update(mid, last as int, None, mid.len() as int);
    }
}

/// A prefix whose rows are all empty stores no edges.
pub proof fn lemma_edges_upto_zero(s: GraphModel, k: int)
    requires
        forall|i: int| 0 <= i < k ==> row_len(#[trigger] s[i]) == 0,
    ensures
        n_edges_upto(s, k) == 0,
    decreases k,
{
    if k > 0 {
        lemma_edges_upto_zero(s, k - 1);
    }
}

/// A well-ranged edge list stores exactly one adjacency entry per edge.
pub proof fn lemma_graph_from_edges(es: Seq<(u32, u32)>, n: nat)
    requires
        n <= u32::MAX as nat,
        edges_ok(es, n),
    ensures
        n_edges(graph_from(es, n)) == es.len(),
    decreases es.len(),
{
    if es.len() == 0 {
        assert forall|i: int| 0 <= i < graph_from(es, n).len() implies row_len(
            #[trigger] graph_from(es, n)[i],
        ) == 0 by {}
        lemma_edges_upto_zero(graph_from(es, n), graph_from(es, n).len() as int);
    } else {
        let dl = es.drop_last();
        let u = es.last().0;
        let t = es.last().1;
        assert(edges_ok(dl, n)) by {
            assert forall|j: int| 0 <= j < dl.len() implies 1 <= #[trigger] dl[j].0 <= n
                && 1 <= dl[j].1 <= n by {
                assert(dl[j] == es[j]);
            }
        }
        lemma_graph_from_edges(dl, n);
        let prev = graph_from(dl, n);
        let cur = graph_from(es, n);
        assert(es[es.len() - 1] == es.last());
        assert(1 <= u <= n);
        assert(cur =~= prev.update(u as int, Some(row_of(dl, u).push(t)))) by {
            assert forall|i: int| 0 <= i < cur.len() implies cur[i] == prev.update(
                u as int,
                Some(row_of(dl, u).push(t)),
            )[i] by {
                if i >= 1 && i != u as int {
                    assert((i as u32) != u);
                    assert(row_of(es, i as u32) == row_of(dl, i as u32));
                }
            }
        }
        lemma_edges_upto_update(prev, u as int, Some(row_of(dl, u).push(t)), prev.len() as int);
    }
}

} // verus!
