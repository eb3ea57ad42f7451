//! The executable dependency graph: an arena of outgoing-edge rows addressed
//! by vertex id, with `None` marking removed vertices.

use vstd::prelude::*;

use crate::model::{
    acyclic, graph_from, edges_ok, has_incoming, is_isolated, is_root, isolated_of, isolated_upto,
    n_edges, n_edges_upto, n_vertices, n_vertices_upto, out_edges, present, remove_all, roots_of,
    roots_upto, row_of, GraphModel, lemma_edges_upto_mono, lemma_edges_upto_update,
    lemma_graph_from_edges, lemma_remove_all_count, lemma_roots_upto_char,
};

verus! {

/// Rejected inputs: an edge endpoint outside `1..=n`, or a page capacity
/// of zero.
#[derive(Clone, Copy, Debug, PartialEq, Eq, Structural)]
pub enum PackError {
    InvalidEdge,
    InvalidCapacity,
}

/// The view of one stored arena entry.
pub open spec fn opt_view(o: Option<Vec<u32>>) -> Option<Seq<u32>> {
    match o {
        Some(v) => Some(v@),
        None => None,
    }
}

/// Directed dependency graph over vertices `1..=n`, stored as one
/// outgoing-edge row per vertex. Removal clears only the removed vertex's
/// own row; other rows may keep stale references to it.
#[derive(Debug)]
pub struct DependencyGraph {
    adj: Vec<Option<Vec<u32>>>,
}

impl View for DependencyGraph {
    type V = GraphModel;

    closed spec fn view(&self) -> GraphModel {
        self.adj@.map_values(|o: Option<Vec<u32>>| opt_view(o))
    }
}

impl DependencyGraph {
    /// Well-formed arena: a dummy entry at id zero, ids that fit in `u32`,
    /// and a stored edge total that fits in `usize`.
    pub open spec fn wf(&self) -> bool {
        &&& 1 <= self@.len() <= u32::MAX as int + 1
        &&& self@[0] is None
        &&& n_edges(self@) <= usize::MAX as nat
    }

    /// How many vertices are still present.
    pub fn count_vertices(&self) -> (n: usize)
        requires
            self.wf(),
        ensures
            n == n_vertices(self@),
    {
        let ghost s = self@;
        let mut n: usize = 0;
        let mut v: usize = 0;
        while v < self.adj.len()
            invariant
                self@ == s,
                v <= self.adj.len() == s.len(),
                n == n_vertices_upto(s, v as int),
                n <= v,
            decreases self.adj.len() - v,
        {
            match &self.adj[v] {
                Some(_) => {
                    n = n + 1;
                },
                None => {},
            }
            assert(s[v as int] == opt_view(self.adj@[v as int]));
            v = v + 1;
        }
        n
    }

    /// Total length of all stored rows, stale entries included.
    pub fn count_edges(&self) -> (m: usize)
        requires
            self.wf(),
        ensures
            m == n_edges(self@),
    {
        let ghost s = self@;
        let mut m: usize = 0;
        let mut v: usize = 0;
        while v < self.adj.len()
            invariant
                self@ == s,
                self.wf(),
                v <= self.adj.len() == s.len(),
                m == n_edges_upto(s, v as int),
            decreases self.adj.len() - v,
        {
            assert(s[v as int] == opt_view(self.adj@[v as int]));
            proof {
                lemma_edges_upto_mono(s, v as int + 1, s.len() as int);
            }
            match &self.adj[v] {
                Some(row) => {
                    m = m + row.len();
                },
                None => {},
            }
            v = v + 1;
        }
        m
    }

    /// Build the graph for vertices `1..=n` from the declared edge list,
    /// appending each edge's target to its source's row in declaration
    /// order. An edge endpoint outside `1..=n` is reported, not ignored.
    pub fn new(edges: Vec<(u32, u32)>, n: usize) -> (r: Result<Self, PackError>)
        requires
            n <= u32::MAX as usize,
        ensures
            match r {
                Ok(g) => g.wf() && edges_ok(edges@, n as nat) && g@ == graph_from(
                    edges@,
                    n as nat,
                ),
                Err(e) => e == PackError::InvalidEdge && !edges_ok(edges@, n as nat),
            },
    {
        let n32 = n as u32;
        let mut j: usize = 0;
        while j < edges.len()
            invariant
                j <= edges.len(),
                n32 == n,
                n <= u32::MAX,
                forall|j2: int|
                    0 <= j2 < j ==> 1 <= #[trigger] edges@[j2].0 <= n && 1 <= edges@[j2].1 <= n,
            decreases edges.len() - j,
        {
            let u = edges[j].0;
            let v = edges[j].1;
            if u < 1 || u > n32 || v < 1 || v > n32 {
                return Err(PackError::InvalidEdge);
            }
            j = j + 1;
        }
        let mut adj: Vec<Option<Vec<u32>>> = Vec::new();
        adj.push(None);
        let mut i: usize = 0;
        while i < n
            invariant
                i <= n <= u32::MAX,
                adj@.len() == i + 1,
                adj@[0] is None,
                forall|i2: int|
                    1 <= i2 <= i ==> opt_view(#[trigger] adj@[i2]) == Some(
                        row_of(edges@, i2 as u32),
                    ),
            decreases n - i,
        {
            let id = (i as u32) + 1;
            let mut row: Vec<u32> = Vec::new();
            let mut j2: usize = 0;
            while j2 < edges.len()
                invariant
                    j2 <= edges.len(),
                    id == i + 1,
                    i < n <= u32::MAX,
                    row@ == row_of(edges@.take(j2 as int), id),
                decreases edges.len() - j2,
            {
                proof {
                    assert(edges@.take(j2 as int + 1).drop_last() =~= edges@.take(j2 as int));
                    assert(edges@.take(j2 as int + 1).last() == edges@[j2 as int]);
                }
                let u = edges[j2].0;
                let v = edges[j2].1;
                if u == id {
                    row.push(v);
                }
                j2 = j2 + 1;
            }
            proof {
                assert(edges@.take(edges@.len() as int) =~= edges@);
            }
            adj.push(Some(row));
            i = i + 1;
        }
        let g = DependencyGraph { adj };
        proof {
            assert(g@ =~= graph_from(edges@, n as nat)) by {
                assert forall|i2: int| 0 <= i2 < g@.len() implies g@[i2] == graph_from(
                    edges@,
                    n as nat,
                )[i2] by {
                    assert(g@[i2] == opt_view(adj@[i2]));
                }
            }
            lemma_graph_from_edges(edges@, n as nat);
        }
        Ok(g)
    }

    /// Whether some surviving vertex still points at `v`.
    fn has_incoming_exec(&self, v: u32) -> (b: bool)
        requires
            self.wf(),
        ensures
            b == has_incoming(self@, v),
    {
        let ghost s = self@;
        let mut u: usize = 0;
        let mut found = false;
        while u < self.adj.len()
            invariant
                self@ == s,
                self.wf(),
                u <= s.len() == self.adj.len(),
                found == exists|u2: u32|
                    (u2 as int) < u && present(s, u2) && out_edges(s, u2).contains(v),
            decreases self.adj.len() - u,
        {
            assert(s[u as int] == opt_view(self.adj@[u as int]));
            match &self.adj[u] {
                Some(row) => {
                    assert(u >= 1);
                    if row_contains(row, v) {
                        assert(present(s, u as u32) && out_edges(s, u as u32).contains(v));
                        found = true;
                    } else {
                        assert(!out_edges(s, u as u32).contains(v));
                    }
                },
                None => {
                    assert(!present(s, u as u32));
                },
            }
            proof {
                assert forall|u2: u32|
                    (u2 as int) < u + 1 && present(s, u2) && out_edges(s, u2).contains(v) implies (
                exists|u3: u32| (u3 as int) < u && present(s, u3) && out_edges(s, u3).contains(v))
                    || u2 == u as u32 by {}
            }
            u = u + 1;
        }
        assert forall|u2: u32| present(s, u2) && out_edges(s, u2).contains(v) implies (
        u2 as int) < u by {}
        found
    }

    /// The current roots: present vertices at which no surviving vertex's
    /// stored row points. Ascending id order.
    pub fn roots(&self) -> (r: Vec<u32>)
        requires
            self.wf(),
        ensures
            r@ == roots_of(self@),
    {
        let ghost s = self@;
        let mut r: Vec<u32> = Vec::new();
        let mut v: usize = 0;
        while v < self.adj.len()
            invariant
                self@ == s,
                self.wf(),
                v <= self.adj.len() == s.len(),
                r@ == roots_upto(s, v as int),
            decreases self.adj.len() - v,
        {
            assert(s[v as int] == opt_view(self.adj@[v as int]));
            let is_present = match &self.adj[v] {
                Some(_) => true,
                None => false,
            };
            if is_present {
                assert(v >= 1);
                if !self.has_incoming_exec(v as u32) {
                    assert(is_root(s, v as u32));
                    r.push(v as u32);
                } else {
                    assert(!is_root(s, v as u32));
                }
            } else {
                assert(!is_root(s, v as u32));
            }
            v = v + 1;
        }
        r
    }

    /// The current isolated vertices: roots whose own stored row is empty.
    /// Ascending id order.
    pub fn isolated_vertices(&self) -> (r: Vec<u32>)
        requires
            self.wf(),
        ensures
            r@ == isolated_of(self@),
    {
        let ghost s = self@;
        let mut r: Vec<u32> = Vec::new();
        let mut v: usize = 0;
        while v < self.adj.len()
            invariant
                self@ == s,
                self.wf(),
                v <= self.adj.len() == s.len(),
                r@ == isolated_upto(s, v as int),
            decreases self.adj.len() - v,
        {
            assert(s[v as int] == opt_view(self.adj@[v as int]));
            let no_out = match &self.adj[v] {
                Some(row) => {
                    assert(v >= 1);
                    Some(row.len() == 0)
                },
                None => None,
            };
            match no_out {
                Some(empty_row) => {
                    if empty_row && !self.has_incoming_exec(v as u32) {
                        assert(is_isolated(s, v as u32));
                        r.push(v as u32);
                    } else {
                        assert(!is_isolated(s, v as u32));
                    }
                },
                None => {
                    assert(!is_isolated(s, v as u32));
                },
            }
            v = v + 1;
        }
        r
    }

    /// Whether the residual graph is acyclic, by peeling root sets from a
    /// scratch copy until it empties (acyclic) or roots run out (cyclic).
    pub fn is_acyclic(&self) -> (b: bool)
        requires
            self.wf(),
        ensures
            b == acyclic(self@),
    {
        let mut g = self.clone();
        loop
            invariant
                g.wf(),
                acyclic(g@) == acyclic(self@),
            decreases n_vertices(g@),
        {
            let nv = g.count_vertices();
            if nv == 0 {
                return true;
            }
            let rs = g.roots();
            if rs.len() == 0 {
                return false;
            }
            let ghost snap = g@;
            proof {
                lemma_roots_upto_char(snap, snap.len() as int);
                assert forall|j: int| 0 <= j < rs@.len() implies is_root(
                    snap,
                    #[trigger] rs@[j],
                ) by {
                    assert(rs@.contains(rs@[j]));
                }
                assert forall|j: int| 0 <= j < rs@.len() implies present(
                    snap,
                    #[trigger] rs@[j],
                ) by {}
                lemma_remove_all_count(snap, rs@);
            }
            g.remove_listed(&rs);
            proof {
                assert(g@ == remove_all(snap, roots_of(snap)));
                assert(n_vertices(g@) < n_vertices(snap));
            }
        }
    }

    /// Remove every vertex listed in `vs`, in order.
    pub fn remove_listed(&mut self, vs: &Vec<u32>)
        requires
            old(self).wf(),
            forall|j: int|
                0 <= j < vs@.len() ==> 1 <= #[trigger] vs@[j] && (vs@[j] as int) < old(
                    self,
                )@.len(),
        ensures
            final(self).wf(),
            final(self)@ == remove_all(old(self)@, vs@),
            final(self)@.len() == old(self)@.len(),
    {
        let ghost snap = self@;
        let mut idx: usize = 0;
        while idx < vs.len()
            invariant
                self.wf(),
                idx <= vs@.len(),
                forall|j: int|
                    0 <= j < vs@.len() ==> 1 <= #[trigger] vs@[j] && (vs@[j] as int) < snap.len(),
                self@ == remove_all(snap, vs@.take(idx as int)),
                self@.len() == snap.len(),
            decreases vs@.len() - idx,
        {
            self.remove(vs[idx]);
            proof {
                assert(vs@.take(idx as int + 1).drop_last() =~= vs@.take(idx as int));
                assert(vs@.take(idx as int + 1).last() == vs@[idx as int]);
            }
            idx = idx + 1;
        }
        proof {
            assert(vs@.take(vs@.len() as int) =~= vs@);
        }
    }

    /// Remove a vertex: clear its own row only. Removing an id that is not
    /// a current vertex leaves the graph unchanged.
    pub fn remove(&mut self, vertex: u32)
        requires
            old(self).wf(),
        ensures
            final(self).wf(),
            final(self)@ == (if 1 <= vertex as int && (vertex as int) < old(self)@.len() {
                old(self)@.update(vertex as int, None)
            } else {
                old(self)@
            }),
    {
        let ghost s = old(self)@;
        if 1 <= vertex && (vertex as usize) < self.adj.len() {
            self.adj.set(vertex as usize, None);
            proof {
                assert(self@ =~= s.update(vertex as int, None));
                lemma_edges_upto_update(s, vertex as int, None, s.len() as int);
            }
        }
    }
}

/// Linear scan for a target id inside one stored row.
fn row_contains(row: &Vec<u32>, x: u32) -> (b: bool)
    ensures
        b == row@.contains(x),
{
    let mut j: usize = 0;
    let mut b = false;
    while j < row.len()
        invariant
            j <= row.len(),
            b == exists|m: int| 0 <= m < j && row@[m] == x,
        decreases row.len() - j,
    {
        if row[j] == x {
            b = true;
        }
        j = j + 1;
    }
    b
}

impl Clone for DependencyGraph {
    /// An independent copy holding the same residual graph.
    fn clone(&self) -> (r: Self)
        ensures
            r@ == self@,
    {
        let mut adj: Vec<Option<Vec<u32>>> = Vec::new();
        let mut i: usize = 0;
        while i < self.adj.len()
            invariant
                i <= self.adj.len(),
                adj@.len() == i,
                forall|i2: int|
                    0 <= i2 < i ==> opt_view(#[trigger] adj@[i2]) == opt_view(self.adj@[i2]),
            decreases self.adj.len() - i,
        {
            match &self.adj[i] {
                Some(row) => {
                    let mut row2: Vec<u32> = Vec::new();
                    let mut j: usize = 0;
                    while j < row.len()
                        invariant
                            j <= row.len(),
                            row2@.len() == j,
                            forall|m: int| 0 <= m < j ==> row2@[m] == row@[m],
                        decreases row.len() - j,
                    {
                        row2.push(row[j]);
                        j = j + 1;
                    }
                    proof {
                        assert(row2@ =~= row@);
                    }
                    adj.push(Some(row2));
                },
                None => {
                    adj.push(None);
                },
            }
            i = i + 1;
        }
        let r = DependencyGraph { adj };
        proof {
            assert(r@ =~= self@);
        }
        r
    }
}

} // verus!
