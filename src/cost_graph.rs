//! The additive-cost graph that cycle detection runs on, and the spec-level notions of
//! path, cost and negative cycle.

use vstd::prelude::*;

verus! {

/// Largest vertex count accepted: with it every distance that cycle detection computes
/// stays well inside 128 bits.
pub const MAX_VERTICES: usize = 65536;

/// The model of a cost graph on vertices `0..n`: row `u`, column `v` holds the cost of
/// the edge `u -> v`, or `None` where there is no such edge.
pub type CostMatrix = Seq<Seq<Option<i64>>>;

/// Every row has one entry per vertex.
pub open spec fn matrix_wf(m: CostMatrix) -> bool {
    forall|u: int| 0 <= u < m.len() ==> #[trigger] m[u].len() == m.len()
}

/// The edge `u -> v` exists.
pub open spec fn has_edge(m: CostMatrix, u: int, v: int) -> bool {
    0 <= u < m.len() && 0 <= v < m.len() && m[u][v] is Some
}

/// The cost of the edge `u -> v` (meaningful where it exists).
pub open spec fn edge_cost(m: CostMatrix, u: int, v: int) -> int {
    m[u][v].unwrap() as int
}

/// Step `k` of `p` follows an edge.
pub open spec fn step_ok(m: CostMatrix, p: Seq<usize>, k: int) -> bool {
    has_edge(m, p[k] as int, p[k + 1] as int)
}

/// `p` is a walk along edges of the graph.
pub open spec fn is_path(m: CostMatrix, p: Seq<usize>) -> bool {
    forall|k: int| 0 <= k < p.len() - 1 ==> #[trigger] step_ok(m, p, k)
}

/// `v` can be reached from `s` along edges.
pub open spec fn reaches(m: CostMatrix, s: int, v: int) -> bool {
    exists|p: Seq<usize>| p.len() >= 1 && p[0] == s && p[p.len() - 1] == v && #[trigger] is_path(m, p)
}

/// The total cost of the walk `p`.
pub open spec fn path_cost(m: CostMatrix, p: Seq<usize>) -> int
    decreases p.len(),
{
    if p.len() < 2 {
        0
    } else {
        path_cost(m, p.drop_last()) + edge_cost(m, p[p.len() - 2] as int, p[p.len() - 1] as int)
    }
}

/// `p` is a closed walk that visits no vertex twice before coming back to its first one.
pub open spec fn is_simple_cycle(m: CostMatrix, p: Seq<usize>) -> bool {
    &&& p.len() >= 2
    &&& is_path(m, p)
    &&& p[0] == p[p.len() - 1]
    &&& p.drop_last().no_duplicates()
}

/// `p` is a simple cycle whose costs sum to less than zero.
pub open spec fn is_negative_cycle(m: CostMatrix, p: Seq<usize>) -> bool {
    is_simple_cycle(m, p) && path_cost(m, p) < 0
}

/// Some simple cycle of the graph has negative total cost.
pub open spec fn has_negative_cycle(m: CostMatrix) -> bool {
    exists|p: Seq<usize>| is_negative_cycle(m, p)
}

/// The cost of the edge `u -> v` after the edges of `edges` were entered in order, each
/// one replacing an earlier edge with the same endpoints.
pub open spec fn entered_cost(edges: Seq<(usize, usize, i64)>, u: int, v: int) -> Option<i64>
    decreases edges.len(),
{
    if edges.len() == 0 {
        None
    } else if edges.last().0 as int == u && edges.last().1 as int == v {
        Some(edges.last().2)
    } else {
        entered_cost(edges.drop_last(), u, v)
    }
}

/// Every edge of `edges` has both endpoints below `n`.
pub open spec fn endpoints_below(edges: Seq<(usize, usize, i64)>, n: int) -> bool {
    forall|i: int| 0 <= i < edges.len() ==> (#[trigger] edges[i]).0 < n && edges[i].1 < n
}

/// Why a cost graph could not be built.
#[derive(Debug, Clone, Copy, PartialEq, Eq, Structural)]
pub enum GraphError {
    /// More vertices than `MAX_VERTICES`.
    TooManyVertices,
    /// An edge names a vertex that is not in the graph.
    UnknownVertex,
}

/// A directed graph with an integer cost on each edge, over the vertices `0..n`.
pub struct CostGraph {
    costs: Vec<Vec<Option<i64>>>,
}

impl View for CostGraph {
    type V = CostMatrix;

    closed spec fn view(&self) -> CostMatrix {
        Seq::new(self.costs@.len(), |u: int| self.costs@[u]@)
    }
}

impl CostGraph {
    /// The graph is square and small enough for cycle detection.
    pub open spec fn wf(&self) -> bool {
        matrix_wf(self@) && self@.len() <= MAX_VERTICES
    }

    /// Builds the graph on `n` vertices whose edges are `edges`; where two edges share
    /// both endpoints, the later one stands.
    pub fn from_edges(n: usize, edges: &Vec<(usize, usize, i64)>) -> (r: Result<CostGraph, GraphError>)
        ensures
            n > MAX_VERTICES ==> r == Err::<CostGraph, GraphError>(GraphError::TooManyVertices),
            n <= MAX_VERTICES && !endpoints_below(edges@, n as int) ==> r == Err::<CostGraph, GraphError>(
                GraphError::UnknownVertex,
            ),
            n <= MAX_VERTICES && endpoints_below(edges@, n as int) ==> r is Ok,
            r matches Ok(g) ==> {
                &&& g.wf()
                &&& g@.len() == n
                &&& forall|u: int, v: int|
                    0 <= u < n && 0 <= v < n ==> #[trigger] g@[u][v] == entered_cost(edges@, u, v)
            },
    {
        if n > MAX_VERTICES {
            return Err(GraphError::TooManyVertices);
        }
        let mut i: usize = 0;
        while i < edges.len()
            invariant
                i <= edges.len(),
                n <= MAX_VERTICES,
                endpoints_below(edges@.take(i as int), n as int),
            decreases edges.len() - i,
        {
            let (a, b, _) = edges[i];
            if a >= n || b >= n {
                return Err(GraphError::UnknownVertex);
            }
            assert(edges@.take(i as int + 1)[i as int] == edges@[i as int]);
            i += 1;
        }
        assert(edges@.take(edges.len() as int) =~= edges@);
        let mut costs: Vec<Vec<Option<i64>>> = Vec::new();
        let mut u: usize = 0;
        while u < n
            invariant
                u <= n,
                costs.len() == u,
                forall|x: int| 0 <= x < u ==> (#[trigger] costs@[x])@ == Seq::new(n as nat, |y: int| None::<i64>),
            decreases n - u,
        {
            let mut row: Vec<Option<i64>> = Vec::new();
            let mut v: usize = 0;
            while v < n
                invariant
                    v <= n,
                    row@ == Seq::new(v as nat, |y: int| None::<i64>),
                decreases n - v,
            {
                row.push(None);
                v += 1;
                assert(row@ =~= Seq::new(v as nat, |y: int| None::<i64>));
            }
            costs.push(row);
            u += 1;
        }
        let mut k: usize = 0;
        while k < edges.len()
            invariant
                k <= edges.len(),
                n <= MAX_VERTICES,
                endpoints_below(edges@, n as int),
                costs.len() == n,
                forall|x: int| 0 <= x < n ==> (#[trigger] costs@[x])@.len() == n,
                forall|x: int, y: int|
                    0 <= x < n && 0 <= y < n ==> #[trigger] costs@[x]@[y] == entered_cost(
                        edges@.take(k as int),
                        x,
                        y,
                    ),
            decreases edges.len() - k,
        {
            let (a, b, w) = edges[k];
            assert(edges@[k as int].0 < n);
            let mut row = costs[a].clone();
            row.set(b, Some(w));
            costs.set(a, row);
            proof {
                let pre = edges@.take(k as int);
                let post = edges@.take(k as int + 1);
                assert(post.drop_last() =~= pre);
                assert(post.last() == edges@[k as int]);
                assert forall|x: int, y: int| 0 <= x < n && 0 <= y < n implies #[trigger] costs@[x]@[y]
                    == entered_cost(post, x, y) by {
                    assert(entered_cost(post, x, y) == if x == a && y == b {
                        Some(w)
                    } else {
                        entered_cost(pre, x, y)
                    });
                }
            }
            k += 1;
        }
        assert(edges@.take(edges.len() as int) =~= edges@);
        let g = CostGraph { costs };
        assert forall|x: int| 0 <= x < g@.len() implies #[trigger] g@[x].len() == g@.len() by {}
        Ok(g)
    }

    /// The number of vertices.
    pub fn vertex_count(&self) -> (r: usize)
        ensures
            r == self@.len(),
    {
        self.costs.len()
    }

    /// The cost of the edge `u -> v`, if there is one.
    pub fn cost(&self, u: usize, v: usize) -> (r: Option<i64>)
        requires
            self.wf(),
            u < self@.len(),
            v < self@.len(),
        ensures
            r == self@[u as int][v as int],
    {
        assert(self@[u as int].len() == self@.len());
        self.costs[u][v]
    }
}

} // verus!
