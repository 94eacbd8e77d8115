//! The graph substrate: a dense DAG representation with a checked
//! topological order, path costs, and the longest-path engine.

use vstd::prelude::*;

verus! {

use vstd::pervasive::VecAdditionalExecFns;
use crate::types::{VertexId, VertexData, filled};

/// Cost of a path: the summed runtime of its vertices and its number of
/// vertices. Ordered lexicographically, runtime first; among equal runtimes
/// the longer path is the greater cost.
#[derive(Clone, Copy, PartialEq, Eq, Structural, Debug)]
pub struct PathCost {
    pub runtime: u64,
    pub len: u32,
}

/// Lexicographic order on (runtime, length) pairs, stated over `int` so it
/// can compare sums that have not been truncated to machine words.
pub open spec fn lex_le(r1: int, l1: int, r2: int, l2: int) -> bool {
    r1 < r2 || (r1 == r2 && l1 <= l2)
}

impl PathCost {
    /// The zero cost `(0, 0)`, the cost of an empty path.
    pub fn zero() -> (r: PathCost)
        ensures
            r.runtime == 0 && r.len == 0,
    {
        PathCost { runtime: 0, len: 0 }
    }

    pub open spec fn spec_le(self, other: PathCost) -> bool {
        lex_le(self.runtime as int, self.len as int, other.runtime as int, other.len as int)
    }

    pub open spec fn spec_lt(self, other: PathCost) -> bool {
        self.spec_le(other) && self != other
    }

    /// Strict lexicographic comparison.
    pub fn lt(self, other: PathCost) -> (r: bool)
        ensures
            r == self.spec_lt(other),
    {
        self.runtime < other.runtime || (self.runtime == other.runtime && self.len < other.len)
    }
}

/// Every edge target of the adjacency structure is a valid vertex id.
pub open spec fn wf_adj(adj: Seq<Seq<VertexId>>) -> bool {
    forall|u: int, j: int|
        0 <= u < adj.len() && 0 <= j < adj[u].len() ==> (#[trigger] adj[u][j]).0 < adj.len()
}

/// There is an edge from `u` to `v`.
pub open spec fn has_edge(adj: Seq<Seq<VertexId>>, u: int, v: int) -> bool {
    0 <= u < adj.len() && exists|j: int| 0 <= j < adj[u].len() && (#[trigger] adj[u][j]).0 == v
}

/// `p` is a non-empty walk in the graph: its vertices are in range and each
/// consecutive pair is an edge.
pub open spec fn is_path(adj: Seq<Seq<VertexId>>, p: Seq<VertexId>) -> bool {
    &&& p.len() > 0
    &&& forall|k: int| 0 <= k < p.len() ==> (#[trigger] p[k]).0 < adj.len()
    &&& forall|k: int| 0 <= k < p.len() - 1 ==> has_edge(adj, (#[trigger] p[k]).0 as int, p[k + 1].0 as int)
}

/// The summed runtime of the vertices of `p`.
pub open spec fn path_runtime(w: Seq<u64>, p: Seq<VertexId>) -> int
    decreases p.len(),
{
    if p.len() == 0 {
        0
    } else {
        w[p[0].0 as int] + path_runtime(w, p.drop_first())
    }
}

/// `radj` has the same vertices as `adj` and exactly the reversed edges.
pub open spec fn edges_reversed(adj: Seq<Seq<VertexId>>, radj: Seq<Seq<VertexId>>) -> bool {
    &&& radj.len() == adj.len()
    &&& forall|u: int, v: int| has_edge(radj, u, v) <==> has_edge(adj, v, u)
}

/// Some position of `order` holds vertex `v`.
pub open spec fn order_contains(order: Seq<VertexId>, v: int) -> bool {
    exists|k: int| 0 <= k < order.len() && (#[trigger] order[k]).0 == v
}

/// `order` is a topological order of the graph: a duplicate-free enumeration
/// of all vertices in which no edge runs from a later vertex to an earlier one.
pub open spec fn is_topo_order(adj: Seq<Seq<VertexId>>, order: Seq<VertexId>) -> bool {
    &&& order.len() == adj.len()
    &&& forall|k: int| 0 <= k < order.len() ==> (#[trigger] order[k]).0 < adj.len()
    &&& forall|v: int| 0 <= v < adj.len() ==> #[trigger] order_contains(order, v)
    &&& forall|k1: int, k2: int|
        0 <= k1 < k2 < order.len() ==> (#[trigger] order[k1]) != (#[trigger] order[k2])
    &&& forall|k1: int, k2: int|
        0 <= k1 <= k2 < order.len() ==> !has_edge(adj, (#[trigger] order[k2]).0 as int, (#[trigger] order[k1]).0 as int)
}

/// `order` is a valid processing order for the longest-path engine: it
/// enumerates every vertex exactly once and every successor of a vertex is
/// processed before that vertex.
pub open spec fn valid_dp_order(adj: Seq<Seq<VertexId>>, order: Seq<VertexId>) -> bool {
    &&& order.len() == adj.len()
    &&& forall|k: int| 0 <= k < order.len() ==> (#[trigger] order[k]).0 < adj.len()
    &&& forall|v: int| 0 <= v < adj.len() ==> #[trigger] order_contains(order, v)
    &&& forall|k1: int, k2: int|
        0 <= k1 < k2 < order.len() ==> (#[trigger] order[k1]) != (#[trigger] order[k2])
    &&& forall|k1: int, k2: int|
        0 <= k1 <= k2 < order.len() ==> !has_edge(adj, (#[trigger] order[k1]).0 as int, (#[trigger] order[k2]).0 as int)
}

/// Per-vertex recurrence of the longest-path engine: `cost[v]` is
/// `(w[v], 1)` plus the lexicographic maximum of `cost` over the successors
/// of `v`, or `(w[v], 1)` itself when `v` has none.
pub open spec fn dp_cost_at(adj: Seq<Seq<VertexId>>, w: Seq<u64>, cost: Seq<PathCost>, v: int) -> bool {
    &&& forall|j: int|
        0 <= j < adj[v].len() ==> lex_le(
            w[v] + cost[(#[trigger] adj[v][j]).0 as int].runtime,
            1 + cost[adj[v][j].0 as int].len,
            cost[v].runtime as int,
            cost[v].len as int,
        )
    &&& (adj[v].len() == 0 ==> cost[v].runtime == w[v] && cost[v].len == 1)
    &&& (adj[v].len() > 0 ==> exists|j: int|
        0 <= j < adj[v].len()
        && cost[v].runtime == w[v] + cost[(#[trigger] adj[v][j]).0 as int].runtime
        && cost[v].len == 1 + cost[adj[v][j].0 as int].len)
}

/// The whole cost array satisfies the longest-path recurrence.
pub open spec fn dp_costs_ok(adj: Seq<Seq<VertexId>>, w: Seq<u64>, cost: Seq<PathCost>) -> bool {
    &&& cost.len() == adj.len()
    &&& w.len() == adj.len()
    &&& forall|v: int| 0 <= v < adj.len() ==> dp_cost_at(adj, w, cost, v)
}

/// The parent array records, for each vertex, the successor chosen as the
/// continuation of its longest outgoing path, or `None` for a vertex with no
/// outgoing edge.
pub open spec fn dp_parents_ok(
    adj: Seq<Seq<VertexId>>,
    w: Seq<u64>,
    cost: Seq<PathCost>,
    parent: Seq<Option<VertexId>>,
) -> bool {
    &&& parent.len() == adj.len()
    &&& forall|v: int| 0 <= v < adj.len() ==> match #[trigger] parent[v] {
        Option::None => adj[v].len() == 0,
        Option::Some(u) => {
            &&& u.0 < adj.len()
            &&& has_edge(adj, v, u.0 as int)
            &&& cost[v].runtime == w[v] + cost[u.0 as int].runtime
            &&& cost[v].len == 1 + cost[u.0 as int].len
        },
    }
}

/// Bound under which the arithmetic of the algorithm cannot overflow: with
/// every runtime below 2^32 and at most 2^31 - 1 vertices, any simple-path
/// cost sum stays well inside `u64`.
pub open spec fn dp_in_bounds(adj: Seq<Seq<VertexId>>, cost: Seq<PathCost>) -> bool {
    forall|v: int|
        0 <= v < adj.len() ==> (#[trigger] cost[v]).runtime <= adj.len() * 0x1_0000_0000
            && cost[v].len <= adj.len()
}

/// The adjacency lists of a vector of rows, as a sequence of sequences.
pub open spec fn views(adj: Seq<Vec<VertexId>>) -> Seq<Seq<VertexId>> {
    Seq::new(adj.len(), |i: int| adj[i]@)
}

/// Edge targets of the first `u` rows are in range.
spec fn adj_prefix_ok(adj: Seq<Vec<VertexId>>, u: int) -> bool {
    forall|u2: int, j: int|
        0 <= u2 < u && 0 <= j < adj[u2]@.len() ==> (#[trigger] adj[u2]@[j]).0 < adj.len()
}

/// An immutable DAG over dense vertex ids. Holds its adjacency lists
/// together with a topological order and that order's inverse, both checked
/// at construction, so acyclicity is carried as a certificate.
pub struct Graph {
    adj: Vec<Vec<VertexId>>,
    order: Vec<VertexId>,
    pos: Vec<usize>,
}

impl View for Graph {
    type V = Seq<Seq<VertexId>>;

    closed spec fn view(&self) -> Seq<Seq<VertexId>> {
        Seq::new(self.adj@.len(), |i: int| self.adj@[i]@)
    }
}

impl Graph {
    /// The graph's internal consistency: edge targets in range, and a stored
    /// topological order with its inverse, every edge going from an earlier
    /// position to a later one.
    pub closed spec fn wf(&self) -> bool {
        &&& wf_adj(self@)
        &&& self.order@.len() == self@.len()
        &&& self.pos@.len() == self@.len()
        &&& forall|v: int|
            0 <= v < self@.len() ==> #[trigger] self.pos@[v] < self@.len()
                && self.order@[self.pos@[v] as int].0 == v
        &&& forall|k: int|
            0 <= k < self@.len() ==> (#[trigger] self.order@[k]).0 < self@.len()
                && self.pos@[self.order@[k].0 as int] == k
        &&& forall|u: int, j: int|
            0 <= u < self@.len() && 0 <= j < self@[u].len() ==> self.pos@[u] < self.pos@[(
            #[trigger] self@[u][j]).0 as int]
    }

    /// Number of vertices.
    pub fn vertex_count(&self) -> (r: usize)
        ensures
            r == self@.len(),
    {
        self.adj.len()
    }

    /// The vertices of the graph, in id order.
    pub fn iter_vertices(&self) -> (r: Vec<VertexId>)
        ensures
            r@.len() == self@.len(),
            forall|i: int| 0 <= i < r@.len() ==> (#[trigger] r@[i]).0 == i,
    {
        let n = self.adj.len();
        let mut r: Vec<VertexId> = Vec::new();
        for v in 0..n
            invariant
                r@.len() == v,
                forall|i: int| 0 <= i < v ==> (#[trigger] r@[i]).0 == i,
        {
            r.push(VertexId(v));
        }
        r
    }

    /// The successors of `v`, in the deterministic order they were given at
    /// construction.
    pub fn iter_edges(&self, v: VertexId) -> (r: &Vec<VertexId>)
        requires
            v.0 < self@.len(),
        ensures
            r@ == self@[v.0 as int],
    {
        &self.adj[v.0]
    }

    /// A well-formed graph has all edge targets in range.
    pub proof fn lemma_wf_adj(&self)
        requires
            self.wf(),
        ensures
            wf_adj(self@),
    {
    }

    /// Builds a graph from adjacency lists. Returns `None` when an edge
    /// target is out of range or when the construction finds no topological
    /// order (the input has a cycle). The order it finds is checked
    /// explicitly, so a returned graph always carries a valid acyclicity
    /// certificate. The empty graph is always accepted; acceptance of every
    /// acyclic input is by construction, not stated here, as it would need a
    /// verified completeness proof of the order search.
    pub fn new(adj: Vec<Vec<VertexId>>) -> (r: Option<Graph>)
        ensures
            match r {
                Option::Some(g) => g.wf() && g@ == views(adj@) && (exists|ord: Seq<VertexId>|
                    is_topo_order(g@, ord)),
                Option::None => true,
            },
            adj@.len() == 0 ==> r is Some,
    {
        let n = adj.len();
        // Every edge target must be a vertex.
        for u in 0..n
            invariant
                n == adj@.len(),
                adj_prefix_ok(adj@, u as int),
        {
            let row = &adj[u];
            for j in 0..row.len()
                invariant
                    n == adj@.len(),
                    row@ == adj@[u as int]@,
                    u < n,
                    adj_prefix_ok(adj@, u as int),
                    forall|j2: int| 0 <= j2 < j ==> (#[trigger] row@[j2]).0 < n,
            {
                if row[j].0 >= n {
                    return Option::None;
                }
            }
        }
        // In-degrees for a Kahn-style order. The counter guards cannot fire
        // on consistent input; they keep the arithmetic total.
        let mut indeg: Vec<usize> = filled(n, 0);
        for u in 0..n
            invariant
                n == adj@.len(),
                adj_prefix_ok(adj@, n as int),
                indeg@.len() == n,
        {
            let row = &adj[u];
            for j in 0..row.len()
                invariant
                    n == adj@.len(),
                    row@ == adj@[u as int]@,
                    u < n,
                    adj_prefix_ok(adj@, n as int),
                    indeg@.len() == n,
            {
                let t = row[j].0;
                let c = indeg[t];
                if c == usize::MAX {
                    return Option::None;
                }
                indeg.set(t, c + 1);
            }
        }
        let mut ready: Vec<VertexId> = Vec::new();
        for v in 0..n
            invariant
                indeg@.len() == n,
                forall|k: int| 0 <= k < ready@.len() ==> (#[trigger] ready@[k]).0 < n,
                n == 0 ==> ready@.len() == 0,
        {
            if indeg[v] == 0 {
                ready.push(VertexId(v));
            }
        }
        let mut order: Vec<VertexId> = Vec::new();
        while ready.len() > 0 && order.len() < n
            invariant
                n == adj@.len(),
                adj_prefix_ok(adj@, n as int),
                indeg@.len() == n,
                forall|k: int| 0 <= k < ready@.len() ==> (#[trigger] ready@[k]).0 < n,
                forall|k: int| 0 <= k < order@.len() ==> (#[trigger] order@[k]).0 < n,
                n == 0 ==> order@.len() == 0,
            decreases n - order@.len(),
        {
            let v = ready.pop().unwrap();
            order.push(v);
            let row = &adj[v.0];
            for j in 0..row.len()
                invariant
                    n == adj@.len(),
                    row@ == adj@[v.0 as int]@,
                    v.0 < n,
                    adj_prefix_ok(adj@, n as int),
                    indeg@.len() == n,
                    forall|k: int| 0 <= k < ready@.len() ==> (#[trigger] ready@[k]).0 < n,
                    forall|k: int| 0 <= k < order@.len() ==> (#[trigger] order@[k]).0 < n,
            {
                let t = row[j].0;
                let c = indeg[t];
                if c == 0 {
                    return Option::None;
                }
                indeg.set(t, c - 1);
                if c == 1 {
                    ready.push(VertexId(t));
                }
            }
        }
        if order.len() != n {
            return Option::None;
        }
        // Check the order: every vertex exactly once.
        let mut pos: Vec<usize> = filled(n, 0);
        let mut seen: Vec<bool> = filled(n, false);
        for k in 0..n
            invariant
                n == adj@.len(),
                order@.len() == n,
                pos@.len() == n,
                seen@.len() == n,
                forall|k2: int| 0 <= k2 < order@.len() ==> (#[trigger] order@[k2]).0 < n,
                forall|k2: int| 0 <= k2 < k ==> seen@[(#[trigger] order@[k2]).0 as int],
                forall|k2: int| 0 <= k2 < k ==> pos@[(#[trigger] order@[k2]).0 as int] == k2,
                forall|v: int|
                    0 <= v < n && seen@[v] ==> #[trigger] pos@[v] < k && order@[pos@[v] as int].0 == v,
        {
            let v = order[k];
            if seen[v.0] {
                return Option::None;
            }
            seen.set(v.0, true);
            pos.set(v.0, k);
        }
        // Check the order: every vertex appears.
        for v in 0..n
            invariant
                n == adj@.len(),
                seen@.len() == n,
                forall|v2: int|
                    0 <= v2 < n && seen@[v2] ==> #[trigger] pos@[v2] < n && order@[pos@[v2] as int].0
                        == v2,
                forall|v2: int| 0 <= v2 < v ==> seen@[v2],
        {
            if !seen[v] {
                return Option::None;
            }
        }
        // Check the order: every edge runs from an earlier position to a
        // later one.
        for u in 0..n
            invariant
                n == adj@.len(),
                pos@.len() == n,
                adj_prefix_ok(adj@, n as int),
                forall|u2: int, j: int|
                    0 <= u2 < u && 0 <= j < adj@[u2]@.len() ==> pos@[u2] < pos@[(
                    #[trigger] adj@[u2]@[j]).0 as int],
        {
            let row = &adj[u];
            let pu = pos[u];
            for j in 0..row.len()
                invariant
                    n == adj@.len(),
                    pos@.len() == n,
                    row@ == adj@[u as int]@,
                    u < n,
                    pu == pos@[u as int],
                    adj_prefix_ok(adj@, n as int),
                    forall|u2: int, j2: int|
                        0 <= u2 < u && 0 <= j2 < adj@[u2]@.len() ==> pos@[u2] < pos@[(
                        #[trigger] adj@[u2]@[j2]).0 as int],
                    forall|j2: int|
                        0 <= j2 < j ==> pos@[u as int] < pos@[(#[trigger] row@[j2]).0 as int],
            {
                if pu >= pos[row[j].0] {
                    return Option::None;
                }
            }
        }
        let g = Graph { adj, order, pos };
        proof {
            assert forall|i: int| 0 <= i < g@.len() implies g@[i] == g.adj@[i]@ by {}
            assert(g@ =~= views(adj@));
            g.lemma_order_is_topo();
            assert(is_topo_order(g@, g.order@));
            assert(exists|ord: Seq<VertexId>| is_topo_order(g@, ord));
        }
        Option::Some(g)
    }

    /// A topological order of the vertices: for every edge `(u, v)`, `u`
    /// appears before `v`.
    pub fn topo_sort(&self) -> (r: Vec<VertexId>)
        requires
            self.wf(),
        ensures
            is_topo_order(self@, r@),
    {
        let n = self.order.len();
        let mut r: Vec<VertexId> = Vec::new();
        for k in 0..n
            invariant
                n == self.order@.len(),
                r@.len() == k,
                forall|k2: int| 0 <= k2 < k ==> r@[k2] == self.order@[k2],
                self.wf(),
        {
            r.push(self.order[k]);
        }
        proof {
            assert(r@ =~= self.order@);
            self.lemma_order_is_topo();
        }
        r
    }

    /// The stored order is a topological order.
    proof fn lemma_order_is_topo(&self)
        requires
            self.wf(),
        ensures
            is_topo_order(self@, self.order@),
    {
        let adj = self@;
        let order = self.order@;
        assert forall|v: int| 0 <= v < adj.len() implies #[trigger] order_contains(order, v) by {
            assert(order[self.pos@[v] as int].0 == v);
        }
        assert forall|k1: int, k2: int| 0 <= k1 < k2 < order.len() implies (#[trigger] order[k1])
            != (#[trigger] order[k2]) by {
            if order[k1] == order[k2] {
                assert(self.pos@[order[k1].0 as int] == k1);
                assert(self.pos@[order[k2].0 as int] == k2);
            }
        }
        assert forall|k1: int, k2: int| 0 <= k1 <= k2 < order.len() implies !has_edge(
            adj,
            (#[trigger] order[k2]).0 as int,
            (#[trigger] order[k1]).0 as int,
        ) by {
            if has_edge(adj, order[k2].0 as int, order[k1].0 as int) {
                let j = choose|j: int|
                    0 <= j < adj[order[k2].0 as int].len() && (#[trigger] adj[order[k2].0 as int][j]).0
                        == order[k1].0;
                assert(self.pos@[order[k2].0 as int] < self.pos@[order[k1].0 as int]);
                assert(self.pos@[order[k2].0 as int] == k2);
                assert(self.pos@[order[k1].0 as int] == k1);
            }
        }
    }

    /// The graph with the same vertices and every edge reversed. Shares no
    /// mutable state with `self`.
    pub fn reversed(&self) -> (r: Graph)
        requires
            self.wf(),
        ensures
            r.wf(),
            r@.len() == self@.len(),
            edges_reversed(self@, r@),
    {
        let n = self.adj.len();
        let mut radj: Vec<Vec<VertexId>> = Vec::new();
        while radj.len() < n
            invariant
                radj@.len() <= n,
                forall|i: int| 0 <= i < radj@.len() ==> (#[trigger] radj@[i])@.len() == 0,
            decreases n - radj@.len(),
        {
            radj.push(Vec::new());
        }
        for u in 0..n
            invariant
                self.wf(),
                n == self@.len(),
                radj@.len() == n,
                forall|a: int, b: int|
                    has_edge(views(radj@), a, b) <==> (0 <= b < n && exists|j: int|
                        0 <= j < self@[b].len() && (b < u || (b == u && j < 0)) && (
                        #[trigger] self@[b][j]).0 == a),
        {
            let row = &self.adj[u];
            for j in 0..row.len()
                invariant
                    self.wf(),
                    n == self@.len(),
                    radj@.len() == n,
                    u < n,
                    row@ == self@[u as int],
                    forall|a: int, b: int|
                        has_edge(views(radj@), a, b) <==> (0 <= b < n && exists|j2: int|
                            0 <= j2 < self@[b].len() && (b < u || (b == u && j2 < j)) && (
                            #[trigger] self@[b][j2]).0 == a),
            {
                let t = row[j].0;
                proof {
                    assert(self@[u as int][j as int].0 < n);
                }
                let ghost before = views(radj@);
                let ghost brow = radj@[t as int]@;
                radj[t].push(VertexId(u));
                proof {
                    let after = views(radj@);
                    assert(after.len() == n);
                    assert(after[t as int] == brow.push(VertexId(u)));
                    assert(brow == before[t as int]);
                    assert forall|b: int| 0 <= b < n && b != t implies after[b] == before[b] by {}
                    assert forall|a: int, b: int| has_edge(after, a, b) implies (0 <= b < n
                        && exists|j2: int|
                        0 <= j2 < self@[b].len() && (b < u || (b == u && j2 < j + 1)) && (
                        #[trigger] self@[b][j2]).0 == a) by {
                        let j3 = choose|j3: int|
                            0 <= j3 < after[a].len() && (#[trigger] after[a][j3]).0 == b;
                        if a == t as int && j3 == brow.len() {
                            assert(b == u as int);
                            assert((self@[u as int][j as int]).0 == a);
                        } else {
                            assert(after[a][j3] == before[a][j3]);
                            assert(has_edge(before, a, b));
                        }
                    }
                    assert forall|a: int, b: int| (0 <= b < n && exists|j2: int|
                        0 <= j2 < self@[b].len() && (b < u || (b == u && j2 < j + 1)) && (
                        #[trigger] self@[b][j2]).0 == a) implies has_edge(after, a, b) by {
                        let j2 = choose|j2: int|
                            0 <= j2 < self@[b].len() && (b < u || (b == u && j2 < j + 1)) && (
                            #[trigger] self@[b][j2]).0 == a;
                        if b == u as int && j2 == j {
                            assert(a == t as int);
                            assert(after[a][brow.len() as int].0 == b);
                        } else {
                            assert(has_edge(before, a, b));
                            let j4 = choose|j4: int|
                                0 <= j4 < before[a].len() && (#[trigger] before[a][j4]).0 == b;
                            assert(after[a][j4].0 == b);
                        }
                    }
                }
            }
        }
        // The reverse of the stored order, and its inverse.
        let mut rorder: Vec<VertexId> = Vec::new();
        let mut k = n;
        while k > 0
            invariant
                n == self@.len(),
                self.wf(),
                k <= n,
                rorder@.len() == n - k,
                forall|i: int| 0 <= i < rorder@.len() ==> rorder@[i] == self.order@[n - 1 - i],
            decreases k,
        {
            k -= 1;
            rorder.push(self.order[k]);
        }
        let mut rpos: Vec<usize> = Vec::new();
        for v in 0..n
            invariant
                n == self@.len(),
                self.wf(),
                rpos@.len() == v,
                forall|i: int| 0 <= i < v ==> rpos@[i] == n - 1 - self.pos@[i],
        {
            rpos.push(n - 1 - self.pos[v]);
        }
        proof {
            assert forall|a: int, b: int| has_edge(views(radj@), a, b) <==> has_edge(
                self@,
                b,
                a,
            ) by {
                if has_edge(self@, b, a) {
                    let j2 = choose|j2: int|
                        0 <= j2 < self@[b].len() && (#[trigger] self@[b][j2]).0 == a;
                    assert(0 <= j2 < self@[b].len() && (b < n || (b == n && j2 < 0)) && (self@[b][
                    j2]).0 == a);
                }
            }
        }
        let r = Graph { adj: radj, order: rorder, pos: rpos };
        proof {
            assert(r@ == views(radj@));
            self.lemma_reversed_wf(&r);
        }
        r
    }

    /// The structure assembled by `reversed` is well formed and carries the
    /// reversed edge relation.
    proof fn lemma_reversed_wf(&self, r: &Graph)
        requires
            self.wf(),
            r@.len() == self@.len(),
            r.order@.len() == self@.len(),
            r.pos@.len() == self@.len(),
            forall|a: int, b: int| has_edge(r@, a, b) <==> has_edge(self@, b, a),
            forall|i: int|
                0 <= i < self@.len() ==> r.order@[i] == self.order@[self@.len() - 1 - i],
            forall|v: int| 0 <= v < self@.len() ==> r.pos@[v] == self@.len() - 1 - self.pos@[v],
        ensures
            r.wf(),
            edges_reversed(self@, r@),
    {
        let n = self@.len();
        assert forall|u: int, j: int| 0 <= u < n && 0 <= j < r@[u].len() implies (
        #[trigger] r@[u][j]).0 < n && r.pos@[u] < r.pos@[r@[u][j].0 as int] by {
            let v = r@[u][j].0 as int;
            assert(has_edge(r@, u, v));
            assert(has_edge(self@, v, u));
            let j2 = choose|j2: int|
                0 <= j2 < self@[v].len() && (#[trigger] self@[v][j2]).0 == u;
            assert(self.pos@[v] < self.pos@[u]);
        }
        assert forall|v: int| 0 <= v < n implies #[trigger] r.pos@[v] < n
            && r.order@[r.pos@[v] as int].0 == v by {
            assert(self.order@[self.pos@[v] as int].0 == v);
            assert(r.order@[r.pos@[v] as int] == self.order@[n - 1 - (n - 1 - self.pos@[v])]);
        }
        assert forall|k: int| 0 <= k < n implies (#[trigger] r.order@[k]).0 < n
            && r.pos@[r.order@[k].0 as int] == k by {
            assert(r.order@[k] == self.order@[n - 1 - k]);
            assert(self.pos@[self.order@[n - 1 - k].0 as int] == n - 1 - k);
        }
    }

    /// A dense side array of length `V`, every entry holding `fill`.
    pub fn allocate_vertex_data<T: Copy>(&self, fill: T) -> (r: VertexData<T>)
        ensures
            r@.len() == self@.len(),
            forall|i: int| 0 <= i < self@.len() ==> r@[i] == fill,
    {
        VertexData::new(filled(self.adj.len(), fill))
    }

    /// The longest-path engine. Visiting vertices in `order` (which must
    /// process every successor of a vertex before the vertex itself), sets
    /// `cost[v]` to `(weights[v], 1)` plus the maximum cost over the
    /// successors of `v`, and records in `parent[v]` the successor that
    /// achieved that maximum, or `None` for a vertex without successors.
    pub fn find_longest_paths(&self, order: &Vec<VertexId>, weights: &VertexData<u64>) -> (r: (
        VertexData<PathCost>,
        VertexData<Option<VertexId>>,
    ))
        requires
            wf_adj(self@),
            valid_dp_order(self@, order@),
            weights@.len() == self@.len(),
            self@.len() <= 0x7FFF_FFFF,
            forall|i: int| 0 <= i < weights@.len() ==> weights@[i] <= 0xFFFF_FFFF,
        ensures
            r.0@.len() == self@.len(),
            r.1@.len() == self@.len(),
            dp_costs_ok(self@, weights@, r.0@),
            dp_parents_ok(self@, weights@, r.0@, r.1@),
            dp_in_bounds(self@, r.0@),
    {
        let n = self.adj.len();
        let mut cost: Vec<PathCost> = filled(n, PathCost { runtime: 0, len: 0 });
        let mut parent: Vec<Option<VertexId>> = filled(n, Option::None);
        let ghost adj = self@;
        let ghost w = weights@;
        for k in 0..n
            invariant
                n == adj.len(),
                adj == self@,
                w == weights@,
                wf_adj(adj),
                valid_dp_order(adj, order@),
                w.len() == n,
                forall|i: int| 0 <= i < n ==> w[i] <= 0xFFFF_FFFF,
                n <= 0x7FFF_FFFF,
                cost@.len() == n,
                parent@.len() == n,
                forall|k2: int|
                    0 <= k2 < k ==> dp_cost_at(adj, w, cost@, (#[trigger] order@[k2]).0 as int),
                forall|k2: int|
                    0 <= k2 < k ==> (#[trigger] cost@[order@[k2].0 as int]).runtime <= (k2 + 1)
                        * 0x1_0000_0000 && cost@[order@[k2].0 as int].len <= k2 + 1,
                forall|k2: int|
                    0 <= k2 < k ==> match #[trigger] parent@[order@[k2].0 as int] {
                        Option::None => adj[order@[k2].0 as int].len() == 0,
                        Option::Some(u) => {
                            &&& u.0 < n
                            &&& has_edge(adj, order@[k2].0 as int, u.0 as int)
                            &&& cost@[order@[k2].0 as int].runtime == w[order@[k2].0 as int] + cost@[u.0 as int].runtime
                            &&& cost@[order@[k2].0 as int].len == 1 + cost@[u.0 as int].len
                        },
                    },
        {
            let v = order[k];
            let row = &self.adj[v.0];
            let mut best: PathCost = PathCost { runtime: 0, len: 0 };
            let mut best_u: Option<VertexId> = Option::None;
            let ghost cost_before = cost@;
            for j in 0..row.len()
                invariant
                    n == adj.len(),
                    adj == self@,
                    wf_adj(adj),
                    v.0 < n,
                    row@ == adj[v.0 as int],
                    cost@.len() == n,
                    cost@ == cost_before,
                    match best_u {
                        Option::None => j == 0 && best == (PathCost { runtime: 0, len: 0 }),
                        Option::Some(u) => exists|j2: int|
                            0 <= j2 < j && (#[trigger] row@[j2]) == u && best == cost@[u.0 as int],
                    },
                    forall|j2: int|
                        0 <= j2 < j ==> lex_le(
                            (#[trigger] cost@[row@[j2].0 as int]).runtime as int,
                            cost@[row@[j2].0 as int].len as int,
                            best.runtime as int,
                            best.len as int,
                        ),
            {
                let u = row[j];
                let c = cost[u.0];
                if best_u.is_none() || best.lt(c) {
                    best = c;
                    best_u = Option::Some(u);
                }
            }
            // Every successor of `v` was processed in an earlier step, and is
            // a different vertex than `v`; so was every successor of an
            // already processed vertex, which keeps the established
            // recurrences intact when `cost[v]` is written below.
            proof {
                assert forall|j: int| 0 <= j < adj[v.0 as int].len() implies exists|k3: int|
                    0 <= k3 < k && (#[trigger] order@[k3]).0 == (#[trigger] adj[v.0 as int][j]).0 by {
                    let t = adj[v.0 as int][j].0 as int;
                    assert(has_edge(adj, v.0 as int, t));
                    assert(order_contains(order@, t));
                    let k3 = choose|k3: int|
                        0 <= k3 < order@.len() && (#[trigger] order@[k3]).0 == t;
                    if k3 >= k {
                        assert(!has_edge(adj, order@[k as int].0 as int, order@[k3].0 as int));
                        assert(false);
                    }
                }
            }
            let newcost: PathCost;
            let newparent: Option<VertexId>;
            match best_u {
                Option::None => {
                    newcost = PathCost { runtime: weights.get(v), len: 1 };
                    newparent = Option::None;
                },
                Option::Some(u) => {
                    proof {
                        let j2 = choose|j2: int|
                            0 <= j2 < row@.len() && (#[trigger] row@[j2]) == u && best == cost@[u.0 as int];
                        let k3 = choose|k3: int|
                            0 <= k3 < k && (#[trigger] order@[k3]).0 == adj[v.0 as int][j2].0;
                        assert(best.runtime <= (k3 + 1) * 0x1_0000_0000);
                        assert((k3 + 1) * 0x1_0000_0000 <= 0x7FFF_FFFF * 0x1_0000_0000);
                        assert(best.len <= k3 + 1);
                    }
                    newcost = PathCost {
                        runtime: weights.get(v) + best.runtime,
                        len: 1 + best.len,
                    };
                    newparent = Option::Some(u);
                },
            }
            cost.set(v.0, newcost);
            parent.set(v.0, newparent);
            proof {
                assert forall|k2: int| 0 <= k2 <= k implies order@[k2].0 != v.0 || k2 == k by {
                    if k2 < k && order@[k2].0 == v.0 {
                        assert(order@[k2] != order@[k as int]);
                    }
                }
                assert forall|k2: int| 0 <= k2 < k implies cost@[(
                #[trigger] order@[k2]).0 as int] == cost_before[order@[k2].0 as int] && dp_cost_at(
                    adj,
                    w,
                    cost@,
                    order@[k2].0 as int,
                ) by {
                    let x = order@[k2].0 as int;
                    assert(order@[k2] != order@[k as int]);
                    assert forall|j2: int| 0 <= j2 < adj[x].len() implies cost@[(
                    #[trigger] adj[x][j2]).0 as int] == cost_before[adj[x][j2].0 as int] by {
                        let t = adj[x][j2].0 as int;
                        assert(has_edge(adj, x, t));
                        assert(order_contains(order@, t));
                        let k3 = choose|k3: int|
                            0 <= k3 < order@.len() && (#[trigger] order@[k3]).0 == t;
                        if k3 >= k2 {
                            assert(!has_edge(adj, order@[k2].0 as int, order@[k3].0 as int));
                            assert(false);
                        }
                        assert(order@[k3] != order@[k as int]);
                    }
                }
                // The recurrence holds for `v` itself.
                let x = v.0 as int;
                assert forall|j2: int| 0 <= j2 < adj[x].len() implies cost@[(
                #[trigger] adj[x][j2]).0 as int] == cost_before[adj[x][j2].0 as int] by {
                    let k3 = choose|k3: int|
                        0 <= k3 < k && (#[trigger] order@[k3]).0 == adj[x][j2].0;
                    assert(order@[k3] != order@[k as int]);
                }
                if adj[x].len() > 0 {
                    let j2 = choose|j2: int|
                        0 <= j2 < row@.len() && (#[trigger] row@[j2]) == best_u.unwrap() && best
                            == cost_before[best_u.unwrap().0 as int];
                    assert(cost@[x].runtime == w[x] + cost@[adj[x][j2].0 as int].runtime
                        && cost@[x].len == 1 + cost@[adj[x][j2].0 as int].len);
                }
                assert(dp_cost_at(adj, w, cost@, x));
            }
        }
        proof {
            assert forall|v: int| 0 <= v < n implies dp_cost_at(adj, w, cost@, v) && (
            #[trigger] cost@[v]).runtime <= n * 0x1_0000_0000 && cost@[v].len <= n by {
                assert(order_contains(order@, v));
                let k2 = choose|k2: int| 0 <= k2 < order@.len() && (#[trigger] order@[k2]).0 == v;
                assert(cost@[v].runtime <= (k2 + 1) * 0x1_0000_0000);
                assert((k2 + 1) * 0x1_0000_0000 <= n * 0x1_0000_0000);
            }
            assert forall|v: int| 0 <= v < n implies match #[trigger] parent@[v] {
                Option::None => adj[v].len() == 0,
                Option::Some(u) => {
                    &&& u.0 < n
                    &&& has_edge(adj, v, u.0 as int)
                    &&& cost@[v].runtime == w[v] + cost@[u.0 as int].runtime
                    &&& cost@[v].len == 1 + cost@[u.0 as int].len
                },
            } by {
                assert(order_contains(order@, v));
                let k2 = choose|k2: int| 0 <= k2 < order@.len() && (#[trigger] order@[k2]).0 == v;
                assert(0 <= k2 < n && order@[k2].0 == v);
            }
            assert(dp_costs_ok(adj, w, cost@));
            assert(dp_parents_ok(adj, w, cost@, parent@));
            assert(dp_in_bounds(adj, cost@));
        }
        (VertexData::new(cost), VertexData::new(parent))
    }

    /// Along any path of a well-formed graph the positions in the stored
    /// topological order strictly increase.
    proof fn lemma_path_pos_mono(&self, p: Seq<VertexId>, k1: int, k2: int)
        requires
            self.wf(),
            is_path(self@, p),
            0 <= k1 < k2 < p.len(),
        ensures
            self.pos@[p[k1].0 as int] < self.pos@[p[k2].0 as int],
        decreases k2 - k1,
    {
        if k2 == k1 + 1 {
            assert(has_edge(self@, p[k1].0 as int, p[k2].0 as int));
            let j = choose|j: int|
                0 <= j < self@[p[k1].0 as int].len() && (#[trigger] self@[p[k1].0 as int][j]).0
                    == p[k2].0;
        } else {
            self.lemma_path_pos_mono(p, k1, k2 - 1);
            self.lemma_path_pos_mono(p, k2 - 1, k2);
        }
    }

    /// A path in a DAG is simple: it repeats no vertex.
    pub proof fn lemma_path_no_dup(&self, p: Seq<VertexId>)
        requires
            self.wf(),
            is_path(self@, p),
        ensures
            forall|k1: int, k2: int| 0 <= k1 < k2 < p.len() ==> p[k1] != p[k2],
    {
        assert forall|k1: int, k2: int| 0 <= k1 < k2 < p.len() implies p[k1] != p[k2] by {
            self.lemma_path_pos_mono(p, k1, k2);
        }
    }

    /// Position of vertex `v` in the stored topological order; a termination
    /// measure for walks toward the sinks.
    pub closed spec fn pos_of(&self, v: int) -> int {
        self.pos@[v] as int
    }

    /// The cost of the longest path through any vertex — its incoming-side
    /// cost plus its outgoing-side cost, counting the vertex once — never
    /// exceeds a bound that dominates every incoming-side cost.
    pub proof fn lemma_through_cost_le(
        &self,
        radj: Seq<Seq<VertexId>>,
        w: Seq<u64>,
        cfs: Seq<PathCost>,
        cts: Seq<PathCost>,
        best: PathCost,
        v: int,
    )
        requires
            self.wf(),
            edges_reversed(self@, radj),
            dp_costs_ok(self@, w, cts),
            dp_costs_ok(radj, w, cfs),
            forall|u: int| 0 <= u < self@.len() ==> (#[trigger] cfs[u]).spec_le(best),
            0 <= v < self@.len(),
        ensures
            lex_le(
                cfs[v].runtime + cts[v].runtime - w[v],
                cfs[v].len + cts[v].len - 1,
                best.runtime as int,
                best.len as int,
            ),
        decreases self@.len() - self.pos_of(v),
    {
        let n = self@.len();
        assert(dp_cost_at(self@, w, cts, v));
        if self@[v].len() == 0 {
            assert(cts[v].runtime == w[v] && cts[v].len == 1);
            assert(cfs[v].spec_le(best));
        } else {
            assert(dp_cost_at(self@, w, cts, v));
            let j = choose|j: int|
                0 <= j < self@[v].len() && cts[v].runtime == w[v] + cts[(
                #[trigger] self@[v][j]).0 as int].runtime && cts[v].len == 1 + cts[self@[v][j].0 as int].len;
            let u = self@[v][j].0 as int;
            assert(self.pos@[v] < self.pos@[u]);
            self.lemma_through_cost_le(radj, w, cfs, cts, best, u);
            assert(has_edge(self@, v, u));
            assert(has_edge(radj, u, v));
            let j2 = choose|j2: int|
                0 <= j2 < radj[u].len() && (#[trigger] radj[u][j2]).0 == v;
            assert(dp_cost_at(radj, w, cfs, u));
            assert(lex_le(
                w[u] + cfs[v].runtime,
                1 + cfs[v].len,
                cfs[u].runtime as int,
                cfs[u].len as int,
            ));
        }
    }
}

/// The reverse of a topological order is a valid processing order for the
/// longest-path engine on the same graph.
pub proof fn lemma_rev_topo_is_dp_order(
    adj: Seq<Seq<VertexId>>,
    order: Seq<VertexId>,
    rorder: Seq<VertexId>,
)
    requires
        is_topo_order(adj, order),
        rorder.len() == order.len(),
        forall|i: int| 0 <= i < rorder.len() ==> rorder[i] == order[order.len() - 1 - i],
    ensures
        valid_dp_order(adj, rorder),
{
    let n = order.len() as int;
    assert forall|v: int| 0 <= v < adj.len() implies #[trigger] order_contains(rorder, v) by {
        assert(order_contains(order, v));
        let k = choose|k: int| 0 <= k < order.len() && (#[trigger] order[k]).0 == v;
        assert(rorder[n - 1 - k].0 == v);
    }
    assert forall|k1: int, k2: int| 0 <= k1 < k2 < rorder.len() implies (#[trigger] rorder[k1])
        != (#[trigger] rorder[k2]) by {
        assert(order[n - 1 - k2] != order[n - 1 - k1]);
    }
    assert forall|k1: int, k2: int| 0 <= k1 <= k2 < rorder.len() implies !has_edge(
        adj,
        (#[trigger] rorder[k1]).0 as int,
        (#[trigger] rorder[k2]).0 as int,
    ) by {
        assert(rorder[k1] == order[n - 1 - k1]);
        assert(rorder[k2] == order[n - 1 - k2]);
        assert(!has_edge(adj, order[n - 1 - k1].0 as int, order[n - 1 - k2].0 as int));
    }
}

/// A topological order of a graph is a valid processing order for the
/// longest-path engine on the reversed graph.
pub proof fn lemma_topo_is_dp_order_reversed(
    adj: Seq<Seq<VertexId>>,
    radj: Seq<Seq<VertexId>>,
    order: Seq<VertexId>,
)
    requires
        is_topo_order(adj, order),
        edges_reversed(adj, radj),
    ensures
        valid_dp_order(radj, order),
{
    assert forall|k1: int, k2: int| 0 <= k1 <= k2 < order.len() implies !has_edge(
        radj,
        (#[trigger] order[k1]).0 as int,
        (#[trigger] order[k2]).0 as int,
    ) by {
        assert(!has_edge(adj, order[k2].0 as int, order[k1].0 as int));
    }
}

/// Appending a vertex adds its weight to a path's summed runtime.
proof fn lemma_path_runtime_snoc(w: Seq<u64>, p: Seq<VertexId>, x: VertexId)
    ensures
        path_runtime(w, p.push(x)) == path_runtime(w, p) + w[x.0 as int],
    decreases p.len(),
{
    if p.len() == 0 {
        assert(p.push(x).drop_first() =~= Seq::<VertexId>::empty());
        assert(p.push(x)[0] == x);
        assert(path_runtime(w, p.push(x).drop_first()) == 0);
        assert(path_runtime(w, p) == 0);
    } else {
        assert(p.push(x).drop_first() =~= p.drop_first().push(x));
        lemma_path_runtime_snoc(w, p.drop_first(), x);
        assert(p.push(x)[0] == p[0]);
        assert(path_runtime(w, p.push(x)) == w[p[0].0 as int] + path_runtime(
            w,
            p.push(x).drop_first(),
        ));
        assert(path_runtime(w, p) == w[p[0].0 as int] + path_runtime(w, p.drop_first()));
    }
}

/// Every vertex of the graph satisfies a pointwise lower bound: its engine
/// cost is at least its own weight with length at least one.
pub proof fn lemma_dp_cost_lower(adj: Seq<Seq<VertexId>>, w: Seq<u64>, cost: Seq<PathCost>, v: int)
    requires
        dp_costs_ok(adj, w, cost),
        0 <= v < adj.len(),
    ensures
        cost[v].runtime >= w[v],
        cost[v].len >= 1,
{
    assert(dp_cost_at(adj, w, cost, v));
    if adj[v].len() > 0 {
        let j = choose|j: int|
            0 <= j < adj[v].len() && cost[v].runtime == w[v] + cost[(
            #[trigger] adj[v][j]).0 as int].runtime && cost[v].len == 1 + cost[adj[v][j].0 as int].len;
    }
}

/// `a` reaches `b`: some path of the graph starts at `a` and ends at `b`.
pub open spec fn reaches(adj: Seq<Seq<VertexId>>, a: int, b: int) -> bool {
    exists|p: Seq<VertexId>| is_path(adj, p) && p.first().0 == a && p.last().0 == b
}

/// Every vertex reaches itself, by the one-vertex path.
pub proof fn lemma_reaches_self(adj: Seq<Seq<VertexId>>, a: int)
    requires
        0 <= a < adj.len(),
        adj.len() <= usize::MAX,
    ensures
        reaches(adj, a, a),
{
    let p = seq![VertexId(a as usize)];
    assert(p.first().0 == a && p.last().0 == a);
    assert(is_path(adj, p));
}

/// Reachability extends along an edge.
pub proof fn lemma_reaches_edge(adj: Seq<Seq<VertexId>>, a: int, b: int, c: int)
    requires
        wf_adj(adj),
        adj.len() <= usize::MAX,
        reaches(adj, a, b),
        has_edge(adj, b, c),
    ensures
        reaches(adj, a, c),
{
    let p = choose|p: Seq<VertexId>| is_path(adj, p) && p.first().0 == a && p.last().0 == b;
    let j = choose|j: int| 0 <= j < adj[b].len() && (#[trigger] adj[b][j]).0 == c;
    assert(adj[b][j].0 < adj.len());
    let q = p.push(VertexId(c as usize));
    assert(q.first() == p.first());
    assert(q.last().0 == c);
    assert forall|k: int| 0 <= k < q.len() - 1 implies has_edge(
        adj,
        (#[trigger] q[k]).0 as int,
        q[k + 1].0 as int,
    ) by {
        if k < p.len() - 1 {
            assert(q[k] == p[k] && q[k + 1] == p[k + 1]);
        } else {
            assert(q[k] == p.last() && q[k + 1].0 == c);
        }
    }
    assert(is_path(adj, q));
}

/// Any path of the graph costs at most the engine's cost — computed over
/// the reversed graph — at the path's last vertex.
pub proof fn lemma_path_le_cost(
    adj: Seq<Seq<VertexId>>,
    radj: Seq<Seq<VertexId>>,
    w: Seq<u64>,
    cfs: Seq<PathCost>,
    p: Seq<VertexId>,
)
    requires
        edges_reversed(adj, radj),
        dp_costs_ok(radj, w, cfs),
        w.len() == adj.len(),
        is_path(adj, p),
    ensures
        lex_le(
            path_runtime(w, p),
            p.len() as int,
            cfs[p.last().0 as int].runtime as int,
            cfs[p.last().0 as int].len as int,
        ),
    decreases p.len(),
{
    let v = p.last().0 as int;
    if p.len() == 1 {
        assert(p.drop_first() =~= Seq::<VertexId>::empty());
        assert(path_runtime(w, p.drop_first()) == 0);
        assert(p[0] == p.last());
        assert(path_runtime(w, p) == w[v]);
        lemma_dp_cost_lower(radj, w, cfs, v);
    } else {
        let q = p.drop_last();
        assert(is_path(adj, q));
        lemma_path_le_cost(adj, radj, w, cfs, q);
        let x = q.last().0 as int;
        assert(has_edge(adj, x, v));
        assert(has_edge(radj, v, x));
        let j = choose|j: int| 0 <= j < radj[v].len() && (#[trigger] radj[v][j]).0 == x;
        assert(dp_cost_at(radj, w, cfs, v));
        assert(lex_le(w[v] + cfs[x].runtime, 1 + cfs[x].len, cfs[v].runtime as int, cfs[v].len as int));
        assert(p =~= q.push(p.last()));
        lemma_path_runtime_snoc(w, q, p.last());
    }
}

} // verus!
