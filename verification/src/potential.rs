//! The critical-path potentials algorithm.
//!
//! Computes the critical path of a DAG under per-vertex runtimes and, for
//! every vertex on it, the replacement cost: the overall critical-path cost
//! if that vertex had taken zero time. The replacement cost for position `i`
//! is the maximum of the critical path's own cost with `runtime[cp_i]`
//! zeroed and the longest path through any vertex whose paths avoid `cp_i`;
//! the second quantity is found for all positions in one heap-managed sweep
//! over validity intervals.

use vstd::prelude::*;

verus! {

use vstd::pervasive::VecAdditionalExecFns;
use crate::graph::{
    Graph, PathCost, lex_le, wf_adj, has_edge, is_path, path_runtime, edges_reversed,
    dp_costs_ok, dp_cost_at, dp_parents_ok, dp_in_bounds, reaches,
    lemma_rev_topo_is_dp_order, lemma_topo_is_dp_order_reversed, lemma_path_le_cost,
    lemma_dp_cost_lower, lemma_reaches_self, lemma_reaches_edge,
};
use crate::heap::{CostHeap, heap_contains};
use crate::types::{VertexId, VertexData, filled};

/// Number of `None` entries of a mark array; the termination measure of the
/// marking traversals.
spec fn count_none(s: Seq<Option<usize>>) -> int
    decreases s.len(),
{
    if s.len() == 0 {
        0
    } else {
        (if s[0] is None { 1int } else { 0int }) + count_none(s.drop_first())
    }
}

proof fn lemma_count_none_nonneg(s: Seq<Option<usize>>)
    ensures
        count_none(s) >= 0,
    decreases s.len(),
{
    if s.len() > 0 {
        lemma_count_none_nonneg(s.drop_first());
    }
}

proof fn lemma_count_none_update(s: Seq<Option<usize>>, i: int, x: usize)
    requires
        0 <= i < s.len(),
        s[i] is None,
    ensures
        count_none(s.update(i, Option::Some(x))) == count_none(s) - 1,
    decreases s.len(),
{
    let t = s.update(i, Option::Some(x));
    if i == 0 {
        assert(t.drop_first() =~= s.drop_first());
    } else {
        assert(t.drop_first() =~= s.drop_first().update(i - 1, Option::Some(x)));
        lemma_count_none_update(s.drop_first(), i - 1, x);
        assert(t[0] == s[0]);
    }
}

/// Marks with `cp_idx` every vertex reachable from `start` that is not yet
/// marked, stopping at marked vertices, with an explicit work stack. Every
/// mark this call writes goes to a vertex reachable from `start`.
fn mark_from(g: &Graph, start: VertexId, cp_idx: usize, marks: &mut Vec<Option<usize>>)
    requires
        wf_adj(g@),
        old(marks)@.len() == g@.len(),
        start.0 < g@.len(),
    ensures
        final(marks)@.len() == old(marks)@.len(),
        forall|v: int|
            0 <= v < final(marks)@.len() ==> final(marks)@[v] == old(marks)@[v] || final(marks)@[v]
                == Option::Some(cp_idx),
        forall|v: int|
            0 <= v < final(marks)@.len() && final(marks)@[v] != old(marks)@[v] ==> reaches(
                g@,
                start.0 as int,
                v,
            ),
{
    let n = marks.len();
    let mut stack: Vec<VertexId> = Vec::new();
    stack.push(start);
    proof {
        lemma_reaches_self(g@, start.0 as int);
    }
    while stack.len() > 0
        invariant
            wf_adj(g@),
            marks@.len() == g@.len(),
            n == g@.len(),
            start.0 < n,
            forall|k: int|
                0 <= k < stack@.len() ==> (#[trigger] stack@[k]).0 < g@.len() && reaches(
                    g@,
                    start.0 as int,
                    stack@[k].0 as int,
                ),
            forall|v: int|
                0 <= v < marks@.len() ==> marks@[v] == old(marks)@[v] || marks@[v] == Option::Some(
                    cp_idx,
                ),
            forall|v: int|
                0 <= v < marks@.len() && marks@[v] != old(marks)@[v] ==> reaches(
                    g@,
                    start.0 as int,
                    v,
                ),
        decreases count_none(marks@), stack@.len(),
    {
        proof {
            lemma_count_none_nonneg(marks@);
        }
        let v = stack.pop().unwrap();
        let unmarked = marks[v.0].is_none();
        if unmarked {
            let ghost before = marks@;
            marks.set(v.0, Option::Some(cp_idx));
            proof {
                lemma_count_none_update(before, v.0 as int, cp_idx);
            }
            let row = g.iter_edges(v);
            for j in 0..row.len()
                invariant
                    wf_adj(g@),
                    v.0 < g@.len(),
                    n == g@.len(),
                    start.0 < n,
                    reaches(g@, start.0 as int, v.0 as int),
                    row@ == g@[v.0 as int],
                    marks@.len() == g@.len(),
                    count_none(marks@) == count_none(before) - 1,
                    forall|k: int|
                        0 <= k < stack@.len() ==> (#[trigger] stack@[k]).0 < g@.len() && reaches(
                            g@,
                            start.0 as int,
                            stack@[k].0 as int,
                        ),
                    forall|v2: int|
                        0 <= v2 < marks@.len() ==> marks@[v2] == old(marks)@[v2] || marks@[v2]
                            == Option::Some(cp_idx),
                    forall|v2: int|
                        0 <= v2 < marks@.len() && marks@[v2] != old(marks)@[v2] ==> reaches(
                            g@,
                            start.0 as int,
                            v2,
                        ),
            {
                proof {
                    assert(has_edge(g@, v.0 as int, row@[j as int].0 as int));
                    lemma_reaches_edge(g@, start.0 as int, v.0 as int, row@[j as int].0 as int);
                }
                stack.push(row[j]);
            }
        }
        proof {
            lemma_count_none_nonneg(marks@);
        }
    }
}

/// Computes, for a DAG `deps` with per-vertex `runtimes`, the critical path,
/// its cost, and for each critical-path position the replacement cost: the
/// overall critical-path cost with that vertex's runtime set to zero.
///
/// The contract pins the returned path down as a simple path whose summed
/// cost no path of the graph exceeds, and bounds every replacement cost
/// between the critical path's cost with the vertex's runtime removed and
/// the full critical-path cost; a zero-runtime vertex therefore keeps the
/// cost unchanged. The runtime bound of the preconditions is what keeps all
/// cost sums inside `u64`.
pub fn compute_critical_path_potentials(deps: &Graph, runtimes: &VertexData<u64>) -> (r: (
    Vec<VertexId>,
    PathCost,
    Vec<PathCost>,
))
    requires
        deps.wf(),
        runtimes@.len() == deps@.len(),
        deps@.len() <= 0x7FFF_FFFF,
        forall|i: int| 0 <= i < runtimes@.len() ==> runtimes@[i] <= 0xFFFF_FFFF,
    ensures
        r.2@.len() == r.0@.len(),
        r.1.len as int == r.0@.len(),
        deps@.len() == 0 ==> r.0@.len() == 0 && r.1.runtime == 0,
        deps@.len() > 0 ==> r.0@.len() > 0,
        r.0@.len() > 0 ==> is_path(deps@, r.0@),
        forall|k1: int, k2: int| 0 <= k1 < k2 < r.0@.len() ==> r.0@[k1] != r.0@[k2],
        r.1.runtime as int == path_runtime(runtimes@, r.0@),
        forall|p: Seq<VertexId>|
            is_path(deps@, p) ==> lex_le(
                path_runtime(runtimes@, p),
                p.len() as int,
                r.1.runtime as int,
                r.1.len as int,
            ),
        forall|p: Seq<VertexId>|
            is_path(deps@, p) && path_runtime(runtimes@, p) == r.1.runtime && p.len() == r.1.len
                ==> p.last().0 >= r.0@.last().0,
        forall|i: int|
            0 <= i < r.2@.len() ==> lex_le(
                r.1.runtime - runtimes@[r.0@[i].0 as int],
                r.1.len as int,
                (#[trigger] r.2@[i]).runtime as int,
                r.2@[i].len as int,
            ),
        forall|i: int| 0 <= i < r.2@.len() ==> (#[trigger] r.2@[i]).spec_le(r.1),
        forall|i: int|
            0 <= i < r.2@.len() && runtimes@[r.0@[i].0 as int] == 0 ==> r.2@[i] == r.1,
{
    let ghost adj = deps@;
    let ghost w = runtimes@;
    let n = deps.vertex_count();
    if n == 0 {
        return (Vec::new(), PathCost::zero(), Vec::new());
    }
    proof {
        deps.lemma_wf_adj();
    }
    let rdeps = deps.reversed();
    let ghost radj = rdeps@;
    let topo = deps.topo_sort();
    let mut rev_topo: Vec<VertexId> = Vec::new();
    let mut k = n;
    while k > 0
        invariant
            topo@.len() == n,
            k <= n,
            rev_topo@.len() == n - k,
            forall|i: int| 0 <= i < rev_topo@.len() ==> rev_topo@[i] == topo@[n - 1 - i],
        decreases k,
    {
        k -= 1;
        rev_topo.push(topo[k]);
    }
    proof {
        lemma_rev_topo_is_dp_order(adj, topo@, rev_topo@);
        lemma_topo_is_dp_order_reversed(adj, radj, topo@);
        rdeps.lemma_wf_adj();
    }
    // Longest outgoing path of every vertex (toward the sinks), and longest
    // incoming path of every vertex (from the sources), as costs over the
    // reversed graph.
    // The parent pointers of the outgoing-side pass are not needed.
    let (cost_to_sink, _successors) = deps.find_longest_paths(&rev_topo, runtimes);
    let (cost_from_source, predecessors) = rdeps.find_longest_paths(&topo, runtimes);
    let ghost cts = cost_to_sink@;
    let ghost cfs = cost_from_source@;
    // The critical path ends at the vertex with the greatest incoming-side
    // cost; ties go to the lowest vertex id.
    let mut sink = VertexId(0);
    let mut cpc = cost_from_source.get(VertexId(0));
    for v in 1..n
        invariant
            n == adj.len(),
            cfs.len() == n,
            cfs == cost_from_source@,
            sink.0 < v,
            cpc == cfs[sink.0 as int],
            forall|u: int| 0 <= u < v ==> (#[trigger] cfs[u]).spec_le(cpc),
            forall|u: int| 0 <= u < v && u < sink.0 ==> (#[trigger] cfs[u]) != cpc,
    {
        let c = cost_from_source.get(VertexId(v));
        if cpc.lt(c) {
            sink = VertexId(v);
            cpc = c;
        }
    }
    proof {
        lemma_dp_cost_lower(radj, w, cfs, sink.0 as int);
    }
    // Reconstruct the critical path by walking predecessor pointers from the
    // sink; position `i` carries an incoming-side cost of length `i + 1`.
    let ln = cpc.len as usize;
    let mut cp: Vec<VertexId> = filled(ln, VertexId(0));
    cp.set(ln - 1, sink);
    let mut cur = sink;
    let mut i = ln - 1;
    proof {
        assert(cp@.subrange(ln - 1, ln as int) =~= seq![sink]);
        assert(path_runtime(w, seq![sink].drop_first()) == 0);
    }
    while i > 0
        invariant
            n == adj.len(),
            w == runtimes@,
            cfs.len() == n,
            w.len() == n,
            edges_reversed(adj, radj),
            dp_costs_ok(radj, w, cfs),
            dp_parents_ok(radj, w, cfs, predecessors@),
            ln == cpc.len,
            0 < ln,
            i < ln,
            cp@.len() == ln,
            cp@[ln - 1] == sink,
            cur == cp@[i as int],
            cur.0 < n,
            forall|k2: int| 0 <= k2 < ln ==> (#[trigger] cp@[k2]).0 < n,
            forall|k2: int|
                i <= k2 < ln - 1 ==> has_edge(adj, (#[trigger] cp@[k2]).0 as int, cp@[k2 + 1].0 as int),
            cfs[cur.0 as int].len == i + 1,
            path_runtime(w, cp@.subrange(i as int, ln as int)) == cpc.runtime - cfs[cur.0 as int].runtime
                + w[cur.0 as int],
        decreases i,
    {
        proof {
            assert(dp_cost_at(radj, w, cfs, cur.0 as int));
            if predecessors@[cur.0 as int] is None {
                assert(radj[cur.0 as int].len() == 0);
                assert(cfs[cur.0 as int].len == 1);
                assert(false);
            }
        }
        let p = predecessors.get(cur).unwrap();
        proof {
            assert(has_edge(radj, cur.0 as int, p.0 as int));
            assert(has_edge(adj, p.0 as int, cur.0 as int));
        }
        let ghost old_cp = cp@;
        cp.set(i - 1, p);
        proof {
            assert(cp@.subrange(i as int, ln as int) =~= old_cp.subrange(i as int, ln as int));
            let sub = cp@.subrange(i - 1, ln as int);
            assert(sub.drop_first() =~= cp@.subrange(i as int, ln as int));
            assert(sub[0] == p);
            assert(path_runtime(w, sub) == w[p.0 as int] + path_runtime(
                w,
                cp@.subrange(i as int, ln as int),
            ));
        }
        cur = p;
        i -= 1;
    }
    proof {
        // At the first position the incoming-side cost is the vertex alone,
        // so the path's summed runtime telescopes to the critical-path cost.
        assert(dp_cost_at(radj, w, cfs, cur.0 as int));
        if radj[cur.0 as int].len() > 0 {
            let j = choose|j: int|
                0 <= j < radj[cur.0 as int].len() && cfs[cur.0 as int].runtime == w[cur.0 as int]
                    + cfs[(#[trigger] radj[cur.0 as int][j]).0 as int].runtime && cfs[cur.0 as int].len
                    == 1 + cfs[radj[cur.0 as int][j].0 as int].len;
            lemma_dp_cost_lower(radj, w, cfs, radj[cur.0 as int][j].0 as int);
            assert(false);
        }
        assert(cfs[cur.0 as int].runtime == w[cur.0 as int]);
        assert(cp@.subrange(0, ln as int) =~= cp@);
        assert(path_runtime(w, cp@) == cpc.runtime);
        assert(is_path(adj, cp@));
        deps.lemma_path_no_dup(cp@);
        // No path of the graph beats the critical-path cost.
        assert forall|p2: Seq<VertexId>| is_path(adj, p2) implies lex_le(
            path_runtime(w, p2),
            p2.len() as int,
            cpc.runtime as int,
            cpc.len as int,
        ) by {
            lemma_path_le_cost(adj, radj, w, cfs, p2);
            assert(cfs[p2.last().0 as int].spec_le(cpc));
        }
        // Among the paths that achieve the critical-path cost, the returned
        // one ends at the lowest-id sink.
        assert forall|p2: Seq<VertexId>|
            is_path(adj, p2) && path_runtime(w, p2) == cpc.runtime && p2.len()
                == cpc.len implies p2.last().0 >= cp@.last().0 by {
            lemma_path_le_cost(adj, radj, w, cfs, p2);
            let x = p2.last().0 as int;
            assert(cfs[x].spec_le(cpc));
            assert(lex_le(cpc.runtime as int, cpc.len as int, cfs[x].runtime as int, cfs[x].len as int));
            assert(cfs[x].runtime == cpc.runtime && cfs[x].len == cpc.len);
            assert(cfs[x] == cpc);
            assert(cp@.last() == sink);
            if x < sink.0 {
                assert(false);
            }
        }
    }
    // The longest path through each vertex, and the fact that none of them
    // beats the critical path.
    let mut vertices_cost: Vec<PathCost> = Vec::new();
    for v in 0..n
        invariant
            n == adj.len(),
            w == runtimes@,
            w.len() == n,
            cfs.len() == n,
            cts.len() == n,
            cfs == cost_from_source@,
            cts == cost_to_sink@,
            deps.wf(),
            deps@ == adj,
            edges_reversed(adj, radj),
            dp_costs_ok(adj, w, cts),
            dp_costs_ok(radj, w, cfs),
            dp_in_bounds(adj, cts),
            dp_in_bounds(radj, cfs),
            n <= 0x7FFF_FFFF,
            forall|u: int| 0 <= u < n ==> (#[trigger] cfs[u]).spec_le(cpc),
            vertices_cost@.len() == v,
            forall|u: int| 0 <= u < v ==> (#[trigger] vertices_cost@[u]).spec_le(cpc),
    {
        proof {
            lemma_dp_cost_lower(adj, w, cts, v as int);
            lemma_dp_cost_lower(radj, w, cfs, v as int);
            deps.lemma_through_cost_le(radj, w, cfs, cts, cpc, v as int);
        }
        let c = PathCost {
            runtime: cost_from_source.get(VertexId(v)).runtime + cost_to_sink.get(VertexId(v)).runtime
                - runtimes.get(VertexId(v)),
            len: cost_from_source.get(VertexId(v)).len + cost_to_sink.get(VertexId(v)).len - 1,
        };
        vertices_cost.push(c);
    }
    // Validity intervals: the last critical-path vertex with a path to `v`,
    // walking the graph from the path's vertices in decreasing order, and
    // the first critical-path vertex reachable from `v`, walking the
    // reversed graph in increasing order. The first writer wins, so each
    // traversal stops at already marked vertices.
    let mut last_cp_pred: Vec<Option<usize>> = filled(n, Option::None);
    let mut k2 = ln;
    while k2 > 0
        invariant
            n == adj.len(),
            deps@ == adj,
            wf_adj(adj),
            cp@.len() == ln,
            k2 <= ln,
            last_cp_pred@.len() == n,
            forall|k3: int| 0 <= k3 < ln ==> (#[trigger] cp@[k3]).0 < n,
            forall|v: int|
                0 <= v < n ==> match #[trigger] last_cp_pred@[v] {
                    Option::Some(j) => j < ln,
                    Option::None => true,
                },
        decreases k2,
    {
        k2 -= 1;
        mark_from(deps, cp[k2], k2, &mut last_cp_pred);
    }
    let mut first_cp_succ: Vec<Option<usize>> = filled(n, Option::None);
    for k3 in 0..ln
        invariant
            n == adj.len(),
            radj == rdeps@,
            radj.len() == n,
            wf_adj(radj),
            cp@.len() == ln,
            first_cp_succ@.len() == n,
            forall|k4: int| 0 <= k4 < ln ==> (#[trigger] cp@[k4]).0 < n,
            forall|v: int|
                0 <= v < n ==> match #[trigger] first_cp_succ@[v] {
                    Option::Some(j) => j < ln,
                    Option::None => true,
                },
    {
        mark_from(&rdeps, cp[k3], k3, &mut first_cp_succ);
    }
    // One bucket per critical-path position: the candidates that become
    // valid there, each carrying the position where it expires.
    let mut buckets: Vec<Vec<(PathCost, Option<usize>)>> = Vec::new();
    while buckets.len() < ln
        invariant
            buckets@.len() <= ln,
            forall|b: int| 0 <= b < buckets@.len() ==> (#[trigger] buckets@[b])@.len() == 0,
        decreases ln - buckets@.len(),
    {
        buckets.push(Vec::new());
    }
    for v in 0..n
        invariant
            n == adj.len(),
            buckets@.len() == ln,
            last_cp_pred@.len() == n,
            first_cp_succ@.len() == n,
            vertices_cost@.len() == n,
            forall|u: int| 0 <= u < n ==> (#[trigger] vertices_cost@[u]).spec_le(cpc),
            forall|v2: int|
                0 <= v2 < n ==> match #[trigger] last_cp_pred@[v2] {
                    Option::Some(j) => j < ln,
                    Option::None => true,
                },
            forall|b: int, k3: int|
                0 <= b < ln && 0 <= k3 < buckets@[b]@.len() ==> (#[trigger] buckets@[b]@[k3]).0.spec_le(
                    cpc,
                ),
    {
        let valid_at: usize = match last_cp_pred[v] {
            Option::Some(j) => j + 1,
            Option::None => 0,
        };
        if valid_at < ln {
            let e = (vertices_cost[v], first_cp_succ[v]);
            let ghost before = buckets@;
            buckets[valid_at].push(e);
            proof {
                assert forall|b: int, k3: int|
                    0 <= b < ln && 0 <= k3 < buckets@[b]@.len() implies (
                #[trigger] buckets@[b]@[k3]).0.spec_le(cpc) by {
                    if b == valid_at as int && k3 == buckets@[b]@.len() - 1 {
                        assert(buckets@[b]@[k3] == e);
                    } else {
                        assert(buckets@[b]@[k3] == before[b]@[k3]);
                    }
                }
            }
        }
    }
    // Baseline: keep the critical path itself, with the vertex's runtime
    // removed; the length is unchanged because only the runtime is zeroed.
    let mut out: Vec<PathCost> = Vec::new();
    for i2 in 0..ln
        invariant
            n == adj.len(),
            w == runtimes@,
            w.len() == n,
            cfs.len() == n,
            radj.len() == n,
            dp_costs_ok(radj, w, cfs),
            cp@.len() == ln,
            forall|k3: int| 0 <= k3 < ln ==> (#[trigger] cp@[k3]).0 < n,
            forall|u: int| 0 <= u < n ==> (#[trigger] cfs[u]).spec_le(cpc),
            out@.len() == i2,
            forall|k3: int|
                0 <= k3 < i2 ==> (#[trigger] out@[k3]).runtime == cpc.runtime - w[cp@[k3].0 as int]
                    && out@[k3].len == cpc.len,
    {
        proof {
            lemma_dp_cost_lower(radj, w, cfs, cp@[i2 as int].0 as int);
            assert(cfs[cp@[i2 as int].0 as int].spec_le(cpc));
        }
        out.push(PathCost { runtime: cpc.runtime - runtimes.get(cp[i2]), len: cpc.len });
    }
    // The sweep: at each position, first admit the candidates that become
    // valid, then lazily drop expired ones from the top of the heap and take
    // the best survivor if it beats the baseline.
    let mut heap = CostHeap::new();
    for i2 in 0..ln
        invariant
            n == adj.len(),
            w == runtimes@,
            w.len() == n,
            buckets@.len() == ln,
            cp@.len() == ln,
            forall|k3: int| 0 <= k3 < ln ==> (#[trigger] cp@[k3]).0 < n,
            forall|b: int, k3: int|
                0 <= b < ln && 0 <= k3 < buckets@[b]@.len() ==> (#[trigger] buckets@[b]@[k3]).0.spec_le(
                    cpc,
                ),
            heap.wf(),
            forall|x: (PathCost, Option<usize>)| heap_contains(heap@, x) ==> x.0.spec_le(cpc),
            out@.len() == ln,
            forall|k3: int|
                0 <= k3 < ln ==> lex_le(
                    cpc.runtime - w[cp@[k3].0 as int],
                    cpc.len as int,
                    (#[trigger] out@[k3]).runtime as int,
                    out@[k3].len as int,
                ) && out@[k3].spec_le(cpc),
    {
        let row = &buckets[i2];
        for j in 0..row.len()
            invariant
                row@ == buckets@[i2 as int]@,
                i2 < ln,
                buckets@.len() == ln,
                forall|b: int, k3: int|
                    0 <= b < ln && 0 <= k3 < buckets@[b]@.len() ==> (
                    #[trigger] buckets@[b]@[k3]).0.spec_le(cpc),
                heap.wf(),
                forall|x: (PathCost, Option<usize>)| heap_contains(heap@, x) ==> x.0.spec_le(cpc),
        {
            heap.push(row[j]);
        }
        let mut done = false;
        while !done
            invariant
                i2 < ln,
                out@.len() == ln,
                w.len() == n,
                cp@.len() == ln,
                forall|k3: int| 0 <= k3 < ln ==> (#[trigger] cp@[k3]).0 < n,
                heap.wf(),
                forall|x: (PathCost, Option<usize>)| heap_contains(heap@, x) ==> x.0.spec_le(cpc),
                forall|k3: int|
                    0 <= k3 < ln ==> lex_le(
                        cpc.runtime - w[cp@[k3].0 as int],
                        cpc.len as int,
                        (#[trigger] out@[k3]).runtime as int,
                        out@[k3].len as int,
                    ) && out@[k3].spec_le(cpc),
            decreases (if done { 0int } else { 1int }), heap@.len(),
        {
            if heap.len() == 0 {
                done = true;
            } else {
                let top = heap.peek();
                let expired = match top.1 {
                    Option::Some(j2) => j2 <= i2,
                    Option::None => false,
                };
                if expired {
                    heap.pop();
                } else {
                    if out[i2].lt(top.0) {
                        let ghost old_out = out@;
                        out.set(i2, top.0);
                        proof {
                            assert(heap_contains(heap@, top));
                            assert(top.0.spec_le(cpc));
                            assert forall|k3: int| 0 <= k3 < ln implies lex_le(
                                cpc.runtime - w[cp@[k3].0 as int],
                                cpc.len as int,
                                (#[trigger] out@[k3]).runtime as int,
                                out@[k3].len as int,
                            ) && out@[k3].spec_le(cpc) by {
                                if k3 != i2 as int {
                                    assert(out@[k3] == old_out[k3]);
                                }
                            }
                        }
                    }
                    done = true;
                }
            }
        }
    }
    proof {
        assert forall|i3: int|
            0 <= i3 < out@.len() && runtimes@[cp@[i3].0 as int] == 0 implies out@[i3] == cpc by {
            assert(lex_le(
                cpc.runtime - 0,
                cpc.len as int,
                out@[i3].runtime as int,
                out@[i3].len as int,
            ));
            assert(out@[i3].spec_le(cpc));
        }
    }
    (cp, cpc, out)
}

} // verus!
