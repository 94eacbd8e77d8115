use critical_path::graph::{Graph, PathCost};
use critical_path::potential::compute_critical_path_potentials;
use critical_path::types::{VertexData, VertexId};

/// Deterministic xorshift generator, so every run sees the same DAGs.
struct Rng(u64);

impl Rng {
    fn new(seed: u64) -> Rng {
        Rng(seed | 1)
    }

    fn next(&mut self) -> u64 {
        let mut x = self.0;
        x ^= x << 13;
        x ^= x >> 7;
        x ^= x << 17;
        self.0 = x;
        x
    }

    fn below(&mut self, n: u64) -> u64 {
        self.next() % n
    }
}

struct TestDag {
    adj: Vec<Vec<usize>>,
    runtimes: Vec<u64>,
}

/// A random DAG: every vertex beyond the first gets one or two predecessors
/// among the earlier vertices, so vertex ids form a topological order.
fn make_dag(nodes: usize, rng: &mut Rng) -> TestDag {
    let mut adj: Vec<Vec<usize>> = vec![Vec::new(); nodes];
    for v in 1..nodes {
        let deg = 1 + (rng.below(2) as usize);
        for _ in 0..deg {
            let u = rng.below(v as u64) as usize;
            adj[u].push(v);
        }
    }
    let mut runtimes: Vec<u64> = Vec::with_capacity(nodes);
    for _ in 0..nodes {
        runtimes.push(rng.below(1000));
    }
    TestDag { adj, runtimes }
}

fn seeded_rng() -> Rng {
    Rng::new(0x5eed_cafe_f00d_0001)
}

fn pc_less(a: (u64, u32), b: (u64, u32)) -> bool {
    a.0 < b.0 || (a.0 == b.0 && a.1 < b.1)
}

/// Reference algorithm: longest path by the recurrence in reverse
/// topological order (vertex ids are topological for generated DAGs), with
/// one vertex's runtime optionally overridden.
fn naive_critical_path_cost(dag: &TestDag, replacement: Option<(usize, u64)>) -> (u64, u32) {
    let n = dag.adj.len();
    let mut costs: Vec<(u64, u32)> = vec![(0, 0); n];
    for idx in (0..n).rev() {
        let mut max: Option<(u64, u32)> = None;
        for &edge in &dag.adj[idx] {
            let edge_cost = costs[edge];
            let replace = match max {
                Some(max_cost) => pc_less(max_cost, edge_cost),
                None => true,
            };
            if replace {
                max = Some(edge_cost);
            }
        }
        let v_runtime = match replacement {
            Some((r, runtime)) if r == idx => runtime,
            _ => dag.runtimes[idx],
        };
        let best = max.unwrap_or((0, 0));
        costs[idx] = (v_runtime + best.0, 1 + best.1);
    }
    let mut best = (0, 0);
    let mut any = false;
    for idx in 0..n {
        if !any || pc_less(best, costs[idx]) {
            best = costs[idx];
            any = true;
        }
    }
    best
}

fn build_graph(adj: &[Vec<usize>]) -> Graph {
    let rows: Vec<Vec<VertexId>> = adj
        .iter()
        .map(|row| row.iter().map(|&v| VertexId(v)).collect())
        .collect();
    Graph::new(rows).expect("input graph must be acyclic")
}

/// Runs the fast algorithm and holds it against the reference algorithm and
/// the structural invariants. Per-replacement reference runs are skipped
/// above `naive_limit` vertices, where only the invariants are checked.
fn do_test(dag: &TestDag, naive_limit: usize) {
    let n = dag.adj.len();
    let graph = build_graph(&dag.adj);
    let runtimes = VertexData::new(dag.runtimes.clone());
    let (critical_path, critical_path_cost, replacement_costs) =
        compute_critical_path_potentials(&graph, &runtimes);

    // The overall cost matches the reference algorithm.
    let naive = naive_critical_path_cost(dag, None);
    assert_eq!(naive, (critical_path_cost.runtime, critical_path_cost.len));

    // The path is a simple path whose cost accounts for its vertices.
    assert_eq!(replacement_costs.len(), critical_path.len());
    assert_eq!(critical_path_cost.len as usize, critical_path.len());
    let mut on_path = vec![false; n];
    let mut runtime_sum: u64 = 0;
    for (k, v) in critical_path.iter().enumerate() {
        assert!(v.0 < n);
        assert!(!on_path[v.0], "the critical path repeats vertex {}", v.0);
        on_path[v.0] = true;
        runtime_sum += dag.runtimes[v.0];
        if k + 1 < critical_path.len() {
            assert!(dag.adj[v.0].contains(&critical_path[k + 1].0));
        }
    }
    assert_eq!(runtime_sum, critical_path_cost.runtime);

    // Replacement bounds, and exactness against the reference.
    for (idx, repl) in critical_path.iter().zip(replacement_costs.iter()) {
        let baseline = (
            critical_path_cost.runtime - dag.runtimes[idx.0],
            critical_path_cost.len,
        );
        let got = (repl.runtime, repl.len);
        assert!(!pc_less(got, baseline));
        assert!(!pc_less((critical_path_cost.runtime, critical_path_cost.len), got));
        if dag.runtimes[idx.0] == 0 {
            assert_eq!(got, (critical_path_cost.runtime, critical_path_cost.len));
        }
        if n <= naive_limit {
            let naive = naive_critical_path_cost(dag, Some((idx.0, 0)));
            assert_eq!(naive, got, "replacing node {} fails", idx.0);
        }
    }
}

fn test_dag(nodes: usize) -> TestDag {
    make_dag(nodes, &mut seeded_rng())
}

#[test]
fn test_trivial() {
    do_test(&test_dag(2), usize::MAX);
}

#[test]
fn test_mini() {
    do_test(&test_dag(4), usize::MAX);
}

#[test]
fn test_medium() {
    do_test(&test_dag(100), usize::MAX);
}

#[test]
fn test_large() {
    do_test(&test_dag(1000), usize::MAX);
}

#[test]
fn test_xlarge() {
    do_test(&test_dag(10_000), usize::MAX);
}

#[test]
fn test_xxlarge() {
    do_test(&test_dag(100_000), 100_000);
}

#[test]
fn test_xxxlarge() {
    do_test(&test_dag(1_000_000), 100_000);
}

#[test]
fn test_empty_graph() {
    let graph = Graph::new(Vec::new()).unwrap();
    let runtimes = VertexData::new(Vec::new());
    let (path, cost, replacements) = compute_critical_path_potentials(&graph, &runtimes);
    assert!(path.is_empty());
    assert_eq!((cost.runtime, cost.len), (0, 0));
    assert!(replacements.is_empty());
}

#[test]
fn test_single_vertex() {
    let graph = build_graph(&[Vec::new()]);
    let runtimes = VertexData::new(vec![7]);
    let (path, cost, replacements) = compute_critical_path_potentials(&graph, &runtimes);
    assert_eq!(path, vec![VertexId(0)]);
    assert_eq!((cost.runtime, cost.len), (7, 1));
    assert_eq!(replacements.len(), 1);
    assert_eq!((replacements[0].runtime, replacements[0].len), (0, 1));
}

#[test]
fn test_two_vertex_chain() {
    let graph = build_graph(&[vec![1], Vec::new()]);
    let runtimes = VertexData::new(vec![3, 5]);
    let (path, cost, replacements) = compute_critical_path_potentials(&graph, &runtimes);
    assert_eq!(path, vec![VertexId(0), VertexId(1)]);
    assert_eq!((cost.runtime, cost.len), (8, 2));
    let got: Vec<(u64, u32)> = replacements.iter().map(|c| (c.runtime, c.len)).collect();
    assert_eq!(got, vec![(5, 2), (3, 2)]);
}

#[test]
fn test_diamond() {
    // a=0, b=1, c=2, d=3; edges a->b, a->c, b->d, c->d.
    let graph = build_graph(&[vec![1, 2], vec![3], vec![3], Vec::new()]);
    let runtimes = VertexData::new(vec![1, 10, 4, 1]);
    let (path, cost, replacements) = compute_critical_path_potentials(&graph, &runtimes);
    assert_eq!(path, vec![VertexId(0), VertexId(1), VertexId(3)]);
    assert_eq!((cost.runtime, cost.len), (12, 3));
    let got: Vec<(u64, u32)> = replacements.iter().map(|c| (c.runtime, c.len)).collect();
    assert_eq!(got, vec![(11, 3), (6, 3), (11, 3)]);
}

#[test]
fn test_parallel_branches() {
    // Two disjoint chains 0->1->2 (runtimes 5,5,5) and 3->4->5 (4,4,4).
    let graph = build_graph(&[vec![1], vec![2], Vec::new(), vec![4], vec![5], Vec::new()]);
    let runtimes = VertexData::new(vec![5, 5, 5, 4, 4, 4]);
    let (path, cost, replacements) = compute_critical_path_potentials(&graph, &runtimes);
    assert_eq!(path, vec![VertexId(0), VertexId(1), VertexId(2)]);
    assert_eq!((cost.runtime, cost.len), (15, 3));
    for repl in &replacements {
        assert_eq!((repl.runtime, repl.len), (12, 3));
    }
}

#[test]
fn test_zero_runtime_vertex() {
    let graph = build_graph(&[vec![1], vec![2], Vec::new()]);
    let runtimes = VertexData::new(vec![2, 0, 9]);
    let (path, cost, replacements) = compute_critical_path_potentials(&graph, &runtimes);
    assert_eq!(path.len(), 3);
    assert_eq!((cost.runtime, cost.len), (11, 3));
    assert_eq!((replacements[1].runtime, replacements[1].len), (11, 3));
}

#[test]
fn test_cycle_rejected() {
    let adj = vec![vec![VertexId(1)], vec![VertexId(0)]];
    assert!(Graph::new(adj).is_none());
}

#[test]
fn test_self_loop_rejected() {
    let adj = vec![vec![VertexId(0)]];
    assert!(Graph::new(adj).is_none());
}

#[test]
fn test_out_of_range_edge_rejected() {
    let adj = vec![vec![VertexId(2)], Vec::new()];
    assert!(Graph::new(adj).is_none());
}

#[test]
fn test_path_cost_order() {
    let a = PathCost { runtime: 3, len: 9 };
    let b = PathCost { runtime: 5, len: 1 };
    let c = PathCost { runtime: 5, len: 2 };
    assert!(a.lt(b));
    assert!(b.lt(c));
    assert!(!c.lt(b));
    assert!(!c.lt(c));
    let z = PathCost::zero();
    assert_eq!((z.runtime, z.len), (0, 0));
}

#[test]
fn test_graph_accessors() {
    let graph = build_graph(&[vec![1, 2], Vec::new(), vec![1]]);
    assert_eq!(graph.vertex_count(), 3);
    assert_eq!(graph.iter_edges(VertexId(0)), &vec![VertexId(1), VertexId(2)]);
    let topo = graph.topo_sort();
    assert_eq!(topo.len(), 3);
    let data = graph.allocate_vertex_data(41u64);
    assert_eq!(data.len(), 3);
    assert_eq!(data.get(VertexId(2)), 41);
}

#[test]
fn test_vertex_data() {
    let mut data = VertexData::new(vec![1u64, 2, 3]);
    assert_eq!(data.len(), 3);
    data.put(VertexId(1), 9);
    assert_eq!(data.get(VertexId(1)), 9);
    assert_eq!(data.into_inner(), vec![1, 9, 3]);
}

#[test]
fn test_tie_prefers_longer_path() {
    // Two routes of equal runtime from 0 to 2; the longer one wins the tie.
    let graph = build_graph(&[vec![1, 2], vec![2], Vec::new()]);
    let runtimes = VertexData::new(vec![0, 0, 0]);
    let (path, cost, replacements) = compute_critical_path_potentials(&graph, &runtimes);
    assert_eq!(path, vec![VertexId(0), VertexId(1), VertexId(2)]);
    assert_eq!((cost.runtime, cost.len), (0, 3));
    for repl in &replacements {
        assert_eq!((repl.runtime, repl.len), (0, 3));
    }
}

#[test]
fn test_tie_prefers_lowest_vertex_id() {
    // Two isolated vertices with equal runtime: the sink with the lower id
    // is selected.
    let graph = build_graph(&[Vec::new(), Vec::new()]);
    let runtimes = VertexData::new(vec![5, 5]);
    let (path, cost, _) = compute_critical_path_potentials(&graph, &runtimes);
    assert_eq!(path, vec![VertexId(0)]);
    assert_eq!((cost.runtime, cost.len), (5, 1));
}

#[test]
fn test_maximal_runtimes() {
    // A chain at the largest admissible per-vertex runtime: the sums stay
    // inside u64 and the replacements drop exactly one vertex's runtime.
    let big: u64 = 0xFFFF_FFFF;
    let graph = build_graph(&[vec![1], vec![2], Vec::new()]);
    let runtimes = VertexData::new(vec![big, big, big]);
    let (path, cost, replacements) = compute_critical_path_potentials(&graph, &runtimes);
    assert_eq!(path.len(), 3);
    assert_eq!((cost.runtime, cost.len), (3 * big, 3));
    for repl in &replacements {
        assert_eq!((repl.runtime, repl.len), (2 * big, 3));
    }
}
