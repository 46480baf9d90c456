//! Strongly connected components of an expression graph, computed by
//! petgraph's implementation of Tarjan's algorithm.
use vstd::prelude::*;

use petgraph::graph::{Graph, NodeIndex};
use petgraph::Directed;

use crate::arena::ArenaId;

verus! {

#[verifier::external_type_specification]
#[verifier::external_body]
#[verifier::reject_recursive_types(N)]
#[verifier::reject_recursive_types(E)]
#[verifier::reject_recursive_types(Ty)]
#[verifier::reject_recursive_types(Ix)]
pub struct ExGraph<N, E, Ty, Ix>(Graph<N, E, Ty, Ix>);

#[verifier::external_type_specification]
#[verifier::external_body]
pub struct ExDirected(Directed);

/// The number of nodes of a graph.
pub uninterp spec fn graph_node_count(g: Graph<(), (), Directed, usize>) -> nat;

/// The edges of a graph, in insertion order.
pub uninterp spec fn graph_edges(g: Graph<(), (), Directed, usize>) -> Seq<(usize, usize)>;

/// The strongly connected components that `petgraph::algo::tarjan_scc`
/// returns for the graph with nodes `0..node_count` and `edges`.
pub uninterp spec fn tarjan_components(node_count: nat, edges: Seq<(usize, usize)>) -> Seq<
    Seq<usize>,
>;

/// `path` is a walk along `edges`.
pub open spec fn is_path(edges: Seq<(usize, usize)>, path: Seq<usize>) -> bool {
    &&& path.len() >= 1
    &&& forall|k: int| 0 <= k < path.len() - 1 ==> #[trigger] steps_along(edges, path, k)
}

/// The `k`-th step of `path` is an edge.
pub open spec fn steps_along(edges: Seq<(usize, usize)>, path: Seq<usize>, k: int) -> bool {
    edges.contains((path[k], path[k + 1]))
}

/// `b` can be reached from `a` along `edges` (in zero or more steps).
pub open spec fn reachable(edges: Seq<(usize, usize)>, a: usize, b: usize) -> bool {
    exists|path: Seq<usize>| is_path(edges, path) && path[0] == a && path.last() == b
}

/// What the documentation of `tarjan_scc` promises of its result `r` for the
/// graph with nodes `0..n` and `edges`: every node lies in exactly one
/// component, components are non-empty, two nodes share a component exactly
/// when each reaches the other, and components come in reverse topological
/// order (the target of an edge never lies in a later component than its
/// source).
pub open spec fn scc_decomposition(n: nat, edges: Seq<(usize, usize)>, r: Seq<Seq<usize>>) -> bool {
    &&& forall|i: int, j: int| 0 <= i < r.len() && 0 <= j < r[i].len() ==> #[trigger] r[i][j] < n
    &&& forall|i: int| 0 <= i < r.len() ==> (#[trigger] r[i]).len() > 0
    &&& forall|v: usize| v < n ==> #[trigger] in_components(r, v)
    &&& forall|i1: int, j1: int, i2: int, j2: int|
        0 <= i1 < r.len() && 0 <= j1 < r[i1].len() && 0 <= i2 < r.len() && 0 <= j2 < r[i2].len()
            && #[trigger] r[i1][j1] == #[trigger] r[i2][j2] ==> i1 == i2 && j1 == j2
    &&& forall|i1: int, j1: int, i2: int, j2: int|
        0 <= i1 < r.len() && 0 <= j1 < r[i1].len() && 0 <= i2 < r.len() && 0 <= j2 < r[i2].len()
            ==> (i1 == i2 <==> (reachable(edges, #[trigger] r[i1][j1], #[trigger] r[i2][j2])
            && reachable(edges, r[i2][j2], r[i1][j1])))
    &&& forall|i1: int, j1: int, i2: int, j2: int|
        0 <= i1 < r.len() && 0 <= j1 < r[i1].len() && 0 <= i2 < r.len() && 0 <= j2 < r[i2].len()
            && edges.contains((#[trigger] r[i1][j1], #[trigger] r[i2][j2])) ==> i2 <= i1
}

/// Node `v` lies in one of the components `r`.
pub open spec fn in_components(r: Seq<Seq<usize>>, v: usize) -> bool {
    exists|i: int, j: int| 0 <= i < r.len() && 0 <= j < r[i].len() && #[trigger] r[i][j] == v
}

/// Every edge joins two nodes below `n`.
pub open spec fn edges_below(n: nat, edges: Seq<(usize, usize)>) -> bool {
    forall|k: int| 0 <= k < edges.len() ==> (#[trigger] edges[k]).0 < n && edges[k].1 < n
}

/// Calls `Graph::with_capacity`: a graph with no nodes and no edges.
#[verifier::external_body]
fn graph_with_capacity(nodes: usize, edges: usize) -> (g: Graph<(), (), Directed, usize>)
    ensures
        graph_node_count(g) == 0,
        graph_edges(g) == Seq::<(usize, usize)>::empty(),
{
    Graph::with_capacity(nodes, edges)
}

/// Calls `Graph::add_node`: appends a node, whose index is the previous
/// node count, and keeps the edges.
#[verifier::external_body]
fn graph_add_node(g: &mut Graph<(), (), Directed, usize>) -> (n: usize)
    requires
        graph_node_count(*old(g)) < usize::MAX,
    ensures
        n == graph_node_count(*old(g)),
        graph_node_count(*final(g)) == graph_node_count(*old(g)) + 1,
        graph_edges(*final(g)) == graph_edges(*old(g)),
{
    g.add_node(()).index()
}

/// Calls `Graph::add_edge`: appends the edge `a -> b` and keeps the nodes.
#[verifier::external_body]
fn graph_add_edge(g: &mut Graph<(), (), Directed, usize>, a: usize, b: usize)
    requires
        a < graph_node_count(*old(g)),
        b < graph_node_count(*old(g)),
        graph_edges(*old(g)).len() < usize::MAX,
    ensures
        graph_node_count(*final(g)) == graph_node_count(*old(g)),
        graph_edges(*final(g)) == graph_edges(*old(g)).push((a, b)),
{
    g.add_edge(NodeIndex::new(a), NodeIndex::new(b), ());
}

/// The node indices of a list of components.
pub open spec fn components_view(sccs: Seq<Vec<ArenaId>>) -> Seq<Seq<usize>> {
    Seq::new(sccs.len(), |i: int| sccs[i]@.map_values(|id: ArenaId| id.0))
}

/// Calls `petgraph::algo::tarjan_scc`, converting node indices to ids. The
/// result is `tarjan_components` of the graph's nodes and edges, and has the
/// properties its documentation states (see `scc_decomposition`). The
/// implementation recurses along paths of the graph, so a very long path may
/// exhaust the stack; no clause speaks of that, which depends on the machine.
#[verifier::external_body]
fn graph_tarjan_scc(g: &Graph<(), (), Directed, usize>) -> (sccs: Vec<Vec<ArenaId>>)
    requires
        edges_below(graph_node_count(*g), graph_edges(*g)),
    ensures
        components_view(sccs@) == tarjan_components(graph_node_count(*g), graph_edges(*g)),
        scc_decomposition(graph_node_count(*g), graph_edges(*g), components_view(sccs@)),
{
    petgraph::algo::tarjan_scc(g).into_iter().map(
        |scc: Vec<NodeIndex<usize>>| scc.into_iter().map(|n| ArenaId(n.index())).collect(),
    ).collect()
}

/// The edges `i -> c` from every node `i < k` to each of its successors `c`.
pub open spec fn edges_up_to(succ: Seq<Seq<usize>>, k: int) -> Seq<(usize, usize)>
    decreases k,
{
    if k <= 0 {
        Seq::empty()
    } else {
        edges_up_to(succ, k - 1) + succ[k - 1].map_values(|c: usize| ((k - 1) as usize, c))
    }
}

/// The edges of the graph in which node `i` has the successors `succ[i]`.
pub open spec fn successor_edges(succ: Seq<Seq<usize>>) -> Seq<(usize, usize)> {
    edges_up_to(succ, succ.len() as int)
}

pub proof fn lemma_edges_up_to(succ: Seq<Seq<usize>>, k: int)
    requires
        0 <= k <= succ.len(),
        succ.len() <= usize::MAX,
    ensures
        forall|u: usize, v: usize|
            #[trigger] edges_up_to(succ, k).contains((u, v)) <==> (u < k && succ[u as int].contains(v)),
    decreases k,
{
    if k > 0 {
        lemma_edges_up_to(succ, k - 1);
        let prev = edges_up_to(succ, k - 1);
        let add = succ[k - 1].map_values(|c: usize| ((k - 1) as usize, c));
        assert forall|u: usize, v: usize|
            #[trigger] edges_up_to(succ, k).contains((u, v)) <==> (u < k && succ[u as int].contains(
                v,
            )) by {
            assert(edges_up_to(succ, k) == prev + add);
            if (prev + add).contains((u, v)) {
                let idx = choose|idx: int| 0 <= idx < (prev + add).len() && (prev + add)[idx] == (u, v);
                if idx >= prev.len() {
                    assert(add[idx - prev.len()] == (u, v));
                    assert(succ[k - 1][idx - prev.len()] == v);
                    assert(u as int == k - 1);
                    assert(succ[u as int].contains(v));
                } else {
                    assert(prev[idx] == (u, v));
                    assert(prev.contains((u, v)));
                }
            }
            if u < k && succ[u as int].contains(v) {
                if u < k - 1 {
                    assert(edges_up_to(succ, k - 1).contains((u, v)));
                    let idx = choose|idx: int| 0 <= idx < prev.len() && prev[idx] == (u, v);
                    assert((prev + add)[idx] == (u, v));
                    assert((prev + add).contains((u, v)));
                } else {
                    let j = choose|j: int| 0 <= j < succ[u as int].len() && succ[u as int][j] == v;
                    assert(u as int == k - 1);
                    assert(add[j] == (u, v));
                    assert((prev + add)[prev.len() + j] == (u, v));
                    assert((prev + add).contains((u, v)));
                }
            }
        }
    }
}

/// Builds the graph with nodes `0..succ.len()` in which node `i` has an edge
/// to each entry of `succ[i]`, in order, and returns its strongly connected
/// components (see `scc_decomposition`).
pub fn strongly_connected_components(succ: &Vec<Vec<usize>>) -> (sccs: Vec<Vec<ArenaId>>)
    requires
        forall|i: int, j: int|
            0 <= i < succ@.len() && 0 <= j < succ@[i]@.len() ==> #[trigger] succ@[i]@[j] < succ@.len(),
        successor_edges(Seq::new(succ@.len(), |i: int| succ@[i]@)).len() < usize::MAX,
    ensures
        components_view(sccs@) == tarjan_components(
            succ@.len() as nat,
            successor_edges(Seq::new(succ@.len(), |i: int| succ@[i]@)),
        ),
        scc_decomposition(
            succ@.len() as nat,
            successor_edges(Seq::new(succ@.len(), |i: int| succ@[i]@)),
            components_view(sccs@),
        ),
{
    let ghost s = Seq::new(succ@.len(), |i: int| succ@[i]@);
    let n = succ.len();
    let mut g = graph_with_capacity(n, 0);
    let mut i: usize = 0;
    while i < n
        invariant
            n == succ@.len(),
            i <= n,
            graph_node_count(g) == i,
            graph_edges(g) == Seq::<(usize, usize)>::empty(),
        decreases n - i,
    {
        graph_add_node(&mut g);
        i = i + 1;
    }
    proof {
        lemma_edges_up_to_len(s, 0, n as int);
    }
    i = 0;
    while i < n
        invariant
            n == succ@.len(),
            s == Seq::new(succ@.len(), |i: int| succ@[i]@),
            i <= n,
            graph_node_count(g) == n,
            graph_edges(g) == edges_up_to(s, i as int),
            edges_up_to(s, n as int).len() < usize::MAX,
            forall|a: int, b: int|
                0 <= a < succ@.len() && 0 <= b < succ@[a]@.len() ==> #[trigger] succ@[a]@[b] < succ@.len(),
        decreases n - i,
    {
        let targets = &succ[i];
        let mut j: usize = 0;
        proof {
            lemma_edges_up_to_len(s, i as int + 1, n as int);
        }
        while j < targets.len()
            invariant
                n == succ@.len(),
                s == Seq::new(succ@.len(), |i: int| succ@[i]@),
                i < n,
                j <= targets@.len(),
                targets@ == s[i as int],
                graph_node_count(g) == n,
                graph_edges(g) == edges_up_to(s, i as int) + s[i as int].take(j as int).map_values(
                    |c: usize| (i, c),
                ),
                edges_up_to(s, i as int + 1).len() < usize::MAX,
                forall|b: int| 0 <= b < targets@.len() ==> #[trigger] targets@[b] < n,
            decreases targets@.len() - j,
        {
            let ghost before = graph_edges(g);
            graph_add_edge(&mut g, i, targets[j]);
            proof {
                assert(s[i as int].take(j as int + 1).map_values(|c: usize| (i, c)) =~= s[i as int].take(
                    j as int,
                ).map_values(|c: usize| (i, c)).push((i, targets@[j as int])));
            }
            j = j + 1;
        }
        proof {
            assert(s[i as int].take(j as int) =~= s[i as int]);
        }
        i = i + 1;
    }
    proof {
        assert forall|k: int| 0 <= k < graph_edges(g).len() implies (#[trigger] graph_edges(g)[k]).0
            < graph_node_count(g) && graph_edges(g)[k].1 < graph_node_count(g) by {
            lemma_edges_up_to(s, n as int);
            let (u, v) = graph_edges(g)[k];
            assert(graph_edges(g).contains((u, v)));
            let jj = choose|jj: int| 0 <= jj < s[u as int].len() && s[u as int][jj] == v;
            assert(succ@[u as int]@[jj] == v);
        }
    }
    graph_tarjan_scc(&g)
}

pub proof fn lemma_edges_up_to_len(s: Seq<Seq<usize>>, a: int, b: int)
    requires
        0 <= a <= b,
    ensures
        edges_up_to(s, a).len() <= edges_up_to(s, b).len(),
    decreases b - a,
{
    if a < b {
        lemma_edges_up_to_len(s, a, b - 1);
    }
}

} // verus!
