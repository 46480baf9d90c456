//! Colors every expression of an arena, component by component.
use vstd::prelude::*;

use crate::arena::{ArenaId};
use crate::coloring::{Color, ColoredExpr, ColoredExprArena, color_input, color_of, colored_closed, colors_of, compute_color, exprs_of};
use crate::mir::{MirExpr, arena_closed};
use crate::scc::{components_view, edges_up_to, in_components, is_path, lemma_edges_up_to, steps_along, reachable, scc_decomposition, strongly_connected_components, successor_edges, tarjan_components};

verus! {

/// The colors after one refinement pass over `scc`: every node of `scc` gets
/// the color computed from `colors`; the others keep theirs.
pub open spec fn recolor(
    exprs: Seq<MirExpr>,
    colors: Seq<Option<Seq<u8>>>,
    scc: Seq<ArenaId>,
) -> Seq<Option<Seq<u8>>> {
    Seq::new(
        colors.len(),
        |i: int|
            if scc.contains(ArenaId(i as usize)) {
                Some(color_of(colors, exprs[i]))
            } else {
                colors[i]
            },
    )
}

/// The colors after `k` refinement passes over `scc`.
pub open spec fn refine(
    exprs: Seq<MirExpr>,
    colors: Seq<Option<Seq<u8>>>,
    scc: Seq<ArenaId>,
    k: nat,
) -> Seq<Option<Seq<u8>>>
    decreases k,
{
    if k == 0 {
        colors
    } else {
        recolor(exprs, refine(exprs, colors, scc, (k - 1) as nat), scc)
    }
}

/// The colors after refining each component of `sccs` in turn, each with as
/// many passes as it has nodes.
pub open spec fn refine_all(
    exprs: Seq<MirExpr>,
    colors: Seq<Option<Seq<u8>>>,
    sccs: Seq<Seq<ArenaId>>,
) -> Seq<Option<Seq<u8>>>
    decreases sccs.len(),
{
    if sccs.len() == 0 {
        colors
    } else {
        let before = refine_all(exprs, colors, sccs.drop_last());
        refine(exprs, before, sccs.last(), sccs.last().len())
    }
}

fn set_color(arena: &mut ColoredExprArena, id: ArenaId, color: Color)
    requires
        old(arena).contains(id),
    ensures
        exprs_of(final(arena)@) == exprs_of(old(arena)@),
        colors_of(final(arena)@) == colors_of(old(arena)@).update(id.index() as int, Some(color.0@)),
{
    let current = *arena.get(id);
    let prev = arena.replace(id, ColoredExpr { expr: current.expr, color: Some(color) });
    assert(exprs_of(arena@) =~= exprs_of(old(arena)@));
    assert(colors_of(arena@) =~= colors_of(old(arena)@).update(id.index() as int, Some(color.0@)));
}

/// Refines the colors of the nodes of one strongly connected component.
///
/// Each of the `scc.len()` passes first computes the colors of all nodes of
/// `scc` from the current colors and then stores them (see `refine`).
pub fn color_refinement(arena: &mut ColoredExprArena, scc: &Vec<ArenaId>)
    requires
        colored_closed(old(arena)@),
        forall|j: int| 0 <= j < scc@.len() ==> old(arena).contains(#[trigger] scc@[j]),
    ensures
        exprs_of(final(arena)@) == exprs_of(old(arena)@),
        colors_of(final(arena)@) == refine(
            exprs_of(old(arena)@),
            colors_of(old(arena)@),
            scc@,
            scc@.len(),
        ),
{
    let ghost exprs = exprs_of(arena@);
    let ghost colors0 = colors_of(arena@);
    let size = arena.size();
    let mut pass: usize = 0;
    while pass < scc.len()
        invariant
            pass <= scc@.len(),
            exprs_of(arena@) == exprs,
            arena_closed(exprs),
            arena@.len() == exprs.len(),
            exprs.len() <= usize::MAX,
            forall|j: int| 0 <= j < scc@.len() ==> arena.contains(#[trigger] scc@[j]),
            colors_of(arena@) == refine(exprs, colors0, scc@, pass as nat),
        decreases scc@.len() - pass,
    {
        let ghost cur = colors_of(arena@);
        // compute all colors in this cycle
        let mut colors: Vec<Color> = Vec::new();
        let mut j: usize = 0;
        while j < scc.len()
            invariant
                j <= scc@.len(),
                exprs_of(arena@) == exprs,
                colors_of(arena@) == cur,
                arena_closed(exprs),
                arena@.len() == exprs.len(),
                forall|k: int| 0 <= k < scc@.len() ==> arena.contains(#[trigger] scc@[k]),
                colors@.len() == j,
                forall|k: int|
                    0 <= k < j ==> (#[trigger] colors@[k]).0@ == color_of(
                        cur,
                        exprs[scc@[k].index() as int],
                    ),
            decreases scc@.len() - j,
        {
            let node = scc[j];
            let expr = arena.get(node).expr;
            proof {
                assert(exprs[node.index() as int] == expr);
            }
            colors.push(compute_color(arena, &expr));
            j = j + 1;
        }
        // update the colors
        j = 0;
        while j < scc.len()
            invariant
                j <= scc@.len(),
                colors@.len() == scc@.len(),
                exprs_of(arena@) == exprs,
                arena@.len() == exprs.len(),
                exprs.len() <= usize::MAX,
                forall|k: int| 0 <= k < scc@.len() ==> arena.contains(#[trigger] scc@[k]),
                forall|k: int|
                    0 <= k < scc@.len() ==> (#[trigger] colors@[k]).0@ == color_of(
                        cur,
                        exprs[scc@[k].index() as int],
                    ),
                colors_of(arena@) == recolor(exprs, cur, scc@.take(j as int)),
                cur.len() == exprs.len(),
            decreases scc@.len() - j,
        {
            let ghost before = colors_of(arena@);
            set_color(arena, scc[j], colors[j]);
            proof {
                let node = scc@[j as int];
                assert forall|i: int| 0 <= i < cur.len() implies #[trigger] colors_of(arena@)[i]
                    == recolor(exprs, cur, scc@.take(j as int + 1))[i] by {
                    let id = ArenaId(i as usize);
                    assert(scc@.take(j as int + 1) == scc@.take(j as int).push(node));
                    if i == node.index() {
                        assert(id == node);
                        assert(scc@.take(j as int + 1)[j as int] == node);
                        assert(scc@.take(j as int + 1).contains(id));
                    } else {
                        assert(cur.len() == exprs.len());
                        assert(i as usize as int == i);
                        assert(id != node);
                        assert(scc@.take(j as int + 1).contains(id) == scc@.take(j as int).contains(id));
                    }
                }
                assert(colors_of(arena@) =~= recolor(exprs, cur, scc@.take(j as int + 1)));
            }
            j = j + 1;
        }
        proof {
            assert(scc@.take(scc@.len() as int) =~= scc@);
        }
        pass = pass + 1;
    }
}

/// The components of a list of components, as sequences of ids.
pub open spec fn sccs_view(sccs: Seq<Vec<ArenaId>>) -> Seq<Seq<ArenaId>> {
    Seq::new(sccs.len(), |i: int| sccs[i]@)
}

/// Colors the components `sccs` in order, each with `color_refinement`.
pub fn color_sccs(arena: &mut ColoredExprArena, sccs: &Vec<Vec<ArenaId>>)
    requires
        colored_closed(old(arena)@),
        forall|i: int, j: int|
            0 <= i < sccs@.len() && 0 <= j < sccs@[i]@.len() ==> old(arena).contains(
                #[trigger] sccs@[i]@[j],
            ),
    ensures
        exprs_of(final(arena)@) == exprs_of(old(arena)@),
        colors_of(final(arena)@) == refine_all(
            exprs_of(old(arena)@),
            colors_of(old(arena)@),
            sccs_view(sccs@),
        ),
{
    let ghost exprs = exprs_of(arena@);
    let ghost colors0 = colors_of(arena@);
    let mut i: usize = 0;
    while i < sccs.len()
        invariant
            i <= sccs@.len(),
            exprs_of(arena@) == exprs,
            colored_closed(arena@),
            arena@.len() == exprs.len(),
            forall|a: int, b: int|
                0 <= a < sccs@.len() && 0 <= b < sccs@[a]@.len() ==> arena.contains(
                    #[trigger] sccs@[a]@[b],
                ),
            colors_of(arena@) == refine_all(exprs, colors0, sccs_view(sccs@).take(i as int)),
        decreases sccs@.len() - i,
    {
        let scc = &sccs[i];
        proof {
            assert(sccs_view(sccs@).take(i as int + 1).drop_last() =~= sccs_view(sccs@).take(
                i as int,
            ));
            assert(sccs_view(sccs@).take(i as int + 1).last() == scc@);
        }
        color_refinement(arena, scc);
        i = i + 1;
    }
    proof {
        assert(sccs_view(sccs@).take(sccs@.len() as int) =~= sccs_view(sccs@));
    }
}

/// The successors of every node: the node indices of its sub-expressions.
pub open spec fn successors(exprs: Seq<MirExpr>) -> Seq<Seq<usize>> {
    Seq::new(exprs.len(), |i: int| exprs[i].children().map_values(|c: ArenaId| c.0))
}

/// The edges of the expression graph: from every expression to each of its
/// sub-expressions.
pub open spec fn dependency_edges(exprs: Seq<MirExpr>) -> Seq<(usize, usize)> {
    successor_edges(successors(exprs))
}

/// The components that the colors are computed in: the strongly connected
/// components of the expression graph, as petgraph's `tarjan_scc` orders them.
pub open spec fn coloring_order(exprs: Seq<MirExpr>) -> Seq<Seq<ArenaId>> {
    let r = tarjan_components(exprs.len(), dependency_edges(exprs));
    Seq::new(r.len(), |i: int| r[i].map_values(|v: usize| ArenaId(v)))
}

proof fn lemma_edges_len(s: Seq<Seq<usize>>, k: int)
    requires
        0 <= k <= s.len(),
        forall|i: int| 0 <= i < s.len() ==> (#[trigger] s[i]).len() <= 3,
    ensures
        edges_up_to(s, k).len() <= 3 * k,
    decreases k,
{
    if k > 0 {
        lemma_edges_len(s, k - 1);
    }
}

/// Colors every expression of the arena.
///
/// The strongly connected components of the expression graph are refined
/// in reverse topological order, so that the sub-expressions outside a
/// component are colored before it.
pub fn color_graph(arena: &mut ColoredExprArena)
    requires
        colored_closed(old(arena)@),
        3 * old(arena)@.len() < usize::MAX,
    ensures
        exprs_of(final(arena)@) == exprs_of(old(arena)@),
        colors_of(final(arena)@) == refine_all(
            exprs_of(old(arena)@),
            colors_of(old(arena)@),
            coloring_order(exprs_of(old(arena)@)),
        ),
        forall|v: int| 0 <= v < final(arena)@.len() ==> (#[trigger] colors_of(final(arena)@)[v]) is Some,
        colors_consistent(exprs_of(old(arena)@), colors_of(final(arena)@)),
{
    let ghost exprs = exprs_of(arena@);
    let ghost colors0 = colors_of(arena@);
    let n = arena.size();
    let mut succ: Vec<Vec<usize>> = Vec::new();
    let mut i: usize = 0;
    while i < n
        invariant
            n == exprs.len(),
            exprs_of(arena@) == exprs,
            arena@.len() == n,
            arena_closed(exprs),
            i <= n,
            succ@.len() == i,
            forall|k: int| 0 <= k < i ==> (#[trigger] succ@[k])@ == successors(exprs)[k],
        decreases n - i,
    {
        let expr = arena.get(ArenaId::new(i)).expr;
        let edges = expr.edges();
        let mut targets: Vec<usize> = Vec::new();
        let mut j: usize = 0;
        while j < edges.len()
            invariant
                j <= edges@.len(),
                targets@.len() == j,
                forall|k: int| 0 <= k < j ==> targets@[k] == (#[trigger] edges@[k]).0,
            decreases edges@.len() - j,
        {
            targets.push(edges[j].idx());
            j = j + 1;
        }
        proof {
            assert(exprs[i as int] == expr);
            assert(targets@ =~= expr.children().map_values(|c: ArenaId| c.0));
        }
        succ.push(targets);
        i = i + 1;
    }
    proof {
        let s = Seq::new(succ@.len(), |k: int| succ@[k]@);
        assert(s =~= successors(exprs));
        assert forall|k: int| 0 <= k < s.len() implies (#[trigger] s[k]).len() <= 3 by {
            assert(s[k].len() == exprs[k].children().len());
        }
        lemma_edges_len(s, s.len() as int);
        assert forall|a: int, b: int|
            0 <= a < succ@.len() && 0 <= b < succ@[a]@.len() implies #[trigger] succ@[a]@[b]
            < succ@.len() by {
            assert(succ@[a]@[b] == exprs[a].children()[b].0);
            assert(exprs[a].children_below(exprs.len()));
        }
    }
    let sccs = strongly_connected_components(&succ);
    proof {
        let s = Seq::new(succ@.len(), |k: int| succ@[k]@);
        assert(s =~= successors(exprs));
        let r = tarjan_components(n as nat, dependency_edges(exprs));
        assert(components_view(sccs@) == r);
        assert forall|a: int, b: int|
            0 <= a < sccs@.len() && 0 <= b < sccs@[a]@.len() implies arena.contains(
            #[trigger] sccs@[a]@[b],
        ) by {
            assert(components_view(sccs@)[a][b] == sccs@[a]@[b].0);
            assert(r[a][b] < n);
        }
        assert(sccs_view(sccs@) =~= coloring_order(exprs)) by {
            assert forall|a: int| 0 <= a < sccs@.len() implies #[trigger] sccs_view(sccs@)[a]
                =~= coloring_order(exprs)[a] by {
                assert(components_view(sccs@)[a] == r[a]);
                assert forall|b: int| 0 <= b < sccs@[a]@.len() implies sccs@[a]@[b] == ArenaId(
                    r[a][b],
                ) by {
                    assert(components_view(sccs@)[a][b] == sccs@[a]@[b].0);
                }
            }
        }
    }
    proof {
        let s = Seq::new(succ@.len(), |k: int| succ@[k]@);
        assert(s =~= successors(exprs));
        assert(scc_decomposition(
            exprs.len(),
            dependency_edges(exprs),
            tarjan_components(exprs.len(), dependency_edges(exprs)),
        ));
    }
    color_sccs(arena, &sccs);
    proof {
        assert forall|v: int| 0 <= v < arena@.len() implies (#[trigger] colors_of(arena@)[v]) is Some by {
            lemma_all_colored(exprs, colors0, v as usize);
        }
        assert forall|v: usize|
            v < exprs.len() && !on_cycle(dependency_edges(exprs), v) implies #[trigger] colors_of(arena@)[v as int]
            == Some(color_of(colors_of(arena@), exprs[v as int])) by {
            lemma_acyclic_colors(exprs, colors0, v);
        }
    }
}

/// Every expression that does not lie on a cycle of the expression graph
/// has the color computed from the colors of its sub-expressions; this is
/// what `color_graph` establishes.
pub open spec fn colors_consistent(exprs: Seq<MirExpr>, colors: Seq<Option<Seq<u8>>>) -> bool {
    forall|v: usize|
        v < exprs.len() && !on_cycle(dependency_edges(exprs), v) ==> #[trigger] colors[v as int] == Some(
            color_of(colors, exprs[v as int]),
        )
}

/// Node `v` lies on a cycle of the graph: one of its successors reaches it.
pub open spec fn on_cycle(edges: Seq<(usize, usize)>, v: usize) -> bool {
    exists|c: usize| edges.contains((v, c)) && reachable(edges, c, v)
}

proof fn lemma_refine_len(exprs: Seq<MirExpr>, colors: Seq<Option<Seq<u8>>>, scc: Seq<ArenaId>, k: nat)
    ensures
        refine(exprs, colors, scc, k).len() == colors.len(),
    decreases k,
{
    if k > 0 {
        lemma_refine_len(exprs, colors, scc, (k - 1) as nat);
    }
}

proof fn lemma_refine_all_len(exprs: Seq<MirExpr>, colors: Seq<Option<Seq<u8>>>, sccs: Seq<Seq<ArenaId>>)
    ensures
        refine_all(exprs, colors, sccs).len() == colors.len(),
    decreases sccs.len(),
{
    if sccs.len() > 0 {
        lemma_refine_all_len(exprs, colors, sccs.drop_last());
        lemma_refine_len(exprs, refine_all(exprs, colors, sccs.drop_last()), sccs.last(), sccs.last().len());
    }
}

/// Refining a component leaves the colors of other nodes alone, keeps
/// colors present and colors the nodes of the component.
proof fn lemma_refine_node(
    exprs: Seq<MirExpr>,
    colors: Seq<Option<Seq<u8>>>,
    scc: Seq<ArenaId>,
    k: nat,
    u: int,
)
    requires
        0 <= u < colors.len(),
        u <= usize::MAX,
    ensures
        !scc.contains(ArenaId(u as usize)) ==> refine(exprs, colors, scc, k)[u] == colors[u],
        colors[u] is Some ==> refine(exprs, colors, scc, k)[u] is Some,
        scc.contains(ArenaId(u as usize)) && k >= 1 ==> refine(exprs, colors, scc, k)[u] is Some,
    decreases k,
{
    if k > 0 {
        lemma_refine_node(exprs, colors, scc, (k - 1) as nat, u);
        lemma_refine_len(exprs, colors, scc, (k - 1) as nat);
    }
}

/// Components after position `a` that do not hold `u` leave its color alone.
proof fn lemma_refine_all_frame(
    exprs: Seq<MirExpr>,
    colors: Seq<Option<Seq<u8>>>,
    sccs: Seq<Seq<ArenaId>>,
    a: int,
    u: int,
)
    requires
        0 <= a <= sccs.len(),
        0 <= u < colors.len(),
        u <= usize::MAX,
        forall|i: int| a <= i < sccs.len() ==> !(#[trigger] sccs[i]).contains(ArenaId(u as usize)),
    ensures
        refine_all(exprs, colors, sccs)[u] == refine_all(exprs, colors, sccs.take(a))[u],
    decreases sccs.len() - a,
{
    if sccs.len() == a {
        assert(sccs.take(a) =~= sccs);
    } else {
        let prefix = sccs.drop_last();
        assert(prefix.take(a) =~= sccs.take(a));
        assert forall|i: int| a <= i < prefix.len() implies !(#[trigger] prefix[i]).contains(
            ArenaId(u as usize),
        ) by {
            assert(prefix[i] == sccs[i]);
        }
        lemma_refine_all_frame(exprs, colors, prefix, a, u);
        lemma_refine_all_len(exprs, colors, prefix);
        lemma_refine_node(exprs, refine_all(exprs, colors, prefix), sccs.last(), sccs.last().len(), u);
    }
}

/// A node that lies in one of the components gets a color.
proof fn lemma_refine_all_colored(
    exprs: Seq<MirExpr>,
    colors: Seq<Option<Seq<u8>>>,
    sccs: Seq<Seq<ArenaId>>,
    i: int,
    u: int,
)
    requires
        0 <= i < sccs.len(),
        0 <= u < colors.len(),
        u <= usize::MAX,
        sccs[i].contains(ArenaId(u as usize)),
    ensures
        refine_all(exprs, colors, sccs)[u] is Some,
    decreases sccs.len(),
{
    let prefix = sccs.drop_last();
    lemma_refine_all_len(exprs, colors, prefix);
    if i == sccs.len() - 1 {
        lemma_refine_node(exprs, refine_all(exprs, colors, prefix), sccs.last(), sccs.last().len(), u);
    } else {
        assert(prefix[i] == sccs[i]);
        lemma_refine_all_colored(exprs, colors, prefix, i, u);
        lemma_refine_node(exprs, refine_all(exprs, colors, prefix), sccs.last(), sccs.last().len(), u);
    }
}

/// The color of `e` only depends on the colors of its sub-expressions.
pub proof fn lemma_color_of_congruent(c1: Seq<Option<Seq<u8>>>, c2: Seq<Option<Seq<u8>>>, e: MirExpr)
    requires
        forall|j: int|
            0 <= j < e.children().len() ==> c1[(#[trigger] e.children()[j]).index() as int]
                == c2[e.children()[j].index() as int],
    ensures
        color_of(c1, e) == color_of(c2, e),
{
    match e {
        MirExpr::LambdaCall(c) => {
            assert(e.children()[0] == c.lambda);
            assert(e.children()[1] == c.argument);
        },
        MirExpr::Lambda(l) => {
            assert(e.children()[0] == l.body);
        },
        MirExpr::Intrinsic(i) => {
            assert(e.children()[0] == i.spec_edges()[0]);
            assert(e.children()[1] == i.spec_edges()[1]);
            if i.spec_edges().len() == 3 {
                assert(e.children()[2] == i.spec_edges()[2]);
            }
        },
        _ => {},
    }
    assert(color_input(c1, e) =~= color_input(c2, e));
}

pub proof fn lemma_reachable_refl(edges: Seq<(usize, usize)>, a: usize)
    ensures
        reachable(edges, a, a),
{
    let path = seq![a];
    assert(is_path(edges, path));
    assert(path[0] == a && path.last() == a);
}

pub proof fn lemma_reachable_trans(edges: Seq<(usize, usize)>, a: usize, b: usize, c: usize)
    requires
        reachable(edges, a, b),
        reachable(edges, b, c),
    ensures
        reachable(edges, a, c),
{
    let p1 = choose|p: Seq<usize>| is_path(edges, p) && p[0] == a && p.last() == b;
    let p2 = choose|p: Seq<usize>| is_path(edges, p) && p[0] == b && p.last() == c;
    let path = p1 + p2.drop_first();
    assert forall|k: int| 0 <= k < path.len() - 1 implies #[trigger] steps_along(edges, path, k) by {
        if k < p1.len() - 1 {
            assert(steps_along(edges, p1, k));
            assert(path[k] == p1[k] && path[k + 1] == p1[k + 1]);
        } else if k == p1.len() - 1 {
            assert(steps_along(edges, p2, 0));
            assert(path[k] == b && path[k + 1] == p2[1]);
            assert(p2[0] == b);
        } else {
            let m = k - p1.len() + 1;
            assert(steps_along(edges, p2, m));
            assert(path[k] == p2[m] && path[k + 1] == p2[m + 1]);
        }
    }
    if p2.len() == 1 {
        assert(path =~= p1);
    } else {
        assert(path.last() == p2.last());
    }
}

/// A node that reaches another one has a successor that reaches it.
pub proof fn lemma_reachable_first_step(edges: Seq<(usize, usize)>, a: usize, b: usize)
    requires
        reachable(edges, a, b),
        a != b,
    ensures
        exists|c: usize| edges.contains((a, c)) && reachable(edges, c, b),
{
    let p = choose|p: Seq<usize>| is_path(edges, p) && p[0] == a && p.last() == b;
    assert(p.len() >= 2);
    let rest = p.drop_first();
    assert(steps_along(edges, p, 0));
    assert(edges.contains((a, p[1])));
    assert forall|k: int| 0 <= k < rest.len() - 1 implies #[trigger] steps_along(edges, rest, k) by {
        assert(steps_along(edges, p, k + 1));
        assert(rest[k] == p[k + 1] && rest[k + 1] == p[k + 2]);
    }
    assert(is_path(edges, rest) && rest[0] == p[1] && rest.last() == b);
    assert(reachable(edges, p[1], b));
    assert(edges.contains((a, p[1])) && reachable(edges, p[1], b));
}

proof fn lemma_dependency_edge(exprs: Seq<MirExpr>, v: int, j: int)
    requires
        0 <= v < exprs.len(),
        exprs.len() <= usize::MAX,
        0 <= j < exprs[v].children().len(),
    ensures
        dependency_edges(exprs).contains((v as usize, exprs[v].children()[j].0)),
{
    let s = successors(exprs);
    lemma_edges_up_to(s, s.len() as int);
    assert(s[v].contains(exprs[v].children()[j].0)) by {
        assert(s[v][j] == exprs[v].children()[j].0);
    }
}

/// After `color_graph`, every expression that does not lie on a cycle has
/// the color computed from the final colors of its sub-expressions.
proof fn lemma_acyclic_colors(exprs: Seq<MirExpr>, colors: Seq<Option<Seq<u8>>>, v: usize)
    requires
        arena_closed(exprs),
        exprs.len() <= usize::MAX,
        colors.len() == exprs.len(),
        v < exprs.len(),
        scc_decomposition(
            exprs.len(),
            dependency_edges(exprs),
            tarjan_components(exprs.len(), dependency_edges(exprs)),
        ),
        !on_cycle(dependency_edges(exprs), v),
    ensures
        refine_all(exprs, colors, coloring_order(exprs))[v as int] == Some(
            color_of(refine_all(exprs, colors, coloring_order(exprs)), exprs[v as int]),
        ),
{
    let n = exprs.len();
    let edges = dependency_edges(exprs);
    let r = tarjan_components(n, edges);
    let order = coloring_order(exprs);
    let fin = refine_all(exprs, colors, order);
    assert(in_components(r, v));
    let (p, jv) = choose|i: int, j: int| 0 <= i < r.len() && 0 <= j < r[i].len() && #[trigger] r[i][j] == v;
    // the component of `v` holds `v` alone
    if r[p].len() >= 2 {
        let j2 = if jv == 0 { 1int } else { 0int };
        let u = r[p][j2];
        assert(u != v);
        assert(reachable(edges, r[p][jv], r[p][j2]) && reachable(edges, r[p][j2], r[p][jv]));
        lemma_reachable_first_step(edges, v, u);
        let c = choose|c: usize| edges.contains((v, c)) && reachable(edges, c, u);
        lemma_reachable_trans(edges, c, u, v);
        assert(on_cycle(edges, v));
    }
    assert(jv == 0);
    assert(order[p] =~= seq![ArenaId(v)]);
    // no later component holds `v`
    assert forall|i: int| p + 1 <= i < order.len() implies !(#[trigger] order[i]).contains(ArenaId(v)) by {
        if order[i].contains(ArenaId(v)) {
            let j = choose|j: int| 0 <= j < order[i].len() && order[i][j] == ArenaId(v);
            assert(r[i][j] == v);
        }
    }
    lemma_refine_all_len(exprs, colors, order);
    lemma_refine_all_frame(exprs, colors, order, p + 1, v as int);
    let before = refine_all(exprs, colors, order.take(p));
    lemma_refine_all_len(exprs, colors, order.take(p));
    assert(order.take(p + 1).drop_last() =~= order.take(p));
    assert(order.take(p + 1).last() == order[p]);
    assert(order[p].len() == 1);
    assert(refine(exprs, before, order[p], 0) == before);
    assert(refine(exprs, before, order[p], 1) == recolor(exprs, before, order[p]));
    assert(order[p][0] == ArenaId(v));
    assert(order[p].contains(ArenaId(v as int as usize)));
    assert(fin[v as int] == Some(color_of(before, exprs[v as int])));
    // every sub-expression lies in an earlier component and keeps its color
    let e = exprs[v as int];
    assert forall|j: int| 0 <= j < e.children().len() implies before[(#[trigger] e.children()[j]).index() as int]
        == fin[e.children()[j].index() as int] by {
        let c = e.children()[j].0;
        assert(e.children_below(n));
        lemma_dependency_edge(exprs, v as int, j);
        assert(in_components(r, c));
        let (q, jc) = choose|i: int, k: int| 0 <= i < r.len() && 0 <= k < r[i].len() && #[trigger] r[i][k] == c;
        assert(edges.contains((r[p][0], r[q][jc])));
        assert(q <= p);
        if q == p {
            assert(c == v);
            lemma_reachable_refl(edges, v);
            assert(on_cycle(edges, v));
        }
        assert forall|i: int| q + 1 <= i < order.len() implies !(#[trigger] order[i]).contains(
            ArenaId(c),
        ) by {
            if order[i].contains(ArenaId(c)) {
                let k = choose|k: int| 0 <= k < order[i].len() && order[i][k] == ArenaId(c);
                assert(r[i][k] == c);
            }
        }
        lemma_refine_all_frame(exprs, colors, order, q + 1, c as int);
        let pre = order.take(p);
        assert forall|i: int| q + 1 <= i < pre.len() implies !(#[trigger] pre[i]).contains(
            ArenaId(c),
        ) by {
            assert(pre[i] == order[i]);
        }
        lemma_refine_all_frame(exprs, colors, pre, q + 1, c as int);
        assert(pre.take(q + 1) =~= order.take(q + 1));
    }
    lemma_color_of_congruent(before, fin, e);
}

/// After `color_graph`, every expression has a color.
proof fn lemma_all_colored(exprs: Seq<MirExpr>, colors: Seq<Option<Seq<u8>>>, v: usize)
    requires
        exprs.len() <= usize::MAX,
        colors.len() == exprs.len(),
        v < exprs.len(),
        scc_decomposition(
            exprs.len(),
            dependency_edges(exprs),
            tarjan_components(exprs.len(), dependency_edges(exprs)),
        ),
    ensures
        refine_all(exprs, colors, coloring_order(exprs))[v as int] is Some,
{
    let r = tarjan_components(exprs.len(), dependency_edges(exprs));
    let order = coloring_order(exprs);
    assert(in_components(r, v));
    let (p, jv) = choose|i: int, j: int| 0 <= i < r.len() && 0 <= j < r[i].len() && #[trigger] r[i][j] == v;
    assert(order[p][jv] == ArenaId(v));
    assert(order[p].contains(ArenaId(v as int as usize)));
    lemma_refine_all_colored(exprs, colors, order, p, v as int);
}

} // verus!
