//! Laws of coloring: colors depend on the structure of an expression, not
//! on how its arena shares sub-expressions or where they are stored.
use vstd::prelude::*;

use crate::arena::ArenaId;
use crate::color_graph::{
    colors_consistent, dependency_edges, lemma_reachable_first_step, lemma_reachable_refl,
    lemma_reachable_trans, on_cycle, recolor, refine, refine_all, successors,
};
use crate::coloring::{color_input, color_of, dep_bytes};
use crate::generic_lang::GenericIntrinsic;
use crate::mir::{MirExpr, arena_closed, same_shape};
use crate::scc::{is_path, lemma_edges_up_to, reachable, steps_along};

verus! {

/// Expression `a` of `xs` and expression `b` of `ys` unfold to the same
/// expression tree, of height at most `n`.
pub open spec fn same_tree(xs: Seq<MirExpr>, a: int, ys: Seq<MirExpr>, b: int, n: nat) -> bool
    decreases n,
{
    &&& same_shape(xs[a], ys[b])
    &&& xs[a].children().len() == ys[b].children().len()
    &&& if n == 0 {
        xs[a].children().len() == 0
    } else {
        forall|j: int|
            0 <= j < xs[a].children().len() ==> same_tree(
                xs,
                (#[trigger] xs[a].children()[j]).index() as int,
                ys,
                ys[b].children()[j].index() as int,
                (n - 1) as nat,
            )
    }
}

/// The tree that expression `a` unfolds to has height at most `n`.
pub open spec fn tree_bounded(xs: Seq<MirExpr>, a: int, n: nat) -> bool
    decreases n,
{
    if n == 0 {
        xs[a].children().len() == 0
    } else {
        forall|j: int|
            0 <= j < xs[a].children().len() ==> tree_bounded(
                xs,
                (#[trigger] xs[a].children()[j]).index() as int,
                (n - 1) as nat,
            )
    }
}

proof fn lemma_same_tree_bounded(xs: Seq<MirExpr>, a: int, ys: Seq<MirExpr>, b: int, n: nat)
    requires
        same_tree(xs, a, ys, b, n),
    ensures
        tree_bounded(xs, a, n),
    decreases n,
{
    if n > 0 {
        assert forall|j: int| 0 <= j < xs[a].children().len() implies tree_bounded(
            xs,
            (#[trigger] xs[a].children()[j]).index() as int,
            (n - 1) as nat,
        ) by {
            lemma_same_tree_bounded(
                xs,
                xs[a].children()[j].index() as int,
                ys,
                ys[b].children()[j].index() as int,
                (n - 1) as nat,
            );
        }
    }
}

proof fn lemma_same_tree_sym(xs: Seq<MirExpr>, a: int, ys: Seq<MirExpr>, b: int, n: nat)
    requires
        same_tree(xs, a, ys, b, n),
    ensures
        same_tree(ys, b, xs, a, n),
    decreases n,
{
    if n > 0 {
        assert forall|j: int| 0 <= j < ys[b].children().len() implies same_tree(
            ys,
            (#[trigger] ys[b].children()[j]).index() as int,
            xs,
            xs[a].children()[j].index() as int,
            (n - 1) as nat,
        ) by {
            lemma_same_tree_sym(
                xs,
                xs[a].children()[j].index() as int,
                ys,
                ys[b].children()[j].index() as int,
                (n - 1) as nat,
            );
        }
    }
    match (xs[a], ys[b]) {
        (MirExpr::Lambda(x), MirExpr::Lambda(y)) => {},
        _ => {},
    }
}

/// An edge of the expression graph leads to a sub-expression.
proof fn lemma_edge_is_child(exprs: Seq<MirExpr>, v: usize, c: usize)
    requires
        exprs.len() <= usize::MAX,
        dependency_edges(exprs).contains((v, c)),
    ensures
        v < exprs.len(),
        exists|j: int| 0 <= j < exprs[v as int].children().len() && #[trigger] exprs[v as int].children()[j] == ArenaId(c),
{
    let s = successors(exprs);
    lemma_edges_up_to(s, s.len() as int);
    assert(s[v as int].contains(c));
    let j = choose|j: int| 0 <= j < s[v as int].len() && s[v as int][j] == c;
    assert(exprs[v as int].children()[j].0 == c);
    assert(exprs[v as int].children()[j] == ArenaId(c));
}

proof fn lemma_edge_reachable(edges: Seq<(usize, usize)>, a: usize, b: usize)
    requires
        edges.contains((a, b)),
    ensures
        reachable(edges, a, b),
{
    let path = seq![a, b];
    assert(steps_along(edges, path, 0));
    assert(is_path(edges, path));
    assert(path[0] == a && path.last() == b);
}

proof fn lemma_reachable_compose(edges: Seq<(usize, usize)>, a: usize, b: usize, c: usize)
    requires
        reachable(edges, a, b),
        reachable(edges, b, c),
    ensures
        reachable(edges, a, c),
{
    lemma_reachable_trans(edges, a, b, c);
}

/// An expression whose tree has finite height does not lie on a cycle.
proof fn lemma_bounded_not_on_cycle(exprs: Seq<MirExpr>, v: usize, n: nat)
    requires
        arena_closed(exprs),
        exprs.len() <= usize::MAX,
        v < exprs.len(),
        tree_bounded(exprs, v as int, n),
    ensures
        !on_cycle(dependency_edges(exprs), v),
    decreases n,
{
    let edges = dependency_edges(exprs);
    if on_cycle(edges, v) {
        let c = choose|c: usize| edges.contains((v, c)) && reachable(edges, c, v);
        lemma_edge_is_child(exprs, v, c);
        let j = choose|j: int| 0 <= j < exprs[v as int].children().len() && #[trigger] exprs[v as int].children()[j] == ArenaId(c);
        if n == 0 {
            assert(false);
        } else {
            assert(tree_bounded(exprs, exprs[v as int].children()[j].index() as int, (n - 1) as nat));
            assert(exprs[v as int].children_below(exprs.len()));
            assert(c < exprs.len());
            // `c` lies on a cycle too: it reaches `v`, which has an edge to `c`
            if c == v {
                lemma_reachable_refl(edges, c);
                assert(edges.contains((c, c)) && reachable(edges, c, c));
            } else {
                lemma_reachable_first_step(edges, c, v);
                let d = choose|d: usize| edges.contains((c, d)) && reachable(edges, d, v);
                lemma_edge_reachable(edges, v, c);
                lemma_reachable_compose(edges, d, v, c);
                assert(edges.contains((c, d)) && reachable(edges, d, c));
            }
            assert(on_cycle(edges, c));
            lemma_bounded_not_on_cycle(exprs, c, (n - 1) as nat);
        }
    }
}

/// Expressions of the same shape whose corresponding sub-expressions have
/// equal colors are hashed from the same bytes.
pub proof fn lemma_color_input_congruent(
    cx: Seq<Option<Seq<u8>>>,
    x: MirExpr,
    cy: Seq<Option<Seq<u8>>>,
    y: MirExpr,
)
    requires
        same_shape(x, y),
        x.children().len() == y.children().len(),
        forall|j: int|
            0 <= j < x.children().len() ==> cx[(#[trigger] x.children()[j]).index() as int]
                == cy[y.children()[j].index() as int],
    ensures
        color_input(cx, x) == color_input(cy, y),
{
    match (x, y) {
        (MirExpr::LambdaCall(a), MirExpr::LambdaCall(b)) => {
            assert(x.children()[0] == a.lambda && y.children()[0] == b.lambda);
            assert(x.children()[1] == a.argument && y.children()[1] == b.argument);
            assert(dep_bytes(cx, a.lambda) == dep_bytes(cy, b.lambda));
            assert(dep_bytes(cx, a.argument) == dep_bytes(cy, b.argument));
        },
        (MirExpr::Lambda(a), MirExpr::Lambda(b)) => {
            assert(x.children()[0] == a.body && y.children()[0] == b.body);
            assert(dep_bytes(cx, a.body) == dep_bytes(cy, b.body));
        },
        (MirExpr::Intrinsic(a), MirExpr::Intrinsic(b)) => {
            assert(x.children()[0] == a.spec_edges()[0] && y.children()[0] == b.spec_edges()[0]);
            assert(x.children()[1] == a.spec_edges()[1] && y.children()[1] == b.spec_edges()[1]);
            assert(dep_bytes(cx, a.spec_edges()[0]) == dep_bytes(cy, b.spec_edges()[0]));
            assert(dep_bytes(cx, a.spec_edges()[1]) == dep_bytes(cy, b.spec_edges()[1]));
            match (a, b) {
                (GenericIntrinsic::IfElse(_, _, p), GenericIntrinsic::IfElse(_, _, q)) => {
                    assert(x.children()[2] == p && y.children()[2] == q);
                    assert(dep_bytes(cx, p) == dep_bytes(cy, q));
                },
                _ => {},
            }
        },
        _ => {},
    }
}

/// Colors depend on structure alone: an expression of `xs` and an
/// expression of `ys` that unfold to the same finite tree get the same
/// color, however each arena shares or orders sub-expressions (as
/// `1 + 1` and `let x = 1; in x + x` do).
pub proof fn lemma_same_tree_same_color(
    xs: Seq<MirExpr>,
    cx: Seq<Option<Seq<u8>>>,
    ys: Seq<MirExpr>,
    cy: Seq<Option<Seq<u8>>>,
    a: usize,
    b: usize,
    n: nat,
)
    requires
        arena_closed(xs),
        arena_closed(ys),
        xs.len() <= usize::MAX,
        ys.len() <= usize::MAX,
        cx.len() == xs.len(),
        cy.len() == ys.len(),
        colors_consistent(xs, cx),
        colors_consistent(ys, cy),
        a < xs.len(),
        b < ys.len(),
        same_tree(xs, a as int, ys, b as int, n),
    ensures
        cx[a as int] is Some,
        cx[a as int] == cy[b as int],
    decreases n,
{
    lemma_same_tree_bounded(xs, a as int, ys, b as int, n);
    lemma_same_tree_sym(xs, a as int, ys, b as int, n);
    lemma_same_tree_bounded(ys, b as int, xs, a as int, n);
    lemma_bounded_not_on_cycle(xs, a, n);
    lemma_bounded_not_on_cycle(ys, b, n);
    assert(cx[a as int] == Some(color_of(cx, xs[a as int])));
    assert(cy[b as int] == Some(color_of(cy, ys[b as int])));
    let x = xs[a as int];
    let y = ys[b as int];
    assert forall|j: int| 0 <= j < x.children().len() implies cx[(#[trigger] x.children()[j]).index() as int]
        == cy[y.children()[j].index() as int] by {
        assert(x.children_below(xs.len()));
        assert(y.children_below(ys.len()));
        if n == 0 {
            assert(false);
        } else {
            assert(same_tree(xs, x.children()[j].index() as int, ys, y.children()[j].index() as int, (n - 1) as nat));
            lemma_same_tree_same_color(
                xs,
                cx,
                ys,
                cy,
                x.children()[j].0,
                y.children()[j].0,
                (n - 1) as nat,
            );
        }
    }
    lemma_color_input_congruent(cx, x, cy, y);
}

/// Refining keeps the number of colors and the color of every node outside
/// the component.
pub proof fn lemma_refine_outside(exprs: Seq<MirExpr>, colors: Seq<Option<Seq<u8>>>, scc: Seq<ArenaId>, k: nat)
    ensures
        refine(exprs, colors, scc, k).len() == colors.len(),
        forall|i: int|
            0 <= i < colors.len() && !scc.contains(ArenaId(i as usize)) ==> #[trigger] refine(
                exprs,
                colors,
                scc,
                k,
            )[i] == colors[i],
    decreases k,
{
    if k > 0 {
        lemma_refine_outside(exprs, colors, scc, (k - 1) as nat);
    }
}

/// A component is refined one pass at a time: after `k + 1` passes each
/// node of the component has the color computed from the colors after `k`
/// passes, and every other node keeps the color it had before refining.
pub proof fn lemma_refine_pass(exprs: Seq<MirExpr>, colors: Seq<Option<Seq<u8>>>, scc: Seq<ArenaId>, k: nat)
    ensures
        refine(exprs, colors, scc, k + 1).len() == colors.len(),
        forall|i: int|
            0 <= i < colors.len() ==> #[trigger] refine(exprs, colors, scc, k + 1)[i] == if scc.contains(
                ArenaId(i as usize),
            ) {
                Some(color_of(refine(exprs, colors, scc, k), exprs[i]))
            } else {
                colors[i]
            },
        refine(exprs, colors, scc, k + 1) == recolor(exprs, refine(exprs, colors, scc, k), scc),
{
    lemma_refine_outside(exprs, colors, scc, k);
    lemma_refine_outside(exprs, colors, scc, k + 1);
    assert(refine(exprs, colors, scc, k + 1) == recolor(exprs, refine(exprs, colors, scc, k), scc));
}

/// Passes add up: `a` passes and then `b` more are `a + b` passes.
pub proof fn lemma_refine_compose(
    exprs: Seq<MirExpr>,
    colors: Seq<Option<Seq<u8>>>,
    scc: Seq<ArenaId>,
    a: nat,
    b: nat,
)
    ensures
        refine(exprs, refine(exprs, colors, scc, a), scc, b) == refine(exprs, colors, scc, a + b),
    decreases b,
{
    if b > 0 {
        lemma_refine_compose(exprs, colors, scc, a, (b - 1) as nat);
        lemma_refine_pass(exprs, refine(exprs, colors, scc, a), scc, (b - 1) as nat);
        lemma_refine_pass(exprs, colors, scc, (a + b - 1) as nat);
        assert((a + b - 1) as nat + 1 == a + b);
    }
}

/// Each component is refined with as many passes as it has nodes, after
/// the components before it.
pub proof fn lemma_refine_all_step(
    exprs: Seq<MirExpr>,
    colors: Seq<Option<Seq<u8>>>,
    sccs: Seq<Seq<ArenaId>>,
    scc: Seq<ArenaId>,
)
    ensures
        refine_all(exprs, colors, sccs.push(scc)) == refine(
            exprs,
            refine_all(exprs, colors, sccs),
            scc,
            scc.len(),
        ),
{
    assert(sccs.push(scc).drop_last() =~= sccs);
}

} // verus!
