//! An expression appended to an arena of colored expressions, ready to be
//! colored.
use vstd::prelude::*;

use crate::arena::{ArenaId};
use crate::color_graph::{color_graph, coloring_order, colors_consistent, refine_all};
use crate::coloring::{ColoredExpr, ColoredExprArena, colored_closed, colors_of, exprs_of};
use crate::mir::{MirExpr, RootExpr, same_shape};

verus! {

/// An arena of colored expressions and the id of the root of the expression
/// that was appended to it last.
pub struct ColorableRootExpr {
    arena: ColoredExprArena,
    root_node_id: ArenaId,
}

/// `e` is `prev` taken from an arena appended after `offset` expressions:
/// the same shape, every sub-expression id shifted by `offset`.
pub open spec fn shifted_from(prev: MirExpr, offset: nat, e: MirExpr) -> bool {
    &&& same_shape(prev, e)
    &&& e.children().len() == prev.children().len()
    &&& forall|i: int|
        0 <= i < prev.children().len() ==> (#[trigger] e.children()[i]).index() == prev.children()[i].index()
            + offset
}

/// `e` is `prev` appended after `offset` expressions (see `shifted_from`),
/// with no color yet.
pub open spec fn appended_from(prev: MirExpr, offset: nat, e: ColoredExpr) -> bool {
    &&& e.color is None
    &&& shifted_from(prev, offset, e.expr)
}

impl ColorableRootExpr {
    /// The colored expressions.
    pub closed spec fn spec_arena(&self) -> Seq<ColoredExpr> {
        self.arena@
    }

    /// The id of the root expression.
    pub closed spec fn spec_root(&self) -> ArenaId {
        self.root_node_id
    }

    /// Sub-expressions and the root lie in the arena.
    pub open spec fn wf(&self) -> bool {
        &&& colored_closed(self.spec_arena())
        &&& self.spec_root().index() < self.spec_arena().len()
    }

    /// Appends the expressions of `mir_root` to `arena`, uncolored, with
    /// their sub-expression ids moved past the expressions already there.
    pub fn from_mir_root(arena: ColoredExprArena, mir_root: RootExpr) -> (r: ColorableRootExpr)
        requires
            colored_closed(arena@),
            mir_root.wf(),
            arena@.len() + mir_root.spec_arena().len() <= usize::MAX,
        ensures
            r.wf(),
            r.spec_arena().len() == arena@.len() + mir_root.spec_arena().len(),
            r.spec_arena().subrange(0, arena@.len() as int) == arena@,
            forall|i: int|
                0 <= i < mir_root.spec_arena().len() ==> #[trigger] appended_from(
                    mir_root.spec_arena()[i],
                    arena@.len(),
                    r.spec_arena()[arena@.len() + i],
                ),
            r.spec_root().index() == arena@.len() + mir_root.spec_root().index(),
    {
        let mut arena = arena;
        let ghost start = arena@;
        let ghost mir = mir_root.spec_arena();
        let (og_arena, root_node) = mir_root.into_parts();
        proof {
            assert forall|i: int| 0 <= i < og_arena@.len() implies #[trigger] call_requires(
                ColoredExpr::from_mir,
                (og_arena@[i], start.len() as usize),
            ) by {
                let e = og_arena@[i];
                assert(e.children_below(mir.len()));
                assert forall|k: int| 0 <= k < e.children().len() implies (
                #[trigger] e.children()[k]).index() + start.len() <= usize::MAX by {
                    assert(e.children()[k].index() < mir.len());
                }
            }
        }
        let root_node_id = arena.extend_map(og_arena, root_node, ColoredExpr::from_mir);
        proof {
            let n = arena@.len();
            assert forall|i: int| 0 <= i < mir.len() implies #[trigger] appended_from(
                mir[i],
                start.len(),
                arena@[start.len() + i],
            ) by {
                assert(call_ensures(
                    ColoredExpr::from_mir,
                    (mir[i], start.len() as usize),
                    arena@[start.len() + i],
                ));
            }
            assert forall|j: int| 0 <= j < n implies (#[trigger] exprs_of(arena@)[j]).children_below(
                n,
            ) by {
                let e = exprs_of(arena@)[j];
                if j < start.len() {
                    assert(arena@.subrange(0, start.len() as int)[j] == start[j]);
                    assert(exprs_of(start)[j] == e);
                    assert(exprs_of(start)[j].children_below(start.len()));
                } else {
                    let i = j - start.len();
                    assert(appended_from(mir[i], start.len(), arena@[start.len() + i]));
                    assert(mir[i].children_below(mir.len()));
                    assert forall|k: int| 0 <= k < e.children().len() implies (
                    #[trigger] e.children()[k]).index() < n by {
                        assert(mir[i].children()[k].index() < mir.len());
                    }
                }
            }
        }
        ColorableRootExpr { arena, root_node_id }
    }

    /// The root expression.
    pub fn root_node(&self) -> (e: &ColoredExpr)
        requires
            self.wf(),
        ensures
            *e == self.spec_arena()[self.spec_root().index() as int],
    {
        self.arena.get(self.root_node_id)
    }

    /// The id of the root expression.
    pub fn root_node_id(&self) -> (id: ArenaId)
        ensures
            id == self.spec_root(),
    {
        self.root_node_id
    }

    /// The arena.
    pub fn arena(&self) -> (a: &ColoredExprArena)
        ensures
            a@ == self.spec_arena(),
    {
        &self.arena
    }

    /// The arena, giving up the root id.
    pub fn into_arena(self) -> (a: ColoredExprArena)
        ensures
            a@ == self.spec_arena(),
    {
        self.arena
    }

    /// Colors every expression of the arena (see `color_graph`).
    pub fn color_all(&mut self)
        requires
            old(self).wf(),
            3 * old(self).spec_arena().len() < usize::MAX,
        ensures
            final(self).wf(),
            final(self).spec_root() == old(self).spec_root(),
            exprs_of(final(self).spec_arena()) == exprs_of(old(self).spec_arena()),
            colors_of(final(self).spec_arena()) == refine_all(
                exprs_of(old(self).spec_arena()),
                colors_of(old(self).spec_arena()),
                coloring_order(exprs_of(old(self).spec_arena())),
            ),
            forall|v: int|
                0 <= v < final(self).spec_arena().len() ==> (#[trigger] colors_of(
                    final(self).spec_arena(),
                )[v]) is Some,
            colors_consistent(exprs_of(old(self).spec_arena()), colors_of(final(self).spec_arena())),
    {
        color_graph(&mut self.arena);
        proof {
            assert(exprs_of(self.arena@).len() == self.arena@.len());
        }
    }
}

} // verus!
