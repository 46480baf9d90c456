//! The mid-level representation that expressions are evaluated in.
use vstd::prelude::*;

use crate::arena::{Arena, ArenaId};
use crate::generic_lang::{GenericIntrinsic, GenericLambda, GenericLambdaCall, Param};

verus! {

/// A literal value.
#[derive(Clone, Copy, PartialEq, Eq, Hash, Debug)]
pub enum Literal {
    Integer(i64),
}

/// An application whose sub-expressions are arena ids.
pub type MirLambdaCall = GenericLambdaCall<ArenaId>;

/// A lambda whose body is an arena id.
pub type MirLambda = GenericLambda<ArenaId>;

/// An intrinsic whose operands are arena ids.
pub type MirIntrinsic = GenericIntrinsic<ArenaId>;

/// An expression; sub-expressions are ids into the arena that holds it.
#[derive(Clone, Copy, Debug)]
pub enum MirExpr {
    LambdaCall(MirLambdaCall),
    Lambda(MirLambda),
    Literal(Literal),
    Param(Param),
    Intrinsic(MirIntrinsic),
}

impl MirExpr {
    /// The sub-expressions, in field order.
    pub open spec fn children(self) -> Seq<ArenaId> {
        match self {
            MirExpr::LambdaCall(c) => c.spec_edges(),
            MirExpr::Lambda(l) => seq![l.body],
            MirExpr::Literal(_) => Seq::empty(),
            MirExpr::Param(_) => Seq::empty(),
            MirExpr::Intrinsic(i) => i.spec_edges(),
        }
    }

    /// Every sub-expression lies below `len`.
    pub open spec fn children_below(self, len: nat) -> bool {
        forall|i: int| 0 <= i < self.children().len() ==> (#[trigger] self.children()[i]).index() < len
    }

    /// The sub-expressions, in field order.
    pub fn edges(&self) -> (e: Vec<ArenaId>)
        ensures
            e@ == self.children(),
    {
        match self {
            MirExpr::LambdaCall(c) => c.edges(),
            MirExpr::Lambda(l) => {
                let mut e: Vec<ArenaId> = Vec::new();
                e.push(l.body);
                e
            },
            MirExpr::Literal(_) => Vec::new(),
            MirExpr::Param(_) => Vec::new(),
            MirExpr::Intrinsic(i) => i.edges(),
        }
    }

    /// The names of the fields that hold the sub-expressions.
    pub open spec fn labels(self) -> Seq<Seq<char>> {
        match self {
            MirExpr::LambdaCall(_) => seq!["lambda"@, "argument"@],
            MirExpr::Lambda(_) => seq!["body"@],
            MirExpr::Literal(_) => Seq::empty(),
            MirExpr::Param(_) => Seq::empty(),
            MirExpr::Intrinsic(i) => i.spec_labels(),
        }
    }

    /// The sub-expressions, in field order, each with the name of its field.
    pub fn edges_labeled(&self) -> (e: Vec<(ArenaId, &'static str)>)
        ensures
            e@.len() == self.children().len(),
            forall|i: int|
                0 <= i < e@.len() ==> (#[trigger] e@[i]).0 == self.children()[i] && e@[i].1@
                    == self.labels()[i],
    {
        match self {
            MirExpr::LambdaCall(c) => c.edges_labeled(),
            MirExpr::Lambda(l) => l.children(),
            MirExpr::Literal(_) => Vec::new(),
            MirExpr::Param(_) => Vec::new(),
            MirExpr::Intrinsic(i) => i.edges_labeled(),
        }
    }

    /// The same expression with every sub-expression id shifted by `offset`,
    /// as when its arena is appended after `offset` other expressions.
    pub fn shifted(self, offset: usize) -> (e: MirExpr)
        requires
            forall|i: int|
                0 <= i < self.children().len() ==> (#[trigger] self.children()[i]).index() + offset
                    <= usize::MAX,
        ensures
            e.children().len() == self.children().len(),
            forall|i: int|
                0 <= i < self.children().len() ==> (#[trigger] e.children()[i]).index()
                    == self.children()[i].index() + offset,
            same_shape(self, e),
    {
        let shift = |id: ArenaId| -> (r: ArenaId)
            requires
                id.index() + offset <= usize::MAX,
            ensures
                r.index() == id.index() + offset,
            { id.shifted(offset) };
        match self {
            MirExpr::LambdaCall(c) => {
                proof {
                    assert(self.children()[0] == c.lambda);
                    assert(self.children()[1] == c.argument);
                    assert(self.children()[0].index() + offset <= usize::MAX);
                    assert(self.children()[1].index() + offset <= usize::MAX);
                }
                let r = c.convert_inner(shift);
                let res = MirExpr::LambdaCall(r);
                proof {
                    assert(res.children() =~= seq![r.lambda, r.argument]);
                    assert(self.children() =~= seq![c.lambda, c.argument]);
                    assert(r.lambda.index() == c.lambda.index() + offset);
                    assert(r.argument.index() == c.argument.index() + offset);
                    assert forall|i: int|
                        0 <= i < self.children().len() implies (#[trigger] res.children()[i]).index()
                        == self.children()[i].index() + offset by {
                        if i == 0 {
                            assert(res.children()[0] == r.lambda);
                        } else {
                            assert(res.children()[1] == r.argument);
                        }
                    }
                }
                res
            },
            MirExpr::Lambda(l) => {
                proof {
                    assert(self.children()[0] == l.body);
                    assert(self.children()[0].index() + offset <= usize::MAX);
                }
                let r = l.convert_inner(shift);
                let res = MirExpr::Lambda(r);
                proof {
                    assert(res.children()[0] == r.body);
                }
                res
            },
            MirExpr::Literal(lit) => MirExpr::Literal(lit),
            MirExpr::Param(p) => MirExpr::Param(p),
            MirExpr::Intrinsic(i) => {
                proof {
                    assert forall|k: int| 0 <= k < i.spec_edges().len() implies #[trigger] shift.requires(
                        (i.spec_edges()[k],),
                    ) by {
                        assert(self.children()[k] == i.spec_edges()[k]);
                    }
                }
                let r = i.convert_inner(shift);
                let res = MirExpr::Intrinsic(r);
                proof {
                    assert forall|k: int|
                        0 <= k < self.children().len() implies (#[trigger] res.children()[k]).index()
                        == self.children()[k].index() + offset by {
                        assert(shift.ensures((i.spec_edges()[k],), r.spec_edges()[k]));
                    }
                }
                res
            },
        }
    }
}

/// `a` and `b` are the same expression apart from their sub-expression ids.
pub open spec fn same_shape(a: MirExpr, b: MirExpr) -> bool {
    match (a, b) {
        (MirExpr::LambdaCall(_), MirExpr::LambdaCall(_)) => true,
        (MirExpr::Lambda(x), MirExpr::Lambda(y)) => x.param == y.param,
        (MirExpr::Literal(x), MirExpr::Literal(y)) => x == y,
        (MirExpr::Param(x), MirExpr::Param(y)) => x == y,
        (MirExpr::Intrinsic(x), MirExpr::Intrinsic(y)) => crate::generic_lang::intrinsic_index(x)
            == crate::generic_lang::intrinsic_index(y),
        _ => false,
    }
}

/// Every sub-expression of every expression lies in the arena.
pub open spec fn arena_closed(a: Seq<MirExpr>) -> bool {
    forall|i: int| 0 <= i < a.len() ==> (#[trigger] a[i]).children_below(a.len())
}

/// A self-contained expression: an arena and the id of its root.
pub struct RootExpr {
    arena: Arena<MirExpr>,
    root: ArenaId,
}

impl RootExpr {
    /// The expressions of the arena.
    pub closed spec fn spec_arena(&self) -> Seq<MirExpr> {
        self.arena@
    }

    /// The id of the root expression.
    pub closed spec fn spec_root(&self) -> ArenaId {
        self.root
    }

    /// Sub-expression ids and the root lie in the arena.
    pub open spec fn wf(&self) -> bool {
        &&& arena_closed(self.spec_arena())
        &&& self.spec_root().index() < self.spec_arena().len()
    }

    /// The expression rooted at `root` in `arena`.
    pub fn new(arena: Arena<MirExpr>, root: ArenaId) -> (r: RootExpr)
        requires
            arena_closed(arena@),
            arena.contains(root),
        ensures
            r.spec_arena() == arena@,
            r.spec_root() == root,
            r.wf(),
    {
        RootExpr { arena, root }
    }

    /// The number of expressions.
    pub fn size(&self) -> (n: usize)
        ensures
            n == self.spec_arena().len(),
    {
        self.arena.size()
    }

    /// The arena and the root id.
    pub fn into_parts(self) -> (parts: (Arena<MirExpr>, ArenaId))
        ensures
            parts.0@ == self.spec_arena(),
            parts.1 == self.spec_root(),
    {
        (self.arena, self.root)
    }
}

} // verus!
