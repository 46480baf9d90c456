//! What lowering a syntax tree means: which expression graph is the
//! lowering of which syntax tree.
use vstd::prelude::*;

use crate::generic_lang::Param;
use crate::lazy_arena::{
    LazyArenaId, MaybeOrRef, entry_next, flat_index, lemma_reaches_step, lemma_resolution_reaches, reaches,
    resolution,
};
use crate::lower::{Ast, BinOp, Bindings, bound_names};
use crate::mir::{Literal, MirExpr, same_shape};

verus! {

/// The innermost binding of `x` in `env` (the last one).
pub open spec fn env_lookup<T>(env: Seq<(u64, T)>, x: u64) -> Option<T>
    decreases env.len(),
{
    if env.len() == 0 {
        None
    } else if env.last().0 == x {
        Some(env.last().1)
    } else {
        env_lookup(env.drop_last(), x)
    }
}

/// `env` with the names `names` bound, in order, to `ms`.
pub open spec fn let_env<T>(env: Seq<(u64, T)>, names: Seq<u64>, ms: Seq<T>) -> Seq<(u64, T)> {
    env + Seq::new(names.len(), |j: int| (names[j], ms[j]))
}

/// The intrinsic (see `intrinsic_index`) that a binary operator lowers to.
pub open spec fn binop_index(op: BinOp) -> u8 {
    match op {
        BinOp::LessOrEq => 1,
        BinOp::Add => 2,
        BinOp::Subtract => 3,
    }
}

/// What a name in scope stands for in a lowered expression: the parameter
/// of the lambda at a nesting depth, or an expression of the arena.
pub enum Meaning {
    Param(usize),
    Node(usize),
}

/// The meanings of let-bound names whose expressions are `ids`.
pub open spec fn node_meanings(ids: Seq<usize>) -> Seq<Meaning> {
    ids.map_values(|i: usize| Meaning::Node(i))
}

/// Node `x` has the operator that `ast` lowers to at lambda depth `depth`:
/// an integer a literal, a lambda a lambda whose parameter is at `depth`,
/// an application a lambda call, an operator its intrinsic, a conditional
/// the `IfElse` intrinsic.
pub open spec fn head_of(x: MirExpr, ast: Ast, depth: nat) -> bool {
    match ast {
        Ast::Integer(n) => x == MirExpr::Literal(Literal::Integer(n)),
        Ast::Lambda(_, _) => x is Lambda && x->Lambda_0.param.depth == depth,
        Ast::Apply(_, _) => x is LambdaCall,
        Ast::BinOp(op, _, _) => x is Intrinsic && crate::generic_lang::intrinsic_index(x->Intrinsic_0) == binop_index(op),
        Ast::IfElse(_, _, _) => x is Intrinsic && crate::generic_lang::intrinsic_index(x->Intrinsic_0) == 4,
        _ => false,
    }
}

/// Expression `id` of arena `a` is the lowering of `ast`, where the names in
/// scope mean `env` and `depth` lambdas enclose it: an integer is its
/// literal; a name bound by a lambda is a parameter at that lambda's depth,
/// a name bound by a `let` is the expression it is bound to; a lambda is a
/// lambda at `depth` whose body is the lowering of its body one level
/// deeper; an application, operator or conditional is its node over the
/// lowerings of its operands, in order; a `let` binds its names to
/// expressions that are the lowerings of the bound expressions (with all
/// its names in scope), and is the lowering of its body.
pub open spec fn denotes(a: Seq<MirExpr>, id: int, ast: Ast, env: Seq<(u64, Meaning)>, depth: nat) -> bool
    decreases ast,
{
    match ast {
        Ast::Ident(x) => match env_lookup(env, x) {
            Some(Meaning::Param(d)) => 0 <= id < a.len() && a[id] == MirExpr::Param(Param { depth: d }),
            Some(Meaning::Node(j)) => id == j,
            None => false,
        },
        Ast::LetIn(bs, body) => exists|ids: Seq<usize>|
            ids.len() == bound_names(*bs).len() && bindings_denote(
                a,
                ids,
                *bs,
                let_env(env, bound_names(*bs), #[trigger] node_meanings(ids)),
                depth,
            ) && denotes(a, id, *body, let_env(env, bound_names(*bs), node_meanings(ids)), depth),
        Ast::Lambda(x, b) => 0 <= id < a.len() && head_of(a[id], ast, depth) && denotes(
            a,
            a[id].children()[0].index() as int,
            *b,
            env.push((x, Meaning::Param(depth as usize))),
            depth + 1,
        ),
        Ast::Apply(f, g) => 0 <= id < a.len() && head_of(a[id], ast, depth) && denotes(
            a,
            a[id].children()[0].index() as int,
            *f,
            env,
            depth,
        ) && denotes(a, a[id].children()[1].index() as int, *g, env, depth),
        Ast::BinOp(_, l, r) => 0 <= id < a.len() && head_of(a[id], ast, depth) && denotes(
            a,
            a[id].children()[0].index() as int,
            *l,
            env,
            depth,
        ) && denotes(a, a[id].children()[1].index() as int, *r, env, depth),
        Ast::IfElse(c, t, e) => 0 <= id < a.len() && head_of(a[id], ast, depth) && denotes(
            a,
            a[id].children()[0].index() as int,
            *c,
            env,
            depth,
        ) && denotes(a, a[id].children()[1].index() as int, *t, env, depth) && denotes(
            a,
            a[id].children()[2].index() as int,
            *e,
            env,
            depth,
        ),
        Ast::Integer(_) => 0 <= id < a.len() && head_of(a[id], ast, depth),
    }
}

/// Expressions `ids` of arena `a` are the lowerings of the bound
/// expressions of `bs`, in order.
pub open spec fn bindings_denote(a: Seq<MirExpr>, ids: Seq<usize>, bs: Bindings, env: Seq<(u64, Meaning)>, depth: nat) -> bool
    decreases bs,
{
    match bs {
        Bindings::Nil => ids.len() == 0,
        Bindings::Cons(_, e, rest) => ids.len() > 0 && denotes(a, ids[0] as int, *e, env, depth)
            && bindings_denote(a, ids.drop_first(), *rest, env, depth),
    }
}

/// What a name in scope stands for while a syntax tree is lowered into a
/// lazy arena.
#[derive(Clone, Copy, Debug)]
pub enum Binding {
    /// The parameter of the lambda at this nesting depth.
    Param(usize),
    /// The expression in this slot.
    Node(LazyArenaId),
}

/// The bindings of let-bound names to the slots `ss`.
pub open spec fn slot_bindings(ss: Seq<LazyArenaId>) -> Seq<Binding> {
    ss.map_values(|s: LazyArenaId| Binding::Node(s))
}

/// Slot `k` of `e` holds a value.
pub open spec fn is_node(e: Seq<MaybeOrRef<MirExpr>>, k: int) -> bool {
    0 <= k < e.len() && e[k] is Value
}

/// `denotes` for a lazy arena: slot `k` of `e` is the lowering of `ast`,
/// where the names in scope stand for `scope`; a let-bound name's slot
/// refers to the slot of its bound expression.
pub open spec fn lazy_denotes(
    e: Seq<MaybeOrRef<MirExpr>>,
    k: int,
    ast: Ast,
    scope: Seq<(u64, Binding)>,
    depth: nat,
) -> bool
    decreases ast,
{
    match ast {
        Ast::Ident(x) => match env_lookup(scope, x) {
            Some(Binding::Param(d)) => 0 <= k < e.len() && e[k] == MaybeOrRef::Value(
                MirExpr::Param(Param { depth: d }),
            ),
            Some(Binding::Node(s)) => k == s.0.index(),
            None => false,
        },
        Ast::LetIn(bs, body) => exists|ss: Seq<LazyArenaId>|
            ss.len() == bound_names(*bs).len() && lazy_bindings_denote(
                e,
                ss,
                *bs,
                let_env(scope, bound_names(*bs), #[trigger] slot_bindings(ss)),
                depth,
            ) && lazy_denotes(e, k, *body, let_env(scope, bound_names(*bs), slot_bindings(ss)), depth),
        Ast::Lambda(x, b) => is_node(e, k) && head_of(e[k]->Value_0, ast, depth) && lazy_denotes(
            e,
            e[k]->Value_0.children()[0].index() as int,
            *b,
            scope.push((x, Binding::Param(depth as usize))),
            depth + 1,
        ),
        Ast::Apply(f, g) => is_node(e, k) && head_of(e[k]->Value_0, ast, depth) && lazy_denotes(
            e,
            e[k]->Value_0.children()[0].index() as int,
            *f,
            scope,
            depth,
        ) && lazy_denotes(e, e[k]->Value_0.children()[1].index() as int, *g, scope, depth),
        Ast::BinOp(_, l, r) => is_node(e, k) && head_of(e[k]->Value_0, ast, depth) && lazy_denotes(
            e,
            e[k]->Value_0.children()[0].index() as int,
            *l,
            scope,
            depth,
        ) && lazy_denotes(e, e[k]->Value_0.children()[1].index() as int, *r, scope, depth),
        Ast::IfElse(c, t, f) => is_node(e, k) && head_of(e[k]->Value_0, ast, depth) && lazy_denotes(
            e,
            e[k]->Value_0.children()[0].index() as int,
            *c,
            scope,
            depth,
        ) && lazy_denotes(e, e[k]->Value_0.children()[1].index() as int, *t, scope, depth) && lazy_denotes(
            e,
            e[k]->Value_0.children()[2].index() as int,
            *f,
            scope,
            depth,
        ),
        Ast::Integer(_) => is_node(e, k) && head_of(e[k]->Value_0, ast, depth),
    }
}

/// The slots `ss` refer to slots that are the lowerings of the bound
/// expressions of `bs`, in order.
pub open spec fn lazy_bindings_denote(
    e: Seq<MaybeOrRef<MirExpr>>,
    ss: Seq<LazyArenaId>,
    bs: Bindings,
    scope: Seq<(u64, Binding)>,
    depth: nat,
) -> bool
    decreases bs,
{
    match bs {
        Bindings::Nil => ss.len() == 0,
        Bindings::Cons(_, x, rest) => {
            &&& ss.len() > 0
            &&& 0 <= ss[0].0.index() < e.len()
            &&& e[ss[0].0.index() as int] is Ref
            &&& lazy_denotes(e, e[ss[0].0.index() as int]->Ref_0.0.index() as int, *x, scope, depth)
            &&& lazy_bindings_denote(e, ss.drop_first(), *rest, scope, depth)
        },
    }
}

/// `e2` keeps every slot of `e` that is not deferred.
pub open spec fn refines(e2: Seq<MaybeOrRef<MirExpr>>, e: Seq<MaybeOrRef<MirExpr>>) -> bool {
    &&& e.len() <= e2.len()
    &&& forall|i: int| 0 <= i < e.len() && !(#[trigger] e[i] is Deferred) ==> e2[i] == e[i]
}

pub proof fn lemma_refines_trans(e3: Seq<MaybeOrRef<MirExpr>>, e2: Seq<MaybeOrRef<MirExpr>>, e1: Seq<MaybeOrRef<MirExpr>>)
    requires
        refines(e3, e2),
        refines(e2, e1),
    ensures
        refines(e3, e1),
{
    assert forall|i: int| 0 <= i < e1.len() && !(#[trigger] e1[i] is Deferred) implies e3[i] == e1[i] by {
        assert(e2[i] == e1[i]);
    }
}

/// Lowerings stay lowerings as deferred slots are filled and slots added.
pub proof fn lemma_lazy_denotes_refines(
    e: Seq<MaybeOrRef<MirExpr>>,
    e2: Seq<MaybeOrRef<MirExpr>>,
    k: int,
    ast: Ast,
    scope: Seq<(u64, Binding)>,
    depth: nat,
)
    requires
        refines(e2, e),
        lazy_denotes(e, k, ast, scope, depth),
    ensures
        lazy_denotes(e2, k, ast, scope, depth),
    decreases ast,
{
    match ast {
        Ast::Ident(x) => {
            if let Some(Binding::Param(d)) = env_lookup(scope, x) {
                assert(e2[k] == e[k]);
            }
        },
        Ast::LetIn(bs, body) => {
            let names = bound_names(*bs);
            assert(exists|ss: Seq<LazyArenaId>|
                ss.len() == names.len() && lazy_bindings_denote(
                    e,
                    ss,
                    *bs,
                    let_env(scope, names, #[trigger] slot_bindings(ss)),
                    depth,
                ) && lazy_denotes(e, k, *body, let_env(scope, names, slot_bindings(ss)), depth));
            let ss = choose|ss: Seq<LazyArenaId>|
                ss.len() == names.len() && lazy_bindings_denote(
                    e,
                    ss,
                    *bs,
                    let_env(scope, names, #[trigger] slot_bindings(ss)),
                    depth,
                ) && lazy_denotes(e, k, *body, let_env(scope, names, slot_bindings(ss)), depth);
            let inner = let_env(scope, names, slot_bindings(ss));
            lemma_lazy_bindings_refines(e, e2, ss, *bs, inner, depth);
            lemma_lazy_denotes_refines(e, e2, k, *body, inner, depth);
        },
        Ast::Lambda(x, b) => {
            assert(e2[k] == e[k]);
            lemma_lazy_denotes_refines(
                e,
                e2,
                e[k]->Value_0.children()[0].index() as int,
                *b,
                scope.push((x, Binding::Param(depth as usize))),
                depth + 1,
            );
        },
        Ast::Apply(f, g) => {
            assert(e2[k] == e[k]);
            lemma_lazy_denotes_refines(e, e2, e[k]->Value_0.children()[0].index() as int, *f, scope, depth);
            lemma_lazy_denotes_refines(e, e2, e[k]->Value_0.children()[1].index() as int, *g, scope, depth);
        },
        Ast::BinOp(_, l, r) => {
            assert(e2[k] == e[k]);
            lemma_lazy_denotes_refines(e, e2, e[k]->Value_0.children()[0].index() as int, *l, scope, depth);
            lemma_lazy_denotes_refines(e, e2, e[k]->Value_0.children()[1].index() as int, *r, scope, depth);
        },
        Ast::IfElse(c, t, f) => {
            assert(e2[k] == e[k]);
            lemma_lazy_denotes_refines(e, e2, e[k]->Value_0.children()[0].index() as int, *c, scope, depth);
            lemma_lazy_denotes_refines(e, e2, e[k]->Value_0.children()[1].index() as int, *t, scope, depth);
            lemma_lazy_denotes_refines(e, e2, e[k]->Value_0.children()[2].index() as int, *f, scope, depth);
        },
        Ast::Integer(_) => {
            assert(e2[k] == e[k]);
        },
    }
}

pub proof fn lemma_lazy_bindings_refines(
    e: Seq<MaybeOrRef<MirExpr>>,
    e2: Seq<MaybeOrRef<MirExpr>>,
    ss: Seq<LazyArenaId>,
    bs: Bindings,
    scope: Seq<(u64, Binding)>,
    depth: nat,
)
    requires
        refines(e2, e),
        lazy_bindings_denote(e, ss, bs, scope, depth),
    ensures
        lazy_bindings_denote(e2, ss, bs, scope, depth),
    decreases bs,
{
    if let Bindings::Cons(_, x, rest) = bs {
        let i = ss[0].0.index() as int;
        assert(e2[i] == e[i]);
        lemma_lazy_denotes_refines(e, e2, e[i]->Ref_0.0.index() as int, *x, scope, depth);
        lemma_lazy_bindings_refines(e, e2, ss.drop_first(), *rest, scope, depth);
    }
}

/// What a name in scope stands for once the lazy arena `e` is flattened.
pub open spec fn meaning_of(e: Seq<MaybeOrRef<MirExpr>>, b: Binding) -> Meaning {
    match b {
        Binding::Param(d) => Meaning::Param(d),
        Binding::Node(s) => Meaning::Node(flat_index(e, s.0.index() as int) as usize),
    }
}

/// The scope `scope` once the lazy arena `e` is flattened.
pub open spec fn flat_env(e: Seq<MaybeOrRef<MirExpr>>, scope: Seq<(u64, Binding)>) -> Seq<(u64, Meaning)> {
    scope.map_values(|p: (u64, Binding)| (p.0, meaning_of(e, p.1)))
}

/// The flattened positions of the slots `ss`.
pub open spec fn flat_slots(e: Seq<MaybeOrRef<MirExpr>>, ss: Seq<LazyArenaId>) -> Seq<usize> {
    ss.map_values(|s: LazyArenaId| flat_index(e, s.0.index() as int) as usize)
}

/// Value slot `k` of `e` became expression `flat_index(e, k)` of `a`: of the
/// same shape, over the flattened positions of its sub-expressions.
pub open spec fn node_flattened(e: Seq<MaybeOrRef<MirExpr>>, a: Seq<MirExpr>, k: int) -> bool {
    let x = e[k]->Value_0;
    let fi = flat_index(e, k) as int;
    &&& fi < a.len()
    &&& same_shape(x, a[fi])
    &&& a[fi].children().len() == x.children().len()
    &&& forall|i: int|
        0 <= i < x.children().len() ==> #[trigger] a[fi].children()[i].index() == flat_index(
            e,
            x.children()[i].index() as int,
        )
}

/// `a` is what flattening the lazy arena `e` gives: every value slot
/// becomes its expression, a reference slot stands where the slot it refers
/// to does, and positions fit in a `usize`.
pub open spec fn flattened_into(e: Seq<MaybeOrRef<MirExpr>>, a: Seq<MirExpr>) -> bool {
    &&& forall|k: int| is_node(e, k) ==> #[trigger] node_flattened(e, a, k)
    &&& forall|k: int|
        0 <= k < e.len() && (#[trigger] e[k]) is Ref ==> flat_index(e, k) == flat_index(
            e,
            e[k]->Ref_0.0.index() as int,
        )
    &&& forall|k: int| #[trigger] flat_index(e, k) <= usize::MAX
}

proof fn lemma_env_lookup_flat(e: Seq<MaybeOrRef<MirExpr>>, scope: Seq<(u64, Binding)>, x: u64)
    ensures
        env_lookup(flat_env(e, scope), x) == match env_lookup(scope, x) {
            Some(b) => Some(meaning_of(e, b)),
            None => None,
        },
    decreases scope.len(),
{
    if scope.len() > 0 {
        assert(flat_env(e, scope).drop_last() =~= flat_env(e, scope.drop_last()));
        lemma_env_lookup_flat(e, scope.drop_last(), x);
    }
}

proof fn lemma_head_same_shape(x: MirExpr, y: MirExpr, ast: Ast, depth: nat)
    requires
        head_of(x, ast, depth),
        same_shape(x, y),
    ensures
        head_of(y, ast, depth),
{
}

/// Flattening a lazy arena keeps lowerings: a slot that is the lowering of
/// `ast` becomes an expression that is its lowering.
pub proof fn lemma_flatten_keeps_lowering(
    e: Seq<MaybeOrRef<MirExpr>>,
    a: Seq<MirExpr>,
    k: int,
    ast: Ast,
    scope: Seq<(u64, Binding)>,
    depth: nat,
)
    requires
        flattened_into(e, a),
        lazy_denotes(e, k, ast, scope, depth),
    ensures
        denotes(a, flat_index(e, k) as int, ast, flat_env(e, scope), depth),
    decreases ast,
{
    let fi = flat_index(e, k) as int;
    match ast {
        Ast::Ident(x) => {
            lemma_env_lookup_flat(e, scope, x);
            match env_lookup(scope, x) {
                Some(Binding::Param(d)) => {
                    assert(is_node(e, k));
                    assert(node_flattened(e, a, k));
                },
                Some(Binding::Node(s)) => {
                    assert(flat_index(e, s.0.index() as int) <= usize::MAX);
                },
                None => {},
            }
        },
        Ast::LetIn(bs, body) => {
            let names = bound_names(*bs);
            let ss = choose|ss: Seq<LazyArenaId>|
                ss.len() == names.len() && lazy_bindings_denote(
                    e,
                    ss,
                    *bs,
                    let_env(scope, names, #[trigger] slot_bindings(ss)),
                    depth,
                ) && lazy_denotes(e, k, *body, let_env(scope, names, slot_bindings(ss)), depth);
            let inner = let_env(scope, names, slot_bindings(ss));
            let ids = flat_slots(e, ss);
            assert(flat_env(e, inner) =~= let_env(flat_env(e, scope), names, node_meanings(ids)));
            lemma_flatten_keeps_bindings(e, a, ss, *bs, inner, depth);
            lemma_flatten_keeps_lowering(e, a, k, *body, inner, depth);
            assert(ids.len() == names.len() && bindings_denote(
                a,
                ids,
                *bs,
                let_env(flat_env(e, scope), names, node_meanings(ids)),
                depth,
            ) && denotes(a, fi, *body, let_env(flat_env(e, scope), names, node_meanings(ids)), depth));
        },
        Ast::Integer(_) => {
            assert(node_flattened(e, a, k));
            lemma_head_same_shape(e[k]->Value_0, a[fi], ast, depth);
        },
        Ast::Lambda(x, b) => {
            assert(node_flattened(e, a, k));
            let n = e[k]->Value_0;
            lemma_head_same_shape(n, a[fi], ast, depth);
            assert(a[fi].children()[0].index() == flat_index(e, n.children()[0].index() as int));
            let inner = scope.push((x, Binding::Param(depth as usize)));
            assert(flat_env(e, inner) =~= flat_env(e, scope).push((x, Meaning::Param(depth as usize))));
            lemma_flatten_keeps_lowering(e, a, n.children()[0].index() as int, *b, inner, depth + 1);
        },
        Ast::Apply(f, g) => {
            assert(node_flattened(e, a, k));
            let n = e[k]->Value_0;
            lemma_head_same_shape(n, a[fi], ast, depth);
            assert(a[fi].children()[0].index() == flat_index(e, n.children()[0].index() as int));
            assert(a[fi].children()[1].index() == flat_index(e, n.children()[1].index() as int));
            lemma_flatten_keeps_lowering(e, a, n.children()[0].index() as int, *f, scope, depth);
            lemma_flatten_keeps_lowering(e, a, n.children()[1].index() as int, *g, scope, depth);
        },
        Ast::BinOp(_, l, r) => {
            assert(node_flattened(e, a, k));
            let n = e[k]->Value_0;
            lemma_head_same_shape(n, a[fi], ast, depth);
            assert(a[fi].children()[0].index() == flat_index(e, n.children()[0].index() as int));
            assert(a[fi].children()[1].index() == flat_index(e, n.children()[1].index() as int));
            lemma_flatten_keeps_lowering(e, a, n.children()[0].index() as int, *l, scope, depth);
            lemma_flatten_keeps_lowering(e, a, n.children()[1].index() as int, *r, scope, depth);
        },
        Ast::IfElse(c, t, f) => {
            assert(node_flattened(e, a, k));
            let n = e[k]->Value_0;
            lemma_head_same_shape(n, a[fi], ast, depth);
            assert(a[fi].children()[0].index() == flat_index(e, n.children()[0].index() as int));
            assert(a[fi].children()[1].index() == flat_index(e, n.children()[1].index() as int));
            assert(a[fi].children()[2].index() == flat_index(e, n.children()[2].index() as int));
            lemma_flatten_keeps_lowering(e, a, n.children()[0].index() as int, *c, scope, depth);
            lemma_flatten_keeps_lowering(e, a, n.children()[1].index() as int, *t, scope, depth);
            lemma_flatten_keeps_lowering(e, a, n.children()[2].index() as int, *f, scope, depth);
        },
    }
}

proof fn lemma_flatten_keeps_bindings(
    e: Seq<MaybeOrRef<MirExpr>>,
    a: Seq<MirExpr>,
    ss: Seq<LazyArenaId>,
    bs: Bindings,
    scope: Seq<(u64, Binding)>,
    depth: nat,
)
    requires
        flattened_into(e, a),
        lazy_bindings_denote(e, ss, bs, scope, depth),
    ensures
        bindings_denote(a, flat_slots(e, ss), bs, flat_env(e, scope), depth),
    decreases bs,
{
    if let Bindings::Cons(_, x, rest) = bs {
        let s0 = ss[0].0.index() as int;
        let r = e[s0]->Ref_0.0.index() as int;
        lemma_flatten_keeps_lowering(e, a, r, *x, scope, depth);
        assert(flat_index(e, s0) == flat_index(e, r));
        assert(flat_index(e, s0) <= usize::MAX);
        assert(flat_slots(e, ss).drop_first() =~= flat_slots(e, ss.drop_first()));
        lemma_flatten_keeps_bindings(e, a, ss.drop_first(), *rest, scope, depth);
    }
}

/// A reference slot takes the flattened position of the slot it refers to.
pub proof fn lemma_ref_flat_index(e: Seq<MaybeOrRef<MirExpr>>, k: int)
    requires
        0 <= k < e.len(),
        e[k] is Ref,
    ensures
        flat_index(e, k) == flat_index(e, e[k]->Ref_0.0.index() as int),
{
    let r = e[k]->Ref_0.0.index() as int;
    assert(entry_next(e, k) == r);
    assert forall|t: int| reaches(e, k, t) <==> reaches(e, r, t) by {
        lemma_reaches_step(e, k, t);
    }
    if exists|t: int| reaches(e, k, t) {
        let t = choose|t: int| reaches(e, k, t);
        lemma_resolution_reaches(e, k, t);
        lemma_resolution_reaches(e, r, t);
    } else {
        reveal(resolution);
    }
}

/// How many expressions lowering `ast` may make: one per node, and one per
/// `let` binding.
pub open spec fn ast_size(ast: Ast) -> nat
    decreases ast,
{
    match ast {
        Ast::Integer(_) => 1,
        Ast::Ident(_) => 1,
        Ast::Lambda(_, b) => 1 + ast_size(*b),
        Ast::Apply(f, g) => 1 + ast_size(*f) + ast_size(*g),
        Ast::BinOp(_, l, r) => 1 + ast_size(*l) + ast_size(*r),
        Ast::IfElse(c, t, f) => 1 + ast_size(*c) + ast_size(*t) + ast_size(*f),
        Ast::LetIn(bs, body) => bindings_size(*bs) + ast_size(*body),
    }
}

/// `ast_size` of the bindings of a `let`, one more for each binding.
pub open spec fn bindings_size(bs: Bindings) -> nat
    decreases bs,
{
    match bs {
        Bindings::Nil => 0,
        Bindings::Cons(_, e, rest) => 1 + ast_size(*e) + bindings_size(*rest),
    }
}

} // verus!
