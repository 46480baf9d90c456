//! Lowering of the syntax tree to the mid-level representation.
//!
//! Lambda parameters become `Param`s by nesting depth; a name bound by a
//! `let` stands for the expression it is bound to, so that every use of it
//! refers to the same expression (bindings may refer to one another and to
//! themselves, which makes the expression graph cyclic).
use vstd::prelude::*;

use crate::arena::ArenaId;
use crate::generic_lang::{GenericIntrinsic, GenericLambda, GenericLambdaCall, Param};
use crate::lazy_arena::{
    LazyArena, LazyArenaId, MaybeOrRef, count_values, flat_ids, flat_index, has_cycle,
    lemma_count_values_step, lemma_count_values_value, lemma_count_values_le, lemma_flat_index_bound, lemma_value_resolves_to_itself,
    resolution,
};
use crate::mir::{Literal, MirExpr, RootExpr, same_shape};
use crate::lowering::{
    Binding, Meaning, ast_size, bindings_size, denotes, flat_env, flattened_into, is_node, lemma_flatten_keeps_lowering, lemma_ref_flat_index,
    node_flattened, env_lookup, lazy_bindings_denote, lazy_denotes, lemma_lazy_bindings_refines, lemma_lazy_denotes_refines,
    lemma_refines_trans, let_env, refines, slot_bindings,
};

verus! {

/// A binary operator.
#[derive(Clone, Copy, PartialEq, Eq, Debug)]
pub enum BinOp {
    Add,
    Subtract,
    LessOrEq,
}

/// A syntax tree. Names are interned: equal names carry equal numbers.
pub enum Ast {
    Integer(i64),
    Ident(u64),
    /// `name: body`
    Lambda(u64, Box<Ast>),
    /// `function argument`
    Apply(Box<Ast>, Box<Ast>),
    BinOp(BinOp, Box<Ast>, Box<Ast>),
    /// `if condition then a else b`
    IfElse(Box<Ast>, Box<Ast>, Box<Ast>),
    /// `let bindings in body`; the bindings see one another.
    LetIn(Box<Bindings>, Box<Ast>),
}

/// The bindings of a `let`, in order.
pub enum Bindings {
    Nil,
    Cons(u64, Box<Ast>, Box<Bindings>),
}

/// Why lowering failed.
#[derive(Clone, Copy, PartialEq, Eq, Debug)]
pub enum LowerError {
    /// A name that no enclosing lambda or `let` binds.
    UnboundName(u64),
    /// Lambdas nest deeper than a `usize` counts.
    TooDeep,
}

/// The names that `bs` binds, in order.
pub open spec fn bound_names(bs: Bindings) -> Seq<u64>
    decreases bs,
{
    match bs {
        Bindings::Nil => Seq::empty(),
        Bindings::Cons(n, _, rest) => seq![n] + bound_names(*rest),
    }
}

/// Every name used in `ast` is bound by `scope` or within `ast`.
pub open spec fn well_bound(ast: Ast, scope: Seq<u64>) -> bool
    decreases ast,
{
    match ast {
        Ast::Integer(_) => true,
        Ast::Ident(n) => scope.contains(n),
        Ast::Lambda(x, body) => well_bound(*body, scope.push(x)),
        Ast::Apply(f, a) => well_bound(*f, scope) && well_bound(*a, scope),
        Ast::BinOp(_, a, b) => well_bound(*a, scope) && well_bound(*b, scope),
        Ast::IfElse(c, t, e) => well_bound(*c, scope) && well_bound(*t, scope) && well_bound(*e, scope),
        Ast::LetIn(bs, body) => {
            let inner = scope + bound_names(*bs);
            bindings_well_bound(*bs, inner) && well_bound(*body, inner)
        },
    }
}

/// Every name used in the bound expressions is bound by `scope` or within
/// them.
pub open spec fn bindings_well_bound(bs: Bindings, scope: Seq<u64>) -> bool
    decreases bs,
{
    match bs {
        Bindings::Nil => true,
        Bindings::Cons(_, e, rest) => well_bound(*e, scope) && bindings_well_bound(*rest, scope),
    }
}

/// How deeply lambdas nest in `ast`.
pub open spec fn nesting(ast: Ast) -> nat
    decreases ast,
{
    match ast {
        Ast::Integer(_) => 0,
        Ast::Ident(_) => 0,
        Ast::Lambda(_, body) => 1 + nesting(*body),
        Ast::Apply(f, a) => max(nesting(*f), nesting(*a)),
        Ast::BinOp(_, a, b) => max(nesting(*a), nesting(*b)),
        Ast::IfElse(c, t, e) => max(nesting(*c), max(nesting(*t), nesting(*e))),
        Ast::LetIn(bs, body) => max(bindings_nesting(*bs), nesting(*body)),
    }
}

/// How deeply lambdas nest in the bound expressions.
pub open spec fn bindings_nesting(bs: Bindings) -> nat
    decreases bs,
{
    match bs {
        Bindings::Nil => 0,
        Bindings::Cons(_, e, rest) => max(nesting(*e), bindings_nesting(*rest)),
    }
}

pub open spec fn max(a: nat, b: nat) -> nat {
    if a >= b {
        a
    } else {
        b
    }
}

/// The names of a scope.
spec fn scope_names(scope: Seq<(u64, Binding)>) -> Seq<u64> {
    scope.map_values(|e: (u64, Binding)| e.0)
}

/// Every value slot refers only to slots of the arena.
spec fn slots_closed(e: Seq<MaybeOrRef<MirExpr>>) -> bool {
    forall|k: int| 0 <= k < e.len() && (#[trigger] e[k]) is Value ==> e[k]->Value_0.children_below(e.len())
}

/// Every binding of `scope` refers to a slot below `len` or a parameter
/// below `depth`.
spec fn scope_valid(scope: Seq<(u64, Binding)>, len: nat, depth: nat) -> bool {
    forall|i: int|
        0 <= i < scope.len() ==> match (#[trigger] scope[i]).1 {
            Binding::Param(d) => d < depth,
            Binding::Node(id) => id.0.index() < len,
        }
}

/// `after` keeps the slots of `before`, and the slots it adds are no
/// longer deferred.
spec fn settled(after: Seq<MaybeOrRef<MirExpr>>, before: Seq<MaybeOrRef<MirExpr>>) -> bool {
    &&& before.len() <= after.len()
    &&& after.subrange(0, before.len() as int) == before
    &&& forall|k: int| before.len() <= k < after.len() ==> !(#[trigger] after[k] is Deferred)
}

/// `after` keeps the slots of `before`.
spec fn keeps(after: Seq<MaybeOrRef<MirExpr>>, before: Seq<MaybeOrRef<MirExpr>>) -> bool {
    &&& before.len() <= after.len()
    &&& after.subrange(0, before.len() as int) == before
}

fn copy_scope(scope: &Vec<(u64, Binding)>) -> (c: Vec<(u64, Binding)>)
    ensures
        c@ == scope@,
{
    let mut c: Vec<(u64, Binding)> = Vec::new();
    let mut i: usize = 0;
    while i < scope.len()
        invariant
            i <= scope@.len(),
            c@ == scope@.take(i as int),
        decreases scope@.len() - i,
    {
        c.push(scope[i]);
        i = i + 1;
        assert(c@ =~= scope@.take(i as int));
    }
    assert(scope@.take(i as int) =~= scope@);
    c
}

/// The innermost binding of `name` in `scope`.
fn lookup(scope: &Vec<(u64, Binding)>, name: u64) -> (b: Option<Binding>)
    ensures
        b is Some <==> scope_names(scope@).contains(name),
        b matches Some(x) ==> exists|i: int| 0 <= i < scope@.len() && #[trigger] scope@[i] == (name, x),
        b == env_lookup(scope@, name),
{
    let mut i: usize = scope.len();
    assert(scope@.take(i as int) =~= scope@);
    while i > 0
        invariant
            i <= scope@.len(),
            forall|j: int| i <= j < scope@.len() ==> (#[trigger] scope@[j]).0 != name,
            env_lookup(scope@, name) == env_lookup(scope@.take(i as int), name),
        decreases i,
    {
        i = i - 1;
        assert(scope@.take(i + 1).drop_last() =~= scope@.take(i as int));
        assert(scope@.take(i + 1).last() == scope@[i as int]);
        if scope[i].0 == name {
            assert(scope_names(scope@)[i as int] == name);
            return Some(scope[i].1);
        }
    }
    proof {
        if scope_names(scope@).contains(name) {
            let j = choose|j: int| 0 <= j < scope_names(scope@).len() && scope_names(scope@)[j] == name;
            assert(scope@[j].0 == name);
        }
    }
    None
}

/// Keeping the slots of `before` refines it.
proof fn lemma_keeps_refines(after: Seq<MaybeOrRef<MirExpr>>, before: Seq<MaybeOrRef<MirExpr>>)
    requires
        keeps(after, before),
    ensures
        refines(after, before),
{
    assert forall|i: int| 0 <= i < before.len() && !(#[trigger] before[i] is Deferred) implies after[i] == before[i] by {
        assert(after.subrange(0, before.len() as int)[i] == after[i]);
    }
}

proof fn lemma_keeps_trans(c: Seq<MaybeOrRef<MirExpr>>, b: Seq<MaybeOrRef<MirExpr>>, a: Seq<MaybeOrRef<MirExpr>>)
    requires
        keeps(c, b),
        keeps(b, a),
    ensures
        keeps(c, a),
{
    assert(c.subrange(0, a.len() as int) =~= b.subrange(0, a.len() as int));
}

proof fn lemma_settled_trans(c: Seq<MaybeOrRef<MirExpr>>, b: Seq<MaybeOrRef<MirExpr>>, a: Seq<MaybeOrRef<MirExpr>>)
    requires
        settled(c, b),
        settled(b, a),
    ensures
        settled(c, a),
{
    assert(c.subrange(0, a.len() as int) =~= b.subrange(0, a.len() as int));
    assert forall|k: int| a.len() <= k < c.len() implies !(#[trigger] c[k] is Deferred) by {
        if k < b.len() {
            assert(c.subrange(0, b.len() as int)[k] == c[k]);
        }
    }
}

proof fn lemma_scope_valid_grow(scope: Seq<(u64, Binding)>, len: nat, len2: nat, depth: nat)
    requires
        scope_valid(scope, len, depth),
        len <= len2,
    ensures
        scope_valid(scope, len2, depth),
{
    assert forall|i: int| 0 <= i < scope.len() implies match (#[trigger] scope[i]).1 {
        Binding::Param(d) => d < depth,
        Binding::Node(id) => id.0.index() < len2,
    } by {
        match scope[i].1 {
            Binding::Param(d) => {},
            Binding::Node(id) => {},
        }
    }
}

proof fn lemma_slots_closed_push(e: Seq<MaybeOrRef<MirExpr>>, x: MirExpr)
    requires
        slots_closed(e),
        x.children_below(e.len()),
    ensures
        slots_closed(e.push(MaybeOrRef::Value(x))),
{
    let e2 = e.push(MaybeOrRef::Value(x));
    assert forall|k: int| 0 <= k < e2.len() && (#[trigger] e2[k]) is Value implies e2[k]->Value_0.children_below(
        e2.len(),
    ) by {
        if k < e.len() {
            assert(e2[k] == e[k]);
            let c = e[k]->Value_0;
            assert forall|i: int| 0 <= i < c.children().len() implies (#[trigger] c.children()[i]).index()
                < e2.len() by {
                assert(c.children_below(e.len()));
            }
        } else {
            assert forall|i: int| 0 <= i < x.children().len() implies (#[trigger] x.children()[i]).index()
                < e2.len() by {
            }
        }
    }
}

/// Stores `x` in a new slot.
fn push_node(lazy: &mut LazyArena<MirExpr>, x: MirExpr) -> (id: LazyArenaId)
    requires
        old(lazy).wf(),
        slots_closed(old(lazy)@),
        x.children_below(old(lazy)@.len()),
    ensures
        final(lazy).wf(),
        slots_closed(final(lazy)@),
        final(lazy)@ == old(lazy)@.push(MaybeOrRef::Value(x)),
        settled(final(lazy)@, old(lazy)@),
        id.0.index() == old(lazy)@.len(),
{
    proof {
        lemma_slots_closed_push(old(lazy)@, x);
    }
    let id = lazy.allocate(x);
    assert(lazy@.subrange(0, old(lazy)@.len() as int) =~= old(lazy)@);
    id
}

/// Lowers `ast`, whose enclosing lambdas bind the parameters at depths
/// below `depth`, into new slots of `lazy`; returns the slot that stands
/// for `ast`.
#[verifier::spinoff_prover]
fn lower_expr(lazy: &mut LazyArena<MirExpr>, scope: &Vec<(u64, Binding)>, ast: &Ast, depth: usize) -> (r:
    Result<LazyArenaId, LowerError>)
    requires
        old(lazy).wf(),
        slots_closed(old(lazy)@),
        scope_valid(scope@, old(lazy)@.len(), depth as nat),
    ensures
        final(lazy).wf(),
        slots_closed(final(lazy)@),
        keeps(final(lazy)@, old(lazy)@),
        r is Ok ==> settled(final(lazy)@, old(lazy)@),
        r matches Ok(id) ==> id.0.index() < final(lazy)@.len(),
        r is Ok ==> well_bound(*ast, scope_names(scope@)),
        well_bound(*ast, scope_names(scope@)) && depth + nesting(*ast) <= usize::MAX ==> r is Ok,
        r matches Err(LowerError::UnboundName(_)) ==> !well_bound(*ast, scope_names(scope@)),
        r matches Err(LowerError::TooDeep) ==> depth + nesting(*ast) > usize::MAX,
        r matches Ok(id) ==> lazy_denotes(final(lazy)@, id.0.index() as int, *ast, scope@, depth as nat),
        final(lazy)@.len() <= old(lazy)@.len() + ast_size(*ast),
    decreases ast, 1nat,
{
    let ghost start = lazy@;
    match ast {
        Ast::Integer(n) => {
            let id = push_node(lazy, MirExpr::Literal(Literal::Integer(*n)));
            Ok(id)
        },
        Ast::Ident(name) => match lookup(scope, *name) {
            Some(Binding::Param(d)) => {
                let id = push_node(lazy, MirExpr::Param(Param { depth: d }));
                Ok(id)
            },
            Some(Binding::Node(id)) => {
                proof {
                    let i = choose|i: int| 0 <= i < scope@.len() && #[trigger] scope@[i] == (*name, Binding::Node(id));
                    assert(match scope@[i].1 {
                        Binding::Param(d) => d < depth,
                        Binding::Node(id) => id.0.index() < lazy@.len(),
                    });
                    assert(lazy@.subrange(0, lazy@.len() as int) =~= lazy@);
                }
                Ok(id)
            },
            None => {
                proof {
                    assert(lazy@.subrange(0, lazy@.len() as int) =~= lazy@);
                }
                Err(LowerError::UnboundName(*name))
            },
        },
        Ast::Lambda(x, body) => {
            if depth == usize::MAX {
                proof {
                    assert(lazy@.subrange(0, lazy@.len() as int) =~= lazy@);
                }
                return Err(LowerError::TooDeep);
            }
            let mut inner = copy_scope(scope);
            inner.push((*x, Binding::Param(depth)));
            proof {
                assert(scope_names(inner@) =~= scope_names(scope@).push(*x));
                assert forall|i: int| 0 <= i < inner@.len() implies match (#[trigger] inner@[i]).1 {
                    Binding::Param(d) => d < depth + 1,
                    Binding::Node(id) => id.0.index() < lazy@.len(),
                } by {
                    if i < scope@.len() {
                        assert(inner@[i] == scope@[i]);
                        match scope@[i].1 {
                            Binding::Param(d) => {},
                            Binding::Node(id) => {},
                        }
                    }
                }
            }
            let b = lower_expr(lazy, &inner, body, depth + 1)?;
            let ghost mid = lazy@;
            let id = push_node(lazy, MirExpr::Lambda(GenericLambda { param: Param { depth }, body: b.0 }));
            proof {
                lemma_settled_trans(lazy@, mid, start);
                assert(inner@ == scope@.push((*x, Binding::Param((depth as nat) as usize))));
                lemma_keeps_refines(lazy@, mid);
                lemma_lazy_denotes_refines(mid, lazy@, b.0.index() as int, **body, inner@, depth as nat + 1);
                assert(lazy@[id.0.index() as int]->Value_0.children()[0] == b.0);
            }
            Ok(id)
        },
        Ast::Apply(f, a) => {
            let lf = lower_expr(lazy, scope, f, depth)?;
            let ghost m1 = lazy@;
            proof {
                lemma_scope_valid_grow(scope@, start.len(), lazy@.len(), depth as nat);
            }
            let la = match lower_expr(lazy, scope, a, depth) {
                Ok(la) => la,
                Err(e) => {
                    proof {
                        lemma_keeps_trans(lazy@, m1, start);
                    }
                    return Err(e);
                },
            };
            let ghost m2 = lazy@;
            let id = push_node(
                lazy,
                MirExpr::LambdaCall(GenericLambdaCall { lambda: lf.0, argument: la.0 }),
            );
            proof {
                lemma_settled_trans(m2, m1, start);
                lemma_settled_trans(lazy@, m2, start);
                lemma_keeps_refines(m2, m1);
                lemma_keeps_refines(lazy@, m2);
                lemma_refines_trans(lazy@, m2, m1);
                lemma_lazy_denotes_refines(m1, lazy@, lf.0.index() as int, **f, scope@, depth as nat);
                lemma_lazy_denotes_refines(m2, lazy@, la.0.index() as int, **a, scope@, depth as nat);
                assert(lazy@[id.0.index() as int]->Value_0.children() == seq![lf.0, la.0]);
            }
            Ok(id)
        },
        Ast::BinOp(op, a, b) => {
            let la = lower_expr(lazy, scope, a, depth)?;
            let ghost m1 = lazy@;
            proof {
                lemma_scope_valid_grow(scope@, start.len(), lazy@.len(), depth as nat);
            }
            let lb = match lower_expr(lazy, scope, b, depth) {
                Ok(lb) => lb,
                Err(e) => {
                    proof {
                        lemma_keeps_trans(lazy@, m1, start);
                    }
                    return Err(e);
                },
            };
            let ghost m2 = lazy@;
            let intrinsic = match op {
                BinOp::Add => GenericIntrinsic::Add(la.0, lb.0),
                BinOp::Subtract => GenericIntrinsic::Subtract(la.0, lb.0),
                BinOp::LessOrEq => GenericIntrinsic::LessOrEq(la.0, lb.0),
            };
            let id = push_node(lazy, MirExpr::Intrinsic(intrinsic));
            proof {
                lemma_settled_trans(m2, m1, start);
                lemma_settled_trans(lazy@, m2, start);
                lemma_keeps_refines(m2, m1);
                lemma_keeps_refines(lazy@, m2);
                lemma_refines_trans(lazy@, m2, m1);
                lemma_lazy_denotes_refines(m1, lazy@, la.0.index() as int, **a, scope@, depth as nat);
                lemma_lazy_denotes_refines(m2, lazy@, lb.0.index() as int, **b, scope@, depth as nat);
                assert(lazy@[id.0.index() as int]->Value_0.children() == seq![la.0, lb.0]);
            }
            Ok(id)
        },
        Ast::IfElse(c, t, e) => {
            let lc = lower_expr(lazy, scope, c, depth)?;
            let ghost m1 = lazy@;
            proof {
                lemma_scope_valid_grow(scope@, start.len(), lazy@.len(), depth as nat);
            }
            let lt = match lower_expr(lazy, scope, t, depth) {
                Ok(lt) => lt,
                Err(err) => {
                    proof {
                        lemma_keeps_trans(lazy@, m1, start);
                    }
                    return Err(err);
                },
            };
            let ghost m2 = lazy@;
            proof {
                lemma_scope_valid_grow(scope@, start.len(), lazy@.len(), depth as nat);
                lemma_settled_trans(m2, m1, start);
            }
            let le = match lower_expr(lazy, scope, e, depth) {
                Ok(le) => le,
                Err(err) => {
                    proof {
                        lemma_keeps_trans(lazy@, m2, start);
                    }
                    return Err(err);
                },
            };
            let ghost m3 = lazy@;
            let id = push_node(lazy, MirExpr::Intrinsic(GenericIntrinsic::IfElse(lc.0, lt.0, le.0)));
            proof {
                lemma_settled_trans(m3, m2, start);
                lemma_settled_trans(lazy@, m3, start);
                lemma_keeps_refines(m2, m1);
                lemma_keeps_refines(m3, m2);
                lemma_keeps_refines(lazy@, m3);
                lemma_refines_trans(lazy@, m3, m2);
                lemma_refines_trans(lazy@, m2, m1);
                lemma_lazy_denotes_refines(m1, lazy@, lc.0.index() as int, **c, scope@, depth as nat);
                lemma_lazy_denotes_refines(m2, lazy@, lt.0.index() as int, **t, scope@, depth as nat);
                lemma_lazy_denotes_refines(m3, lazy@, le.0.index() as int, **e, scope@, depth as nat);
                assert(lazy@[id.0.index() as int]->Value_0.children() == seq![lc.0, lt.0, le.0]);
            }
            Ok(id)
        },
        Ast::LetIn(_, _) => lower_let(lazy, scope, ast, depth),
    }
}

/// Lowers the `let` expression `ast` (see `lower_expr`).
fn lower_let(lazy: &mut LazyArena<MirExpr>, scope: &Vec<(u64, Binding)>, ast: &Ast, depth: usize) -> (r:
    Result<LazyArenaId, LowerError>)
    requires
        ast is LetIn,
        old(lazy).wf(),
        slots_closed(old(lazy)@),
        scope_valid(scope@, old(lazy)@.len(), depth as nat),
    ensures
        final(lazy).wf(),
        slots_closed(final(lazy)@),
        keeps(final(lazy)@, old(lazy)@),
        r is Ok ==> settled(final(lazy)@, old(lazy)@),
        r matches Ok(id) ==> id.0.index() < final(lazy)@.len(),
        r is Ok ==> well_bound(*ast, scope_names(scope@)),
        well_bound(*ast, scope_names(scope@)) && depth + nesting(*ast) <= usize::MAX ==> r is Ok,
        r matches Err(LowerError::UnboundName(_)) ==> !well_bound(*ast, scope_names(scope@)),
        r matches Err(LowerError::TooDeep) ==> depth + nesting(*ast) > usize::MAX,
        r matches Ok(id) ==> lazy_denotes(final(lazy)@, id.0.index() as int, *ast, scope@, depth as nat),
        final(lazy)@.len() <= old(lazy)@.len() + ast_size(*ast),
    decreases ast, 0nat,
{
    let ghost start = lazy@;
    let (bs, body) = match ast {
        Ast::LetIn(bs, body) => (bs, body),
        _ => {
            proof {
                assert(false);
            }
            return Err(LowerError::TooDeep);
        },
    };
    let mut inner = copy_scope(scope);
    let mut slots: Vec<LazyArenaId> = Vec::new();
    let ghost base = lazy@.len();
    alloc_slots(lazy, &mut inner, &mut slots, bs);
    let ghost m1 = lazy@;
    proof {
        let names = bound_names(**bs);
        assert(slots@.subrange(0, 0) =~= Seq::<LazyArenaId>::empty());
        assert(inner@.subrange(0, scope@.len() as int) == scope@);
        assert(scope_names(inner@) =~= scope_names(scope@) + names) by {
            assert forall|i: int| 0 <= i < inner@.len() implies scope_names(inner@)[i] == (
            scope_names(scope@) + names)[i] by {
                if i < scope@.len() {
                    assert(inner@.subrange(0, scope@.len() as int)[i] == inner@[i]);
                } else {
                    assert(inner@[scope@.len() + (i - scope@.len())] == (
                        names[i - scope@.len()],
                        Binding::Node(slots@[0 + (i - scope@.len())]),
                    ));
                }
            }
        }
        assert forall|i: int| 0 <= i < inner@.len() implies match (#[trigger] inner@[i]).1 {
            Binding::Param(d) => d < depth,
            Binding::Node(id) => id.0.index() < lazy@.len(),
        } by {
            if i < scope@.len() {
                assert(inner@.subrange(0, scope@.len() as int)[i] == inner@[i]);
                assert(scope@[i] == inner@[i]);
                match scope@[i].1 {
                    Binding::Param(d) => {},
                    Binding::Node(id) => {},
                }
            } else {
                let j = i - scope@.len();
                assert(inner@[scope@.len() + j] == (names[j], Binding::Node(slots@[0 + j])));
                assert(slots@[0 + j].0.index() == base + j);
            }
        }
        assert forall|j: int| 0 <= j < slots@.len() implies (#[trigger] slots@[j]).0.index() == base + j by {
            assert(slots@[0 + j].0.index() == base + j);
        }
        assert forall|j: int| 0 <= j < slots@.len() implies #[trigger] m1[base + j] is Deferred by {
        }
    }
    match lower_bindings(lazy, &inner, bs, &slots, 0, Ghost(base), depth) {
        Err(err) => {
            proof {
                assert(lazy@.subrange(0, start.len() as int) =~= start) by {
                    assert forall|k: int| 0 <= k < start.len() implies lazy@[k] == start[k] by {
                        assert(m1.subrange(0, start.len() as int)[k] == m1[k]);
                    }
                }
            }
            return Err(err);
        },
        Ok(()) => {},
    }
    let ghost m2 = lazy@;
    proof {
        lemma_scope_valid_grow(inner@, m1.len(), m2.len(), depth as nat);
    }
    let r = lower_expr(lazy, &inner, body, depth);
    proof {
        assert(lazy@.subrange(0, start.len() as int) =~= start) by {
            assert forall|k: int| 0 <= k < start.len() implies lazy@[k] == start[k] by {
                assert(lazy@.subrange(0, m2.len() as int)[k] == lazy@[k]);
                assert(m1.subrange(0, start.len() as int)[k] == m1[k]);
            }
        }
        if r is Ok {
            assert forall|k: int| start.len() <= k < lazy@.len() implies !(#[trigger] lazy@[k] is Deferred) by {
                if k < m2.len() {
                    assert(lazy@.subrange(0, m2.len() as int)[k] == lazy@[k]);
                }
            }
            let names = bound_names(**bs);
            let full = slots@.subrange(0, slots@.len() as int);
            assert(full =~= slots@);
            lemma_keeps_refines(lazy@, m2);
            lemma_lazy_bindings_refines(m2, lazy@, full, **bs, inner@, depth as nat);
            assert(inner@ =~= let_env(scope@, names, slot_bindings(slots@))) by {
                assert forall|i: int| 0 <= i < inner@.len() implies inner@[i] == let_env(
                    scope@,
                    names,
                    slot_bindings(slots@),
                )[i] by {
                    if i < scope@.len() {
                        assert(inner@.subrange(0, scope@.len() as int)[i] == inner@[i]);
                    } else {
                        assert(inner@[scope@.len() + (i - scope@.len())] == (
                            names[i - scope@.len()],
                            Binding::Node(slots@[0 + (i - scope@.len())]),
                        ));
                    }
                }
            }
            assert(slots@.len() == names.len() && lazy_bindings_denote(
                lazy@,
                slots@,
                **bs,
                let_env(scope@, names, slot_bindings(slots@)),
                depth as nat,
            ) && lazy_denotes(
                lazy@,
                r->Ok_0.0.index() as int,
                **body,
                let_env(scope@, names, slot_bindings(slots@)),
                depth as nat,
            ));
        }
    }
    r
}

/// A `let` binds no more names than its size.
proof fn lemma_names_within_size(bs: Bindings)
    ensures
        bound_names(bs).len() <= bindings_size(bs),
    decreases bs,
{
    if let Bindings::Cons(_, _, rest) = bs {
        lemma_names_within_size(*rest);
    }
}

/// Reserves a deferred slot for every binding of `bs`, binding its name
/// to the slot in `inner` and recording the slot in `slots`.
fn alloc_slots(
    lazy: &mut LazyArena<MirExpr>,
    inner: &mut Vec<(u64, Binding)>,
    slots: &mut Vec<LazyArenaId>,
    bs: &Bindings,
)
    requires
        old(lazy).wf(),
        slots_closed(old(lazy)@),
    ensures
        final(lazy).wf(),
        slots_closed(final(lazy)@),
        final(lazy)@.len() == old(lazy)@.len() + bound_names(*bs).len(),
        final(lazy)@.subrange(0, old(lazy)@.len() as int) == old(lazy)@,
        forall|k: int| old(lazy)@.len() <= k < final(lazy)@.len() ==> #[trigger] final(lazy)@[k] is Deferred,
        final(slots)@.len() == old(slots)@.len() + bound_names(*bs).len(),
        final(slots)@.subrange(0, old(slots)@.len() as int) == old(slots)@,
        forall|j: int|
            0 <= j < bound_names(*bs).len() ==> (#[trigger] final(slots)@[old(slots)@.len() + j]).0.index()
                == old(lazy)@.len() + j,
        final(inner)@.len() == old(inner)@.len() + bound_names(*bs).len(),
        final(inner)@.subrange(0, old(inner)@.len() as int) == old(inner)@,
        forall|j: int|
            0 <= j < bound_names(*bs).len() ==> #[trigger] final(inner)@[old(inner)@.len() + j] == (
                bound_names(*bs)[j],
                Binding::Node(final(slots)@[old(slots)@.len() + j]),
            ),
    decreases bs,
{
    match bs {
        Bindings::Nil => {
            assert(lazy@.subrange(0, lazy@.len() as int) =~= lazy@);
            assert(slots@.subrange(0, slots@.len() as int) =~= slots@);
            assert(inner@.subrange(0, inner@.len() as int) =~= inner@);
        },
        Bindings::Cons(name, _, rest) => {
            let slot = lazy.alloc_deferred();
            proof {
                let e = lazy@;
                assert forall|k: int| 0 <= k < e.len() && (#[trigger] e[k]) is Value implies e[k]->Value_0.children_below(
                    e.len(),
                ) by {
                    assert(e[k] == old(lazy)@[k]);
                    let c = e[k]->Value_0;
                    assert forall|i: int| 0 <= i < c.children().len() implies (#[trigger] c.children()[i]).index()
                        < e.len() by {
                        assert(c.children_below(old(lazy)@.len()));
                    }
                }
            }
            inner.push((*name, Binding::Node(slot)));
            slots.push(slot);
            let ghost l1 = lazy@;
            let ghost s1 = slots@;
            let ghost i1 = inner@;
            alloc_slots(lazy, inner, slots, rest);
            proof {
                let names = bound_names(*bs);
                assert(names =~= seq![*name] + bound_names(**rest));
                assert(lazy@.subrange(0, old(lazy)@.len() as int) =~= old(lazy)@) by {
                    assert(lazy@.subrange(0, l1.len() as int) == l1);
                    assert(l1.subrange(0, old(lazy)@.len() as int) =~= old(lazy)@);
                    assert(lazy@.subrange(0, old(lazy)@.len() as int) =~= l1.subrange(0, old(lazy)@.len() as int));
                }
                assert forall|k: int| old(lazy)@.len() <= k < lazy@.len() implies #[trigger] lazy@[k] is Deferred by {
                    if k < l1.len() {
                        assert(lazy@.subrange(0, l1.len() as int)[k] == lazy@[k]);
                    }
                }
                assert(slots@.subrange(0, old(slots)@.len() as int) =~= old(slots)@) by {
                    assert(slots@.subrange(0, s1.len() as int) == s1);
                    assert(slots@.subrange(0, old(slots)@.len() as int) =~= s1.subrange(0, old(slots)@.len() as int));
                }
                assert(inner@.subrange(0, old(inner)@.len() as int) =~= old(inner)@) by {
                    assert(inner@.subrange(0, i1.len() as int) == i1);
                    assert(inner@.subrange(0, old(inner)@.len() as int) =~= i1.subrange(0, old(inner)@.len() as int));
                }
                assert forall|j: int| 0 <= j < names.len() implies (#[trigger] slots@[old(slots)@.len() + j]).0.index()
                    == old(lazy)@.len() + j by {
                    if j == 0 {
                        assert(slots@.subrange(0, s1.len() as int)[old(slots)@.len() as int] == slots@[old(slots)@.len() as int]);
                    } else {
                        assert(slots@[s1.len() + (j - 1)].0.index() == l1.len() + (j - 1));
                    }
                }
                assert forall|j: int| 0 <= j < names.len() implies #[trigger] inner@[old(inner)@.len() + j] == (
                    names[j],
                    Binding::Node(slots@[old(slots)@.len() + j]),
                ) by {
                    if j == 0 {
                        assert(inner@.subrange(0, i1.len() as int)[old(inner)@.len() as int] == inner@[old(inner)@.len() as int]);
                        assert(slots@.subrange(0, s1.len() as int)[old(slots)@.len() as int] == slots@[old(slots)@.len() as int]);
                    } else {
                        assert(inner@[i1.len() + (j - 1)] == (
                            bound_names(**rest)[j - 1],
                            Binding::Node(slots@[s1.len() + (j - 1)]),
                        ));
                    }
                }
            }
        },
    }
}

/// Lowers the bound expressions of `bs`, the bindings from position `idx`
/// of the `let` on, filling each into its deferred slot `slots[idx + j]`;
/// the slots of the `let` start at `bound`.
fn lower_bindings(
    lazy: &mut LazyArena<MirExpr>,
    inner: &Vec<(u64, Binding)>,
    bs: &Bindings,
    slots: &Vec<LazyArenaId>,
    idx: usize,
    Ghost(bound): Ghost<nat>,
    depth: usize,
) -> (r: Result<(), LowerError>)
    requires
        old(lazy).wf(),
        slots_closed(old(lazy)@),
        scope_valid(inner@, old(lazy)@.len(), depth as nat),
        idx + bound_names(*bs).len() == slots@.len(),
        forall|j: int| 0 <= j < slots@.len() ==> (#[trigger] slots@[j]).0.index() == bound + j,
        bound + slots@.len() <= old(lazy)@.len(),
        forall|j: int| idx <= j < slots@.len() ==> #[trigger] old(lazy)@[bound + j] is Deferred,
        forall|k: int|
            bound <= k < old(lazy)@.len() && !(bound + idx <= k < bound + slots@.len()) ==> !(
            #[trigger] old(lazy)@[k] is Deferred),
    ensures
        final(lazy).wf(),
        slots_closed(final(lazy)@),
        final(lazy)@.len() >= old(lazy)@.len(),
        forall|k: int| 0 <= k < bound ==> #[trigger] final(lazy)@[k] == old(lazy)@[k],
        r is Ok ==> forall|k: int| bound <= k < final(lazy)@.len() ==> !(#[trigger] final(lazy)@[k] is Deferred),
        r is Ok ==> bindings_well_bound(*bs, scope_names(inner@)),
        bindings_well_bound(*bs, scope_names(inner@)) && depth + bindings_nesting(*bs) <= usize::MAX ==> r is Ok,
        r matches Err(LowerError::UnboundName(_)) ==> !bindings_well_bound(*bs, scope_names(inner@)),
        r matches Err(LowerError::TooDeep) ==> depth + bindings_nesting(*bs) > usize::MAX,
        refines(final(lazy)@, old(lazy)@),
        final(lazy)@.len() + bound_names(*bs).len() <= old(lazy)@.len() + bindings_size(*bs),
        r is Ok ==> lazy_bindings_denote(
            final(lazy)@,
            slots@.subrange(idx as int, slots@.len() as int),
            *bs,
            inner@,
            depth as nat,
        ),
    decreases bs, 0nat,
{
    proof {
        assert(lazy@.subrange(0, lazy@.len() as int) =~= lazy@);
        lemma_keeps_refines(lazy@, lazy@);
    }
    match bs {
        Bindings::Nil => Ok(()),
        Bindings::Cons(_, e, rest) => {
            let ghost l0 = lazy@;
            proof {
                lemma_names_within_size(**rest);
                assert(bound_names(*bs) =~= seq![bound_names(*bs)[0]] + bound_names(**rest));
            }
            let id = match lower_expr(lazy, inner, e, depth) {
                Ok(id) => id,
                Err(err) => {
                    proof {
                        assert forall|k: int| 0 <= k < bound implies #[trigger] lazy@[k] == l0[k] by {
                            assert(lazy@.subrange(0, l0.len() as int)[k] == lazy@[k]);
                        }
                        lemma_keeps_refines(lazy@, l0);
                    }
                    return Err(err);
                },
            };
            let ghost l1 = lazy@;
            proof {
                assert(l1.subrange(0, l0.len() as int)[bound + idx] == l1[bound + idx]);
            }
            lazy.fill_deferred(slots[idx], id);
            let ghost l2 = lazy@;
            proof {
                assert forall|k: int| 0 <= k < l2.len() && (#[trigger] l2[k]) is Value implies l2[k]->Value_0.children_below(
                    l2.len(),
                ) by {
                    assert(l2[k] == l1[k]);
                }
                lemma_scope_valid_grow(inner@, l0.len(), l2.len(), depth as nat);
                assert forall|j: int| idx + 1 <= j < slots@.len() implies #[trigger] l2[bound + j] is Deferred by {
                    assert(l1.subrange(0, l0.len() as int)[bound + j] == l1[bound + j]);
                }
                assert forall|k: int|
                    bound <= k < l2.len() && !(bound + idx + 1 <= k < bound + slots@.len()) implies !(
                    #[trigger] l2[k] is Deferred) by {
                    if k < l0.len() && k != bound + idx {
                        assert(l1.subrange(0, l0.len() as int)[k] == l1[k]);
                    }
                }
            }
            let n = slots.len();
            proof {
                assert(bound_names(*bs) =~= seq![bound_names(*bs)[0]] + bound_names(**rest));
                assert(idx < n);
            }
            let r = lower_bindings(lazy, inner, rest, slots, idx + 1, Ghost(bound), depth);
            proof {
                assert forall|k: int| 0 <= k < bound implies #[trigger] lazy@[k] == l0[k] by {
                    assert(l1.subrange(0, l0.len() as int)[k] == l1[k]);
                }
                let slot = slots@[idx as int].0.index() as int;
                lemma_keeps_refines(l1, l0);
                assert(refines(l2, l1)) by {
                    assert forall|i: int| 0 <= i < l1.len() && !(#[trigger] l1[i] is Deferred) implies l2[i] == l1[i] by {
                        assert(i != slot);
                    }
                }
                lemma_refines_trans(lazy@, l2, l1);
                lemma_refines_trans(lazy@, l1, l0);
                if r is Ok {
                    assert(l2[slot] == MaybeOrRef::<MirExpr>::Ref(id));
                    assert(lazy@[slot] == l2[slot]);
                    lemma_refines_trans(lazy@, l2, l1);
                    lemma_lazy_denotes_refines(l1, lazy@, id.0.index() as int, **e, inner@, depth as nat);
                    let ss = slots@.subrange(idx as int, slots@.len() as int);
                    assert(ss.drop_first() =~= slots@.subrange(idx + 1, slots@.len() as int));
                    assert(ss[0] == slots@[idx as int]);
                }
            }
            r
        },
    }
}

/// `e` with every sub-expression id `c` replaced by `ids[c]`.
fn relink(e: MirExpr, ids: &Vec<ArenaId>) -> (r: MirExpr)
    requires
        e.children_below(ids@.len()),
    ensures
        same_shape(e, r),
        r.children().len() == e.children().len(),
        forall|i: int| 0 <= i < e.children().len() ==> #[trigger] r.children()[i] == ids@[e.children()[i].index() as int],
{
    match e {
        MirExpr::LambdaCall(c) => {
            assert(e.children()[0] == c.lambda && e.children()[1] == c.argument);
            let r = MirExpr::LambdaCall(GenericLambdaCall { lambda: ids[c.lambda.idx()], argument: ids[c.argument.idx()] });
            assert(r.children() =~= seq![ids@[c.lambda.index() as int], ids@[c.argument.index() as int]]);
            r
        },
        MirExpr::Lambda(l) => {
            assert(e.children()[0] == l.body);
            MirExpr::Lambda(GenericLambda { param: l.param, body: ids[l.body.idx()] })
        },
        MirExpr::Literal(lit) => MirExpr::Literal(lit),
        MirExpr::Param(p) => MirExpr::Param(p),
        MirExpr::Intrinsic(i) => {
            let r = match i {
                GenericIntrinsic::LambdaCall(a, b) => {
                    assert(e.children()[0] == a && e.children()[1] == b);
                    GenericIntrinsic::LambdaCall(ids[a.idx()], ids[b.idx()])
                },
                GenericIntrinsic::LessOrEq(a, b) => {
                    assert(e.children()[0] == a && e.children()[1] == b);
                    GenericIntrinsic::LessOrEq(ids[a.idx()], ids[b.idx()])
                },
                GenericIntrinsic::Add(a, b) => {
                    assert(e.children()[0] == a && e.children()[1] == b);
                    GenericIntrinsic::Add(ids[a.idx()], ids[b.idx()])
                },
                GenericIntrinsic::Subtract(a, b) => {
                    assert(e.children()[0] == a && e.children()[1] == b);
                    GenericIntrinsic::Subtract(ids[a.idx()], ids[b.idx()])
                },
                GenericIntrinsic::IfElse(a, b, c) => {
                    assert(e.children()[0] == a && e.children()[1] == b && e.children()[2] == c);
                    GenericIntrinsic::IfElse(ids[a.idx()], ids[b.idx()], ids[c.idx()])
                },
            };
            MirExpr::Intrinsic(r)
        },
    }
}

proof fn lemma_count_values_hit(e: Seq<MaybeOrRef<MirExpr>>, n: int, i: int)
    requires
        0 <= n,
        0 <= i < count_values(e, n),
    ensures
        exists|k: int| 0 <= k < n && e[k] is Value && #[trigger] count_values(e, k) == i,
    decreases n,
{
    lemma_count_values_step(e, 0);
    assert(n > 0);
    lemma_count_values_step(e, n - 1);
    if i < count_values(e, n - 1) {
        lemma_count_values_hit(e, n - 1, i);
        let k = choose|k: int| 0 <= k < n - 1 && e[k] is Value && #[trigger] count_values(e, k) == i;
        assert(0 <= k < n && e[k] is Value && count_values(e, k) == i);
    } else {
        assert(e[n - 1] is Value && count_values(e, n - 1) == i);
    }
}

/// A slot's position in the flattened arena lies inside it.
proof fn lemma_flat_index_in(e: Seq<MaybeOrRef<MirExpr>>, c: int)
    requires
        0 <= c < e.len(),
    ensures
        flat_index(e, c) < count_values(e, e.len() as int) + if has_cycle(e) {
            1int
        } else {
            0int
        },
{
    reveal(resolution);
    match resolution(e, c) {
        Some(t) => {
            assert(crate::lazy_arena::reaches(e, c, t));
            lemma_count_values_value(e, t, e.len() as int);
        },
        None => {
            assert(has_cycle(e));
        },
    }
}

/// What flattening the lowered arena `e` gave, `a`, is `flattened_into`.
proof fn lemma_flattened(e: Seq<MaybeOrRef<MirExpr>>, a: Seq<MirExpr>)
    requires
        e.len() <= usize::MAX,
        slots_closed(e),
        a.len() == count_values(e, e.len() as int) + if has_cycle(e) {
            1int
        } else {
            0int
        },
        forall|k: int|
            0 <= k < e.len() && #[trigger] e[k] is Value ==> exists|m: Vec<ArenaId>|
                m@ == flat_ids(e) && call_ensures(relink, (e[k]->Value_0, &m), a[count_values(e, k) as int]),
    ensures
        flattened_into(e, a),
{
    assert forall|k: int| #[trigger] flat_index(e, k) <= usize::MAX by {
        lemma_flat_index_bound(e, k);
    }
    assert forall|k: int| is_node(e, k) implies #[trigger] node_flattened(e, a, k) by {
        lemma_value_resolves_to_itself(e, k);
        lemma_count_values_value(e, k, e.len() as int);
        let m = choose|m: Vec<ArenaId>|
            m@ == flat_ids(e) && call_ensures(relink, (e[k]->Value_0, &m), a[count_values(e, k) as int]);
        let x = e[k]->Value_0;
        let fi = flat_index(e, k) as int;
        assert(fi == count_values(e, k));
        assert forall|i: int| 0 <= i < x.children().len() implies #[trigger] a[fi].children()[i].index()
            == flat_index(e, x.children()[i].index() as int) by {
            assert(x.children_below(e.len()));
            assert(a[fi].children()[i] == m@[x.children()[i].index() as int]);
        }
    }
    assert forall|k: int| 0 <= k < e.len() && (#[trigger] e[k]) is Ref implies flat_index(e, k) == flat_index(
        e,
        e[k]->Ref_0.0.index() as int,
    ) by {
        lemma_ref_flat_index(e, k);
    }
}

/// Lowers `ast` to an expression with its own arena.
///
/// Fails with `UnboundName` only where `ast` uses a name that nothing binds,
/// and with `TooDeep` only where lambdas nest deeper than a `usize` counts;
/// succeeds otherwise. A `let` binding that refers only to itself, directly
/// or through other bindings, becomes a parameter that no lambda binds.
pub fn lower(ast: &Ast) -> (r: Result<RootExpr, LowerError>)
    ensures
        r matches Ok(root) ==> root.wf(),
        r is Ok ==> well_bound(*ast, Seq::empty()),
        well_bound(*ast, Seq::empty()) && nesting(*ast) <= usize::MAX ==> r is Ok,
        r matches Err(LowerError::UnboundName(_)) ==> !well_bound(*ast, Seq::empty()),
        r matches Err(LowerError::TooDeep) ==> nesting(*ast) > usize::MAX,
        r matches Ok(root) ==> denotes(
            root.spec_arena(),
            root.spec_root().index() as int,
            *ast,
            Seq::empty(),
            0,
        ),
        r matches Ok(root) ==> root.spec_arena().len() <= ast_size(*ast) + 1,
{
    let mut lazy: LazyArena<MirExpr> = LazyArena::new();
    let scope: Vec<(u64, Binding)> = Vec::new();
    proof {
        assert(scope_names(scope@) =~= Seq::<u64>::empty());
    }
    let root = lower_expr(&mut lazy, &scope, ast, 0)?;
    let ghost e = lazy@;
    proof {
        assert forall|k: int| 0 <= k < e.len() implies !(#[trigger] e[k] is Deferred) by {
        }
        assert forall|k: int, m: Vec<ArenaId>|
            0 <= k < e.len() && e[k] is Value && m@ == flat_ids(e) implies #[trigger] call_requires(
            relink,
            (e[k]->Value_0, &m),
        ) by {
            assert(e[k]->Value_0.children_below(e.len()));
        }
    }
    let placeholder = MirExpr::Param(Param { depth: usize::MAX });
    let size = lazy.size();
    let (arena, root_id) = lazy.flatten(root, placeholder, relink);
    proof {
        let n = e.len() as int;
        let len = arena@.len();
        assert forall|i: int| 0 <= i < len implies (#[trigger] arena@[i]).children_below(len) by {
            if i < count_values(e, n) {
                lemma_count_values_hit(e, n, i);
                let k = choose|k: int| 0 <= k < n && e[k] is Value && #[trigger] count_values(e, k) == i;
                let m = choose|m: Vec<ArenaId>| m@ == flat_ids(e) && call_ensures(
                    relink,
                    (e[k]->Value_0, &m),
                    arena@[count_values(e, k) as int],
                );
                let x = e[k]->Value_0;
                assert forall|j: int| 0 <= j < arena@[i].children().len() implies (
                #[trigger] arena@[i].children()[j]).index() < len by {
                    let c = x.children()[j].index() as int;
                    assert(x.children_below(e.len()));
                    lemma_flat_index_in(e, c);
                    assert(arena@[i].children()[j] == m@[c]);
                }
            } else {
                assert(arena@[i] == placeholder);
            }
        }
        lemma_flat_index_in(e, root.0.index() as int);
        assert(size == e.len());
        lemma_flattened(e, arena@);
        lemma_flatten_keeps_lowering(e, arena@, root.0.index() as int, *ast, Seq::empty(), 0);
        lemma_count_values_le(e, e.len() as int);
        assert(flat_env(e, Seq::<(u64, Binding)>::empty()) =~= Seq::<(u64, Meaning)>::empty());
    }
    Ok(RootExpr::new(arena, root_id))
}

} // verus!
