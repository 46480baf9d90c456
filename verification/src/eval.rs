//! The evaluator: lazy evaluation with shared thunks, memoized by the
//! colors of the evaluated expressions and the values on their callstacks.
//!
//! Evaluation is defined by the spec functions below (`evaluate` and the
//! functions it calls), over the model of the evaluation state; every
//! executable function is proved to compute exactly that. `fuel` bounds how
//! deeply evaluations nest: an evaluation that would nest deeper fails with
//! `EvalError::DepthExceeded`.
use vstd::prelude::*;

use crate::arena::ArenaId;
use crate::colorable_root::ColorableRootExpr;
use crate::cache::{Cache, CacheModel};
use crate::coloring::{ColoredExpr, ColoredExprArena, color_view, colors_of};
use crate::memo::{cache_wf, evaluation_key, get_result, lemma_store_result_wf, store_result};
use crate::mir::{Literal, MirExpr, MirIntrinsic, MirLambdaCall};
use crate::generic_lang::GenericIntrinsic;
use crate::record::EvalHash;
use crate::thunk::ThunkStore;
use crate::forcing_laws::{lemma_forced_never_thunk, settled_cells};
use crate::value::{
    Callstack, EvalError, EvalResult, Lambda, Number, Thunk, ThunkModel, ThunkState, Value,
    ValueModel, duplicate_result, result_view,
};

verus! {

/// The mutable state of an evaluation: the thunk store and the cache.
pub struct EvalState {
    thunks: ThunkStore,
    cache: Cache,
}

/// The model of an evaluation state.
pub struct EvalStateModel {
    pub thunks: Seq<ThunkModel>,
    pub cache: CacheModel,
}

impl View for EvalState {
    type V = EvalStateModel;

    closed spec fn view(&self) -> EvalStateModel {
        EvalStateModel { thunks: self.thunks@, cache: self.cache@ }
    }
}

/// The outcome of a step of evaluation: the new state and the result.
pub type Outcome = (EvalStateModel, Result<ValueModel, EvalError>);

/// The state with a new thunk cell `cell`, and the new thunk.
pub open spec fn with_cell(s: EvalStateModel, cell: ThunkModel) -> (EvalStateModel, Thunk) {
    (EvalStateModel { thunks: s.thunks.push(cell), cache: s.cache }, Thunk(s.thunks.len() as usize))
}

/// The state with cell `t` replaced by `cell`.
pub open spec fn set_cell(s: EvalStateModel, t: Thunk, cell: ThunkModel) -> EvalStateModel {
    EvalStateModel { thunks: s.thunks.update(t.0 as int, cell), cache: s.cache }
}

/// `a + b`, or `Overflow` where it does not fit in an `i64`.
pub open spec fn add_result(a: Number, b: Number) -> Result<ValueModel, EvalError> {
    if i64::MIN <= a.value() + b.value() <= i64::MAX {
        Ok(ValueModel::Number(Number::Integer((a.value() + b.value()) as i64)))
    } else {
        Err(EvalError::Overflow)
    }
}

/// `a + (-b)`, or `Overflow` where `-b` or the sum does not fit.
pub open spec fn subtract_result(a: Number, b: Number) -> Result<ValueModel, EvalError> {
    if b.value() == i64::MIN {
        Err(EvalError::Overflow)
    } else {
        add_result(a, Number::Integer((-b.value()) as i64))
    }
}

/// Evaluates expression `id` on callstack `cs`. A memoized result for the
/// expression's color and the values on `cs` is used where there is one;
/// otherwise the expression is evaluated (see `evaluate_node`) and its
/// result memoized.
pub open spec fn evaluate(
    exprs: Seq<ColoredExpr>,
    s: EvalStateModel,
    id: ArenaId,
    cs: Seq<Thunk>,
    fuel: nat,
) -> Outcome
    decreases fuel, 2nat,
{
    let colors = colors_of(exprs);
    if fuel == 0 {
        (s, Err(EvalError::DepthExceeded))
    } else if id.index() >= exprs.len() {
        (s, Err(EvalError::Unscoped))
    } else {
        let key = evaluation_key(colors, s.thunks, color_view(exprs[id.index() as int].color), cs);
        let hit = match key {
            Some(k) => get_result(colors, s.cache, s.thunks, k),
            None => (s.thunks, None),
        };
        match hit.1 {
            Some(v) => (EvalStateModel { thunks: hit.0, cache: s.cache }, Ok(v)),
            None => {
                let (s1, r) = evaluate_node(exprs, s, exprs[id.index() as int].expr, cs, fuel);
                match key {
                    Some(k) => (
                        EvalStateModel {
                            thunks: s1.thunks,
                            cache: store_result(colors, s1.thunks, s1.cache, k, r),
                        },
                        r,
                    ),
                    None => (s1, r),
                }
            },
        }
    }
}

/// Evaluates expression `e` on callstack `cs`: a literal is its number, a
/// parameter the thunk on the callstack at its depth, a lambda closes over
/// the callstack up to its depth.
pub open spec fn evaluate_node(
    exprs: Seq<ColoredExpr>,
    s: EvalStateModel,
    e: MirExpr,
    cs: Seq<Thunk>,
    fuel: nat,
) -> Outcome
    decreases fuel, 1nat,
{
    match e {
        MirExpr::Literal(Literal::Integer(n)) => (s, Ok(ValueModel::Number(Number::Integer(n)))),
        MirExpr::Param(p) => if p.depth < cs.len() {
            (s, Ok(ValueModel::Thunk(cs[p.depth as int])))
        } else {
            (s, Err(EvalError::Unscoped))
        },
        MirExpr::Lambda(l) => if l.param.depth <= cs.len() {
            (s, Ok(ValueModel::Lambda(l.body, cs.take(l.param.depth as int))))
        } else {
            (s, Err(EvalError::Unscoped))
        },
        MirExpr::LambdaCall(c) => evaluate_lambda_call(exprs, s, c, cs, fuel),
        MirExpr::Intrinsic(i) => evaluate_intrinsic(exprs, s, i, cs, fuel),
    }
}

/// Applies a lambda: evaluates the lambda expression to a value, forces it
/// to a lambda (or fails with `NotALambda`), and evaluates its body on its
/// captures with a new deferred thunk of the argument pushed.
pub open spec fn evaluate_lambda_call(
    exprs: Seq<ColoredExpr>,
    s: EvalStateModel,
    c: MirLambdaCall,
    cs: Seq<Thunk>,
    fuel: nat,
) -> Outcome
    decreases fuel, 0nat,
{
    if fuel == 0 {
        (s, Err(EvalError::DepthExceeded))
    } else {
        let (s1, r) = evaluate(exprs, s, c.lambda, cs, (fuel - 1) as nat);
        match r {
            Err(e) => (s1, Err(e)),
            Ok(v) => {
                let (s2, r2) = whnf(exprs, s1, v, (fuel - 1) as nat);
                match r2 {
                    Err(e) => (s2, Err(e)),
                    Ok(ValueModel::Lambda(body, caps)) => {
                        let (s3, arg) = with_cell(s2, ThunkModel::Deferred(c.argument, cs));
                        evaluate(exprs, s3, body, caps.push(arg), (fuel - 1) as nat)
                    },
                    Ok(_) => (s2, Err(EvalError::NotALambda)),
                }
            },
        }
    }
}

/// Evaluates an intrinsic: every operand becomes a new deferred thunk on
/// `cs`; the operands the builtin needs as numbers, booleans or a lambda
/// are forced, in order, and fail with `WrongType` if they are something
/// else; the others are passed on as thunks.
pub open spec fn evaluate_intrinsic(
    exprs: Seq<ColoredExpr>,
    s: EvalStateModel,
    i: MirIntrinsic,
    cs: Seq<Thunk>,
    fuel: nat,
) -> Outcome
    decreases fuel, 0nat,
{
    if fuel == 0 {
        (s, Err(EvalError::DepthExceeded))
    } else {
        let f = (fuel - 1) as nat;
        match i {
            GenericIntrinsic::LambdaCall(lam, arg) => {
                let (s1, tl) = with_cell(s, ThunkModel::Deferred(lam, cs));
                let (s2, ta) = with_cell(s1, ThunkModel::Deferred(arg, cs));
                let (s3, rl) = lambda_operand(exprs, s2, tl, f);
                match rl {
                    Err(e) => (s3, Err(e)),
                    Ok((body, caps)) => evaluate(exprs, s3, body, caps.push(ta), f),
                }
            },
            GenericIntrinsic::LessOrEq(a, b) => {
                let (s1, r) = number_operands(exprs, s, a, b, cs, f);
                match r {
                    Err(e) => (s1, Err(e)),
                    Ok((x, y)) => (s1, Ok(ValueModel::Bool(x.value() <= y.value()))),
                }
            },
            GenericIntrinsic::Add(a, b) => {
                let (s1, r) = number_operands(exprs, s, a, b, cs, f);
                match r {
                    Err(e) => (s1, Err(e)),
                    Ok((x, y)) => (s1, add_result(x, y)),
                }
            },
            GenericIntrinsic::Subtract(a, b) => {
                let (s1, r) = number_operands(exprs, s, a, b, cs, f);
                match r {
                    Err(e) => (s1, Err(e)),
                    Ok((x, y)) => (s1, subtract_result(x, y)),
                }
            },
            GenericIntrinsic::IfElse(c, t, e) => {
                let (s1, tc) = with_cell(s, ThunkModel::Deferred(c, cs));
                let (s2, tt) = with_cell(s1, ThunkModel::Deferred(t, cs));
                let (s3, te) = with_cell(s2, ThunkModel::Deferred(e, cs));
                let (s4, rc) = bool_operand(exprs, s3, tc, f);
                match rc {
                    Err(err) => (s4, Err(err)),
                    Ok(b) => (s4, Ok(if b { ValueModel::Thunk(tt) } else { ValueModel::Thunk(te) })),
                }
            },
        }
    }
}

/// Two operands as deferred thunks on `cs`, forced in order to numbers.
pub open spec fn number_operands(
    exprs: Seq<ColoredExpr>,
    s: EvalStateModel,
    a: ArenaId,
    b: ArenaId,
    cs: Seq<Thunk>,
    fuel: nat,
) -> (EvalStateModel, Result<(Number, Number), EvalError>)
    decreases fuel, 6nat,
{
    let (s1, ta) = with_cell(s, ThunkModel::Deferred(a, cs));
    let (s2, tb) = with_cell(s1, ThunkModel::Deferred(b, cs));
    let (s3, ra) = number_operand(exprs, s2, ta, fuel);
    match ra {
        Err(e) => (s3, Err(e)),
        Ok(x) => {
            let (s4, rb) = number_operand(exprs, s3, tb, fuel);
            match rb {
                Err(e) => (s4, Err(e)),
                Ok(y) => (s4, Ok((x, y))),
            }
        },
    }
}

/// Forces `t` and takes its number.
pub open spec fn number_operand(exprs: Seq<ColoredExpr>, s: EvalStateModel, t: Thunk, fuel: nat) -> (
    EvalStateModel,
    Result<Number, EvalError>,
)
    decreases fuel, 5nat,
{
    let (s1, r) = forced(exprs, s, t, fuel);
    (
        s1,
        match r {
            Ok(ValueModel::Number(n)) => Ok(n),
            Ok(_) => Err(EvalError::WrongType),
            Err(e) => Err(e),
        },
    )
}

/// Forces `t` and takes its boolean.
pub open spec fn bool_operand(exprs: Seq<ColoredExpr>, s: EvalStateModel, t: Thunk, fuel: nat) -> (
    EvalStateModel,
    Result<bool, EvalError>,
)
    decreases fuel, 5nat,
{
    let (s1, r) = forced(exprs, s, t, fuel);
    (
        s1,
        match r {
            Ok(ValueModel::Bool(b)) => Ok(b),
            Ok(_) => Err(EvalError::WrongType),
            Err(e) => Err(e),
        },
    )
}

/// Forces `t` and takes its lambda: body and captures.
pub open spec fn lambda_operand(exprs: Seq<ColoredExpr>, s: EvalStateModel, t: Thunk, fuel: nat) -> (
    EvalStateModel,
    Result<(ArenaId, Seq<Thunk>), EvalError>,
)
    decreases fuel, 5nat,
{
    let (s1, r) = forced(exprs, s, t, fuel);
    (
        s1,
        match r {
            Ok(ValueModel::Lambda(body, caps)) => Ok((body, caps)),
            Ok(_) => Err(EvalError::WrongType),
            Err(e) => Err(e),
        },
    )
}

/// Forces thunk `t`: a forced thunk gives its outcome; a thunk being
/// evaluated is a reference cycle; a deferred thunk is marked as being
/// evaluated, its expression evaluated on its callstack and the value
/// forced in turn, and the outcome stored in the thunk.
pub open spec fn forced(exprs: Seq<ColoredExpr>, s: EvalStateModel, t: Thunk, fuel: nat) -> Outcome
    decreases fuel, 3nat,
{
    if t.0 >= s.thunks.len() {
        (s, Err(EvalError::Unscoped))
    } else {
        match s.thunks[t.0 as int] {
            ThunkModel::Forced(r) => (s, r),
            ThunkModel::Evaluating => (s, Err(EvalError::RefCycle)),
            ThunkModel::Deferred(e, cs) => {
                if fuel == 0 {
                    (s, Err(EvalError::DepthExceeded))
                } else {
                    let s1 = set_cell(s, t, ThunkModel::Evaluating);
                    let (s2, r) = evaluate(exprs, s1, e, cs, (fuel - 1) as nat);
                    let (s3, r2) = match r {
                        Ok(v) => whnf(exprs, s2, v, (fuel - 1) as nat),
                        Err(err) => (s2, Err(err)),
                    };
                    (set_cell(s3, t, ThunkModel::Forced(r2)), r2)
                }
            },
        }
    }
}

/// A thunk value forced; any other value as it is.
pub open spec fn whnf(exprs: Seq<ColoredExpr>, s: EvalStateModel, v: ValueModel, fuel: nat) -> Outcome
    decreases fuel, 4nat,
{
    match v {
        ValueModel::Thunk(t) => forced(exprs, s, t, fuel),
        _ => (s, Ok(v)),
    }
}

/// Evaluates expression `root` on the empty callstack and forces the value.
pub open spec fn evaluate_root(exprs: Seq<ColoredExpr>, s: EvalStateModel, root: ArenaId, fuel: nat) -> Outcome {
    let (s1, r) = evaluate(exprs, s, root, Seq::empty(), fuel);
    match r {
        Ok(v) => whnf(exprs, s1, v, fuel),
        Err(e) => (s1, Err(e)),
    }
}

impl EvalState {
    /// A fresh state: no thunks, an empty cache.
    pub fn new() -> (s: EvalState)
        ensures
            s@.thunks == Seq::<ThunkModel>::empty(),
            s@.cache == Cache::new_model(),
    {
        EvalState { thunks: ThunkStore::new(), cache: Cache::new() }
    }

    /// A state with no thunks that memoizes in `cache`.
    pub fn with_cache(cache: Cache) -> (s: EvalState)
        ensures
            s@.thunks == Seq::<ThunkModel>::empty(),
            s@.cache == cache@,
    {
        EvalState { thunks: ThunkStore::new(), cache }
    }

    /// The cache, giving up the thunks.
    pub fn into_cache(self) -> (c: Cache)
        ensures
            c@ == self@.cache,
    {
        self.cache
    }

    /// The thunk store.
    pub fn thunks(&self) -> (t: &ThunkStore)
        ensures
            t@ == self@.thunks,
    {
        &self.thunks
    }

    /// The cache.
    pub fn cache(&self) -> (c: &Cache)
        ensures
            c@ == self@.cache,
    {
        &self.cache
    }
}

/// Evaluates expression `id` of `arena` on callstack `cs` (see `evaluate`).
pub fn eval_expr(arena: &ColoredExprArena, st: &mut EvalState, id: ArenaId, cs: &Callstack, fuel: usize) -> (r:
    EvalResult)
    requires
        cache_wf(old(st)@.cache, colors_of(arena@)),
    ensures
        cache_wf(final(st)@.cache, colors_of(arena@)),
        final(st)@.thunks.len() >= old(st)@.thunks.len(),
        (final(st)@, result_view(r)) == evaluate(arena@, old(st)@, id, cs@, fuel as nat),
    decreases fuel, 2nat,
{
    if fuel == 0 {
        return Err(EvalError::DepthExceeded);
    }
    if id.idx() >= arena.size() {
        return Err(EvalError::Unscoped);
    }
    let node = arena.get(id);
    let key = EvalHash::new_pure(node, cs, arena, &st.thunks);
    match key {
        Some(k) => match st.cache.get_result(arena, &mut st.thunks, &k) {
            Some(v) => {
                return Ok(v);
            },
            None => {},
        },
        None => {},
    }
    let expr = node.expr;
    let r = eval_node(arena, st, &expr, cs, fuel);
    match key {
        Some(k) => {
            proof {
                lemma_store_result_wf(colors_of(arena@), st@.thunks, st@.cache, k.0@, result_view(r));
            }
            st.cache.store_result(arena, &st.thunks, k, &r);
        },
        None => {},
    }
    r
}

/// Evaluates expression `e` on callstack `cs` (see `evaluate_node`).
fn eval_node(arena: &ColoredExprArena, st: &mut EvalState, e: &MirExpr, cs: &Callstack, fuel: usize) -> (r: EvalResult)
    requires
        cache_wf(old(st)@.cache, colors_of(arena@)),
    ensures
        cache_wf(final(st)@.cache, colors_of(arena@)),
        final(st)@.thunks.len() >= old(st)@.thunks.len(),
        (final(st)@, result_view(r)) == evaluate_node(arena@, old(st)@, *e, cs@, fuel as nat),
    decreases fuel, 1nat,
{
    match e {
        MirExpr::Literal(Literal::Integer(n)) => Ok(Value::Number(Number::Integer(*n))),
        MirExpr::Param(p) => {
            if p.depth < cs.len() {
                Ok(Value::Thunk(cs.get(p.depth)))
            } else {
                Err(EvalError::Unscoped)
            }
        },
        MirExpr::Lambda(l) => {
            if l.param.depth <= cs.len() {
                Ok(Value::Lambda(Lambda::new(l.body, cs.prefix(l.param.depth))))
            } else {
                Err(EvalError::Unscoped)
            }
        },
        MirExpr::LambdaCall(c) => eval_lambda_call(arena, st, c, cs, fuel),
        MirExpr::Intrinsic(i) => eval_intrinsic(arena, st, i, cs, fuel),
    }
}

/// Applies a lambda expression to an argument (see `evaluate_lambda_call`).
fn eval_lambda_call(arena: &ColoredExprArena, st: &mut EvalState, c: &MirLambdaCall, cs: &Callstack, fuel: usize) -> (r:
    EvalResult)
    requires
        cache_wf(old(st)@.cache, colors_of(arena@)),
    ensures
        cache_wf(final(st)@.cache, colors_of(arena@)),
        final(st)@.thunks.len() >= old(st)@.thunks.len(),
        (final(st)@, result_view(r)) == evaluate_lambda_call(arena@, old(st)@, *c, cs@, fuel as nat),
    decreases fuel, 0nat,
{
    if fuel == 0 {
        return Err(EvalError::DepthExceeded);
    }
    let r = eval_expr(arena, st, c.lambda, cs, fuel - 1);
    match r {
        Err(e) => Err(e),
        Ok(v) => {
            let r2 = v.eval_thunk(arena, st, fuel - 1);
            match r2 {
                Err(e) => Err(e),
                Ok(Value::Lambda(l)) => {
                    let arg = Thunk::new(&mut st.thunks, c.argument, cs.duplicate());
                    lambda_call(l, arg, arena, st, fuel - 1)
                },
                Ok(_) => Err(EvalError::NotALambda),
            }
        },
    }
}

/// Evaluates an intrinsic (see `evaluate_intrinsic`).
fn eval_intrinsic(arena: &ColoredExprArena, st: &mut EvalState, i: &MirIntrinsic, cs: &Callstack, fuel: usize) -> (r:
    EvalResult)
    requires
        cache_wf(old(st)@.cache, colors_of(arena@)),
    ensures
        cache_wf(final(st)@.cache, colors_of(arena@)),
        final(st)@.thunks.len() >= old(st)@.thunks.len(),
        (final(st)@, result_view(r)) == evaluate_intrinsic(arena@, old(st)@, *i, cs@, fuel as nat),
    decreases fuel, 0nat,
{
    if fuel == 0 {
        return Err(EvalError::DepthExceeded);
    }
    match i {
        GenericIntrinsic::LambdaCall(lam, arg) => {
            let tl = Thunk::new(&mut st.thunks, *lam, cs.duplicate());
            let ta = Thunk::new(&mut st.thunks, *arg, cs.duplicate());
            match force_lambda(arena, st, tl, fuel - 1) {
                Err(e) => Err(e),
                Ok(l) => lambda_call(l, ta, arena, st, fuel - 1),
            }
        },
        GenericIntrinsic::LessOrEq(a, b) => match force_numbers(arena, st, *a, *b, cs, fuel - 1) {
            Err(e) => Err(e),
            Ok((x, y)) => less_or_eq(x, y),
        },
        GenericIntrinsic::Add(a, b) => match force_numbers(arena, st, *a, *b, cs, fuel - 1) {
            Err(e) => Err(e),
            Ok((x, y)) => self::add(x, y),
        },
        GenericIntrinsic::Subtract(a, b) => match force_numbers(arena, st, *a, *b, cs, fuel - 1) {
            Err(e) => Err(e),
            Ok((x, y)) => subtract(x, y),
        },
        GenericIntrinsic::IfElse(c, t, e) => {
            let tc = Thunk::new(&mut st.thunks, *c, cs.duplicate());
            let tt = Thunk::new(&mut st.thunks, *t, cs.duplicate());
            let te = Thunk::new(&mut st.thunks, *e, cs.duplicate());
            match force_bool(arena, st, tc, fuel - 1) {
                Err(err) => Err(err),
                Ok(b) => if_else(b, Value::Thunk(tt), Value::Thunk(te)),
            }
        },
    }
}

fn force_numbers(
    arena: &ColoredExprArena,
    st: &mut EvalState,
    a: ArenaId,
    b: ArenaId,
    cs: &Callstack,
    fuel: usize,
) -> (r: Result<(Number, Number), EvalError>)
    requires
        cache_wf(old(st)@.cache, colors_of(arena@)),
    ensures
        cache_wf(final(st)@.cache, colors_of(arena@)),
        final(st)@.thunks.len() >= old(st)@.thunks.len(),
        (final(st)@, r) == number_operands(arena@, old(st)@, a, b, cs@, fuel as nat),
    decreases fuel, 6nat,
{
    let ta = Thunk::new(&mut st.thunks, a, cs.duplicate());
    let tb = Thunk::new(&mut st.thunks, b, cs.duplicate());
    match force_number(arena, st, ta, fuel) {
        Err(e) => Err(e),
        Ok(x) => match force_number(arena, st, tb, fuel) {
            Err(e) => Err(e),
            Ok(y) => Ok((x, y)),
        },
    }
}

fn force_number(arena: &ColoredExprArena, st: &mut EvalState, t: Thunk, fuel: usize) -> (r: Result<Number, EvalError>)
    requires
        cache_wf(old(st)@.cache, colors_of(arena@)),
    ensures
        cache_wf(final(st)@.cache, colors_of(arena@)),
        final(st)@.thunks.len() >= old(st)@.thunks.len(),
        (final(st)@, r) == number_operand(arena@, old(st)@, t, fuel as nat),
    decreases fuel, 5nat,
{
    match t.force(arena, st, fuel) {
        Ok(Value::Number(n)) => Ok(n),
        Ok(_) => Err(EvalError::WrongType),
        Err(e) => Err(e),
    }
}

fn force_bool(arena: &ColoredExprArena, st: &mut EvalState, t: Thunk, fuel: usize) -> (r: Result<bool, EvalError>)
    requires
        cache_wf(old(st)@.cache, colors_of(arena@)),
    ensures
        cache_wf(final(st)@.cache, colors_of(arena@)),
        final(st)@.thunks.len() >= old(st)@.thunks.len(),
        (final(st)@, r) == bool_operand(arena@, old(st)@, t, fuel as nat),
    decreases fuel, 5nat,
{
    match t.force(arena, st, fuel) {
        Ok(Value::Bool(b)) => Ok(b),
        Ok(_) => Err(EvalError::WrongType),
        Err(e) => Err(e),
    }
}

fn force_lambda(arena: &ColoredExprArena, st: &mut EvalState, t: Thunk, fuel: usize) -> (r: Result<Lambda, EvalError>)
    requires
        cache_wf(old(st)@.cache, colors_of(arena@)),
    ensures
        cache_wf(final(st)@.cache, colors_of(arena@)),
        final(st)@.thunks.len() >= old(st)@.thunks.len(),
        final(st)@ == lambda_operand(arena@, old(st)@, t, fuel as nat).0,
        match r {
            Ok(l) => lambda_operand(arena@, old(st)@, t, fuel as nat).1 == Ok::<(ArenaId, Seq<Thunk>), EvalError>(
                (l.spec_body(), l.spec_captures()),
            ),
            Err(e) => lambda_operand(arena@, old(st)@, t, fuel as nat).1 == Err::<(ArenaId, Seq<Thunk>), EvalError>(e),
        },
    decreases fuel, 5nat,
{
    match t.force(arena, st, fuel) {
        Ok(Value::Lambda(l)) => Ok(l),
        Ok(_) => Err(EvalError::WrongType),
        Err(e) => Err(e),
    }
}

impl Thunk {
    /// Forces the thunk (see `forced`).
    pub fn force(self, arena: &ColoredExprArena, st: &mut EvalState, fuel: usize) -> (r: EvalResult)
        requires
            cache_wf(old(st)@.cache, colors_of(arena@)),
        ensures
            cache_wf(final(st)@.cache, colors_of(arena@)),
            final(st)@.thunks.len() >= old(st)@.thunks.len(),
            (final(st)@, result_view(r)) == forced(arena@, old(st)@, self, fuel as nat),
            settled_cells(old(st)@.thunks) ==> settled_cells(final(st)@.thunks) && !(r matches Ok(
                Value::Thunk(_),
            )),
        decreases fuel, 4nat,
    {
        let r = self.force_cell(arena, st, fuel);
        proof {
            if settled_cells(old(st)@.thunks) {
                lemma_forced_never_thunk(arena@, old(st)@, self, fuel as nat);
            }
        }
        r
    }

    /// `force`, without the law on what forcing gives.
    fn force_cell(self, arena: &ColoredExprArena, st: &mut EvalState, fuel: usize) -> (r: EvalResult)
        requires
            cache_wf(old(st)@.cache, colors_of(arena@)),
        ensures
            cache_wf(final(st)@.cache, colors_of(arena@)),
            final(st)@.thunks.len() >= old(st)@.thunks.len(),
            (final(st)@, result_view(r)) == forced(arena@, old(st)@, self, fuel as nat),
        decreases fuel, 3nat,
    {
        if self.0 >= st.thunks.len() {
            return Err(EvalError::Unscoped);
        }
        let (e, cs) = match st.thunks.state(self) {
            ThunkState::Forced(r) => {
                return duplicate_result(r);
            },
            ThunkState::Evaluating => {
                return Err(EvalError::RefCycle);
            },
            ThunkState::Deferred { expr, callstack } => (*expr, callstack.duplicate()),
        };
        if fuel == 0 {
            return Err(EvalError::DepthExceeded);
        }
        st.thunks.set(self, ThunkState::Evaluating);
        let r = eval_expr(arena, st, e, &cs, fuel - 1);
        let r2 = match r {
            Ok(v) => v.eval_thunk(arena, st, fuel - 1),
            Err(err) => Err(err),
        };
        st.thunks.set(self, ThunkState::Forced(duplicate_result(&r2)));
        r2
    }
}

impl Value {
    /// The value with a thunk forced (see `whnf`).
    pub fn eval_thunk(self, arena: &ColoredExprArena, st: &mut EvalState, fuel: usize) -> (r: EvalResult)
        requires
            cache_wf(old(st)@.cache, colors_of(arena@)),
        ensures
            cache_wf(final(st)@.cache, colors_of(arena@)),
            final(st)@.thunks.len() >= old(st)@.thunks.len(),
            (final(st)@, result_view(r)) == whnf(arena@, old(st)@, self@, fuel as nat),
        decreases fuel, 4nat,
    {
        match self {
            Value::Thunk(t) => t.force_cell(arena, st, fuel),
            other => Ok(other),
        }
    }
}

/// Chooses between two values.
pub fn if_else(condition: bool, then_expr: Value, else_expr: Value) -> (r: EvalResult)
    ensures
        result_view(r) == Ok::<ValueModel, EvalError>(if condition { then_expr@ } else { else_expr@ }),
{
    Ok(if condition { then_expr } else { else_expr })
}

/// Whether `l <= r`.
pub fn less_or_eq(l: Number, r: Number) -> (v: EvalResult)
    ensures
        result_view(v) == Ok::<ValueModel, EvalError>(ValueModel::Bool(l.value() <= r.value())),
{
    Ok(Value::Bool(l.at_most(&r)))
}

/// `l + r` (see `add_result`).
pub fn add(l: Number, r: Number) -> (v: EvalResult)
    ensures
        result_view(v) == add_result(l, r),
{
    match l.checked_add(r) {
        Some(n) => Ok(Value::Number(n)),
        None => Err(EvalError::Overflow),
    }
}

/// `l + (-r)` (see `subtract_result`).
pub fn subtract(l: Number, r: Number) -> (v: EvalResult)
    ensures
        result_view(v) == subtract_result(l, r),
{
    match r.checked_neg() {
        Some(neg) => self::add(l, neg),
        None => Err(EvalError::Overflow),
    }
}

/// Evaluates the body of `lambda` on its captures with `value` pushed.
pub fn lambda_call(lambda: Lambda, value: Thunk, arena: &ColoredExprArena, st: &mut EvalState, fuel: usize) -> (r:
    EvalResult)
    requires
        cache_wf(old(st)@.cache, colors_of(arena@)),
    ensures
        cache_wf(final(st)@.cache, colors_of(arena@)),
        final(st)@.thunks.len() >= old(st)@.thunks.len(),
        (final(st)@, result_view(r)) == evaluate(
            arena@,
            old(st)@,
            lambda.spec_body(),
            lambda.spec_captures().push(value),
            fuel as nat,
        ),
    decreases fuel, 7nat,
{
    let callstack = lambda.captures().with_pushed(value);
    eval_expr(arena, st, lambda.body(), &callstack, fuel)
}

/// How deeply evaluations may nest in `eval_root_expr`.
pub const DEFAULT_DEPTH: usize = 2000;

impl EvalState {
    /// Evaluates the root of `root` on the empty callstack, nesting at most
    /// `depth` evaluations deep, and forces its value (see `evaluate_root`).
    pub fn eval_root(&mut self, root: &ColorableRootExpr, depth: usize) -> (r: EvalResult)
        requires
            cache_wf(old(self)@.cache, colors_of(root.spec_arena())),
        ensures
            cache_wf(final(self)@.cache, colors_of(root.spec_arena())),
            (final(self)@, result_view(r)) == evaluate_root(
                root.spec_arena(),
                old(self)@,
                root.spec_root(),
                depth as nat,
            ),
    {
        let arena = root.arena();
        let cs = Callstack::new();
        match eval_expr(arena, self, root.root_node_id(), &cs, depth) {
            Ok(v) => v.eval_thunk(arena, self, depth),
            Err(e) => Err(e),
        }
    }
}

/// Evaluates the root of `root` in a fresh state, at most `DEFAULT_DEPTH`
/// evaluations deep, and forces its value.
pub fn eval_root_expr(root: &ColorableRootExpr) -> (r: EvalResult)
    ensures
        result_view(r) == evaluate_root(
            root.spec_arena(),
            EvalStateModel { thunks: Seq::empty(), cache: Cache::new_model() },
            root.spec_root(),
            DEFAULT_DEPTH as nat,
        ).1,
{
    let mut st = EvalState::new();
    st.eval_root(root, DEFAULT_DEPTH)
}

} // verus!
