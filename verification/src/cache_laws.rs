//! Laws of the evaluator: what evaluation does to the memoization cache.
use vstd::prelude::*;

use crate::arena::ArenaId;
use crate::cache::CacheModel;
use crate::coloring::{ColoredExpr, colors_of, color_view};
use crate::eval::{
    EvalStateModel, bool_operand, evaluate, evaluate_intrinsic, evaluate_lambda_call, evaluate_node,
    forced, lambda_operand, number_operand, number_operands, set_cell, whnf, with_cell,
};
use crate::generic_lang::GenericIntrinsic;
use crate::memo::{cache_wf, evaluation_key, get_result, keeps_records, lemma_store_result_wf};
use crate::mir::{MirExpr, MirIntrinsic, MirLambdaCall};
use crate::value::{Thunk, ThunkModel, ValueModel};

verus! {

/// `c2` is well-formed for `colors` and holds the records of `c1`, in the
/// same positions.
pub open spec fn cache_kept(c2: CacheModel, c1: CacheModel, colors: Seq<Option<Seq<u8>>>) -> bool {
    cache_wf(c2, colors) && keeps_records(c2, c1)
}

proof fn lemma_kept_refl(c: CacheModel, colors: Seq<Option<Seq<u8>>>)
    requires
        cache_wf(c, colors),
    ensures
        cache_kept(c, c, colors),
{
    assert(c.values.take(c.values.len() as int) =~= c.values);
}

proof fn lemma_kept_trans(c3: CacheModel, c2: CacheModel, c1: CacheModel, colors: Seq<Option<Seq<u8>>>)
    requires
        cache_kept(c3, c2, colors),
        cache_kept(c2, c1, colors),
    ensures
        cache_kept(c3, c1, colors),
{
    assert(c3.values.take(c1.values.len() as int) =~= c2.values.take(c1.values.len() as int));
}

/// Evaluation keeps a well-formed cache well-formed and never drops or
/// changes a record stored in it: the records it had stay, in their
/// positions, and new ones are only appended. (A memoized result may be
/// replaced by a newer one for the same evaluation.)
pub proof fn lemma_evaluate_keeps_cache(
    exprs: Seq<ColoredExpr>,
    s: EvalStateModel,
    id: ArenaId,
    cs: Seq<Thunk>,
    fuel: nat,
)
    requires
        cache_wf(s.cache, colors_of(exprs)),
    ensures
        cache_kept(evaluate(exprs, s, id, cs, fuel).0.cache, s.cache, colors_of(exprs)),
    decreases fuel, 2nat,
{
    let colors = colors_of(exprs);
    lemma_kept_refl(s.cache, colors);
    if fuel > 0 && id.index() < exprs.len() {
        let key = evaluation_key(colors, s.thunks, color_view(exprs[id.index() as int].color), cs);
        let hit = match key {
            Some(k) => get_result(colors, s.cache, s.thunks, k),
            None => (s.thunks, None),
        };
        if hit.1 is None {
            lemma_evaluate_node_keeps_cache(exprs, s, exprs[id.index() as int].expr, cs, fuel);
            let (s1, r) = evaluate_node(exprs, s, exprs[id.index() as int].expr, cs, fuel);
            if let Some(k) = key {
                lemma_store_result_wf(colors, s1.thunks, s1.cache, k, r);
                lemma_kept_trans(
                    crate::memo::store_result(colors, s1.thunks, s1.cache, k, r),
                    s1.cache,
                    s.cache,
                    colors,
                );
            }
        }
    }
}

/// Evaluating an expression's node keeps the cache (see
/// `lemma_evaluate_keeps_cache`).
pub proof fn lemma_evaluate_node_keeps_cache(
    exprs: Seq<ColoredExpr>,
    s: EvalStateModel,
    e: MirExpr,
    cs: Seq<Thunk>,
    fuel: nat,
)
    requires
        cache_wf(s.cache, colors_of(exprs)),
    ensures
        cache_kept(evaluate_node(exprs, s, e, cs, fuel).0.cache, s.cache, colors_of(exprs)),
    decreases fuel, 1nat,
{
    lemma_kept_refl(s.cache, colors_of(exprs));
    match e {
        MirExpr::LambdaCall(c) => lemma_lambda_call_keeps_cache(exprs, s, c, cs, fuel),
        MirExpr::Intrinsic(i) => lemma_intrinsic_keeps_cache(exprs, s, i, cs, fuel),
        _ => {},
    }
}

proof fn lemma_lambda_call_keeps_cache(
    exprs: Seq<ColoredExpr>,
    s: EvalStateModel,
    c: MirLambdaCall,
    cs: Seq<Thunk>,
    fuel: nat,
)
    requires
        cache_wf(s.cache, colors_of(exprs)),
    ensures
        cache_kept(evaluate_lambda_call(exprs, s, c, cs, fuel).0.cache, s.cache, colors_of(exprs)),
    decreases fuel, 0nat,
{
    let colors = colors_of(exprs);
    lemma_kept_refl(s.cache, colors);
    if fuel > 0 {
        let f = (fuel - 1) as nat;
        lemma_evaluate_keeps_cache(exprs, s, c.lambda, cs, f);
        let (s1, r) = evaluate(exprs, s, c.lambda, cs, f);
        if let Ok(v) = r {
            lemma_whnf_keeps_cache(exprs, s1, v, f);
            let (s2, r2) = whnf(exprs, s1, v, f);
            lemma_kept_trans(s2.cache, s1.cache, s.cache, colors);
            if let Ok(ValueModel::Lambda(body, caps)) = r2 {
                let (s3, arg) = with_cell(s2, ThunkModel::Deferred(c.argument, cs));
                lemma_evaluate_keeps_cache(exprs, s3, body, caps.push(arg), f);
                lemma_kept_trans(evaluate(exprs, s3, body, caps.push(arg), f).0.cache, s3.cache, s.cache, colors);
            }
        }
    }
}

proof fn lemma_intrinsic_keeps_cache(
    exprs: Seq<ColoredExpr>,
    s: EvalStateModel,
    i: MirIntrinsic,
    cs: Seq<Thunk>,
    fuel: nat,
)
    requires
        cache_wf(s.cache, colors_of(exprs)),
    ensures
        cache_kept(evaluate_intrinsic(exprs, s, i, cs, fuel).0.cache, s.cache, colors_of(exprs)),
    decreases fuel, 0nat,
{
    let colors = colors_of(exprs);
    lemma_kept_refl(s.cache, colors);
    if fuel > 0 {
        let f = (fuel - 1) as nat;
        match i {
            GenericIntrinsic::LambdaCall(lam, arg) => {
                let (s1, tl) = with_cell(s, ThunkModel::Deferred(lam, cs));
                let (s2, ta) = with_cell(s1, ThunkModel::Deferred(arg, cs));
                lemma_lambda_operand_keeps_cache(exprs, s2, tl, f);
                let (s3, rl) = lambda_operand(exprs, s2, tl, f);
                if let Ok((body, caps)) = rl {
                    lemma_evaluate_keeps_cache(exprs, s3, body, caps.push(ta), f);
                    lemma_kept_trans(evaluate(exprs, s3, body, caps.push(ta), f).0.cache, s3.cache, s.cache, colors);
                }
            },
            GenericIntrinsic::LessOrEq(a, b) => lemma_number_operands_keeps_cache(exprs, s, a, b, cs, f),
            GenericIntrinsic::Add(a, b) => lemma_number_operands_keeps_cache(exprs, s, a, b, cs, f),
            GenericIntrinsic::Subtract(a, b) => lemma_number_operands_keeps_cache(exprs, s, a, b, cs, f),
            GenericIntrinsic::IfElse(c, t, e) => {
                let (s1, tc) = with_cell(s, ThunkModel::Deferred(c, cs));
                let (s2, tt) = with_cell(s1, ThunkModel::Deferred(t, cs));
                let (s3, te) = with_cell(s2, ThunkModel::Deferred(e, cs));
                lemma_bool_operand_keeps_cache(exprs, s3, tc, f);
            },
        }
    }
}

proof fn lemma_number_operands_keeps_cache(
    exprs: Seq<ColoredExpr>,
    s: EvalStateModel,
    a: ArenaId,
    b: ArenaId,
    cs: Seq<Thunk>,
    fuel: nat,
)
    requires
        cache_wf(s.cache, colors_of(exprs)),
    ensures
        cache_kept(number_operands(exprs, s, a, b, cs, fuel).0.cache, s.cache, colors_of(exprs)),
    decreases fuel, 6nat,
{
    let colors = colors_of(exprs);
    let (s1, ta) = with_cell(s, ThunkModel::Deferred(a, cs));
    let (s2, tb) = with_cell(s1, ThunkModel::Deferred(b, cs));
    lemma_number_operand_keeps_cache(exprs, s2, ta, fuel);
    let (s3, ra) = number_operand(exprs, s2, ta, fuel);
    if ra is Ok {
        lemma_number_operand_keeps_cache(exprs, s3, tb, fuel);
        lemma_kept_trans(number_operand(exprs, s3, tb, fuel).0.cache, s3.cache, s.cache, colors);
    }
}

proof fn lemma_number_operand_keeps_cache(exprs: Seq<ColoredExpr>, s: EvalStateModel, t: Thunk, fuel: nat)
    requires
        cache_wf(s.cache, colors_of(exprs)),
    ensures
        cache_kept(number_operand(exprs, s, t, fuel).0.cache, s.cache, colors_of(exprs)),
    decreases fuel, 5nat,
{
    lemma_forced_keeps_cache(exprs, s, t, fuel);
}

proof fn lemma_bool_operand_keeps_cache(exprs: Seq<ColoredExpr>, s: EvalStateModel, t: Thunk, fuel: nat)
    requires
        cache_wf(s.cache, colors_of(exprs)),
    ensures
        cache_kept(bool_operand(exprs, s, t, fuel).0.cache, s.cache, colors_of(exprs)),
    decreases fuel, 5nat,
{
    lemma_forced_keeps_cache(exprs, s, t, fuel);
}

proof fn lemma_lambda_operand_keeps_cache(exprs: Seq<ColoredExpr>, s: EvalStateModel, t: Thunk, fuel: nat)
    requires
        cache_wf(s.cache, colors_of(exprs)),
    ensures
        cache_kept(lambda_operand(exprs, s, t, fuel).0.cache, s.cache, colors_of(exprs)),
    decreases fuel, 5nat,
{
    lemma_forced_keeps_cache(exprs, s, t, fuel);
}

/// Forcing a thunk keeps the cache (see `lemma_evaluate_keeps_cache`).
pub proof fn lemma_forced_keeps_cache(exprs: Seq<ColoredExpr>, s: EvalStateModel, t: Thunk, fuel: nat)
    requires
        cache_wf(s.cache, colors_of(exprs)),
    ensures
        cache_kept(forced(exprs, s, t, fuel).0.cache, s.cache, colors_of(exprs)),
    decreases fuel, 3nat,
{
    let colors = colors_of(exprs);
    lemma_kept_refl(s.cache, colors);
    if t.0 < s.thunks.len() {
        if let ThunkModel::Deferred(e, cs) = s.thunks[t.0 as int] {
            if fuel > 0 {
                let f = (fuel - 1) as nat;
                let s1 = set_cell(s, t, ThunkModel::Evaluating);
                lemma_evaluate_keeps_cache(exprs, s1, e, cs, f);
                let (s2, r) = evaluate(exprs, s1, e, cs, f);
                if let Ok(v) = r {
                    lemma_whnf_keeps_cache(exprs, s2, v, f);
                    lemma_kept_trans(whnf(exprs, s2, v, f).0.cache, s2.cache, s.cache, colors);
                }
            }
        }
    }
}

proof fn lemma_whnf_keeps_cache(exprs: Seq<ColoredExpr>, s: EvalStateModel, v: ValueModel, fuel: nat)
    requires
        cache_wf(s.cache, colors_of(exprs)),
    ensures
        cache_kept(whnf(exprs, s, v, fuel).0.cache, s.cache, colors_of(exprs)),
    decreases fuel, 4nat,
{
    lemma_kept_refl(s.cache, colors_of(exprs));
    if let ValueModel::Thunk(t) = v {
        lemma_forced_keeps_cache(exprs, s, t, fuel);
    }
}

} // verus!
