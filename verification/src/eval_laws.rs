//! Laws of the evaluator: what evaluation does to the thunk store.
use vstd::prelude::*;

use crate::arena::ArenaId;
use crate::cache::CacheModel;
use crate::coloring::{ColoredExpr, colors_of, color_view};
use crate::eval::{
    EvalStateModel, bool_operand, evaluate, evaluate_intrinsic, evaluate_lambda_call, evaluate_node,
    forced, lambda_operand, number_operand, number_operands, set_cell, whnf, with_cell,
};
use crate::generic_lang::GenericIntrinsic;
use crate::memo::{evaluation_key, get_captures, get_value, value_from_record};
use crate::mir::{MirExpr, MirIntrinsic, MirLambdaCall};
use crate::value::{Thunk, ThunkModel, ValueModel};

verus! {

/// `t2` is `t1` with cells added, and with every cell of `t1` that is not
/// deferred unchanged.
pub open spec fn grows(t2: Seq<ThunkModel>, t1: Seq<ThunkModel>) -> bool {
    &&& t1.len() <= t2.len()
    &&& forall|i: int| 0 <= i < t1.len() && !(t1[i] is Deferred) ==> #[trigger] t2[i] == t1[i]
}

proof fn lemma_grows_trans(t3: Seq<ThunkModel>, t2: Seq<ThunkModel>, t1: Seq<ThunkModel>)
    requires
        grows(t3, t2),
        grows(t2, t1),
    ensures
        grows(t3, t1),
{
    assert forall|i: int| 0 <= i < t1.len() && !(t1[i] is Deferred) implies #[trigger] t3[i] == t1[i] by {
        assert(t2[i] == t1[i]);
    }
}

proof fn lemma_grows_push(t: Seq<ThunkModel>, cell: ThunkModel)
    ensures
        grows(t.push(cell), t),
{
    assert forall|i: int| 0 <= i < t.len() && !(t[i] is Deferred) implies #[trigger] t.push(cell)[i] == t[i] by {
    }
}

proof fn lemma_get_value_grows(colors: Seq<Option<Seq<u8>>>, c: CacheModel, thunks: Seq<ThunkModel>, h: Seq<u8>)
    ensures
        grows(get_value(colors, c, thunks, h).0, thunks),
    decreases crate::cache::key_position(c.values, h) + 1, 0nat, 0nat,
{
    let p = crate::cache::key_position(c.values, h);
    if 0 <= p < c.values.len() {
        lemma_value_from_record_grows(colors, c, thunks, c.values[p].1, p);
    }
}

proof fn lemma_value_from_record_grows(
    colors: Seq<Option<Seq<u8>>>,
    c: CacheModel,
    thunks: Seq<ThunkModel>,
    r: crate::record::RecordModel,
    p: int,
)
    ensures
        grows(value_from_record(colors, c, thunks, r, p).0, thunks),
    decreases p, 1nat, 0nat,
{
    if let crate::record::RecordModel::Lambda(color, caps) = r {
        if p >= 0 {
            lemma_get_captures_grows(colors, c, thunks, caps, p);
        }
    }
}

proof fn lemma_get_captures_grows(
    colors: Seq<Option<Seq<u8>>>,
    c: CacheModel,
    thunks: Seq<ThunkModel>,
    caps: Seq<Seq<u8>>,
    bound: int,
)
    ensures
        grows(get_captures(colors, c, thunks, caps, bound).0, thunks),
    decreases bound, 0nat, caps.len(),
{
    if caps.len() > 0 && bound >= 0 {
        lemma_get_captures_grows(colors, c, thunks, caps.drop_last(), bound);
        let (t1, ts) = get_captures(colors, c, thunks, caps.drop_last(), bound);
        if crate::cache::key_position(c.values, caps.last()) < bound {
            lemma_get_value_grows(colors, c, t1, caps.last());
            let (t2, v) = get_value(colors, c, t1, caps.last());
            lemma_grows_push(t2, ThunkModel::Forced(Ok(v)));
            lemma_grows_trans(t2, t1, thunks);
            lemma_grows_trans(t2.push(ThunkModel::Forced(Ok(v))), t2, thunks);
        }
    }
}

/// Evaluation only adds thunk cells and never changes a cell that is not
/// deferred (see `grows`).
pub proof fn lemma_evaluate_grows(
    exprs: Seq<ColoredExpr>,
    s: EvalStateModel,
    id: ArenaId,
    cs: Seq<Thunk>,
    fuel: nat,
)
    ensures
        grows(evaluate(exprs, s, id, cs, fuel).0.thunks, s.thunks),
    decreases fuel, 2nat,
{
    let colors = colors_of(exprs);
    if fuel > 0 && id.index() < exprs.len() {
        let key = evaluation_key(colors, s.thunks, color_view(exprs[id.index() as int].color), cs);
        if let Some(k) = key {
            if let Some(h) = crate::cache::lookup_eval(s.cache, k) {
                lemma_get_value_grows(colors, s.cache, s.thunks, h);
            }
        }
        lemma_evaluate_node_grows(exprs, s, exprs[id.index() as int].expr, cs, fuel);
    }
}

pub proof fn lemma_evaluate_node_grows(
    exprs: Seq<ColoredExpr>,
    s: EvalStateModel,
    e: MirExpr,
    cs: Seq<Thunk>,
    fuel: nat,
)
    ensures
        grows(evaluate_node(exprs, s, e, cs, fuel).0.thunks, s.thunks),
    decreases fuel, 1nat,
{
    match e {
        MirExpr::LambdaCall(c) => lemma_evaluate_lambda_call_grows(exprs, s, c, cs, fuel),
        MirExpr::Intrinsic(i) => lemma_evaluate_intrinsic_grows(exprs, s, i, cs, fuel),
        _ => {},
    }
}

pub proof fn lemma_evaluate_lambda_call_grows(
    exprs: Seq<ColoredExpr>,
    s: EvalStateModel,
    c: MirLambdaCall,
    cs: Seq<Thunk>,
    fuel: nat,
)
    ensures
        grows(evaluate_lambda_call(exprs, s, c, cs, fuel).0.thunks, s.thunks),
    decreases fuel, 0nat,
{
    if fuel > 0 {
        let f = (fuel - 1) as nat;
        lemma_evaluate_grows(exprs, s, c.lambda, cs, f);
        let (s1, r) = evaluate(exprs, s, c.lambda, cs, f);
        if let Ok(v) = r {
            lemma_whnf_grows(exprs, s1, v, f);
            let (s2, r2) = whnf(exprs, s1, v, f);
            lemma_grows_trans(s2.thunks, s1.thunks, s.thunks);
            if let Ok(ValueModel::Lambda(body, caps)) = r2 {
                let (s3, arg) = with_cell(s2, ThunkModel::Deferred(c.argument, cs));
                lemma_grows_push(s2.thunks, ThunkModel::Deferred(c.argument, cs));
                lemma_grows_trans(s3.thunks, s2.thunks, s.thunks);
                lemma_evaluate_grows(exprs, s3, body, caps.push(arg), f);
                lemma_grows_trans(evaluate(exprs, s3, body, caps.push(arg), f).0.thunks, s3.thunks, s.thunks);
            }
        }
    }
}

pub proof fn lemma_evaluate_intrinsic_grows(
    exprs: Seq<ColoredExpr>,
    s: EvalStateModel,
    i: MirIntrinsic,
    cs: Seq<Thunk>,
    fuel: nat,
)
    ensures
        grows(evaluate_intrinsic(exprs, s, i, cs, fuel).0.thunks, s.thunks),
    decreases fuel, 0nat,
{
    if fuel > 0 {
        let f = (fuel - 1) as nat;
        match i {
            GenericIntrinsic::LambdaCall(lam, arg) => {
                let (s1, tl) = with_cell(s, ThunkModel::Deferred(lam, cs));
                let (s2, ta) = with_cell(s1, ThunkModel::Deferred(arg, cs));
                lemma_grows_push(s.thunks, ThunkModel::Deferred(lam, cs));
                lemma_grows_push(s1.thunks, ThunkModel::Deferred(arg, cs));
                lemma_grows_trans(s2.thunks, s1.thunks, s.thunks);
                lemma_lambda_operand_grows(exprs, s2, tl, f);
                let (s3, rl) = lambda_operand(exprs, s2, tl, f);
                lemma_grows_trans(s3.thunks, s2.thunks, s.thunks);
                if let Ok((body, caps)) = rl {
                    lemma_evaluate_grows(exprs, s3, body, caps.push(ta), f);
                    lemma_grows_trans(evaluate(exprs, s3, body, caps.push(ta), f).0.thunks, s3.thunks, s.thunks);
                }
            },
            GenericIntrinsic::LessOrEq(a, b) => lemma_number_operands_grows(exprs, s, a, b, cs, f),
            GenericIntrinsic::Add(a, b) => lemma_number_operands_grows(exprs, s, a, b, cs, f),
            GenericIntrinsic::Subtract(a, b) => lemma_number_operands_grows(exprs, s, a, b, cs, f),
            GenericIntrinsic::IfElse(c, t, e) => {
                let (s1, tc) = with_cell(s, ThunkModel::Deferred(c, cs));
                let (s2, tt) = with_cell(s1, ThunkModel::Deferred(t, cs));
                let (s3, te) = with_cell(s2, ThunkModel::Deferred(e, cs));
                lemma_grows_push(s.thunks, ThunkModel::Deferred(c, cs));
                lemma_grows_push(s1.thunks, ThunkModel::Deferred(t, cs));
                lemma_grows_push(s2.thunks, ThunkModel::Deferred(e, cs));
                lemma_grows_trans(s2.thunks, s1.thunks, s.thunks);
                lemma_grows_trans(s3.thunks, s2.thunks, s.thunks);
                lemma_bool_operand_grows(exprs, s3, tc, f);
                lemma_grows_trans(bool_operand(exprs, s3, tc, f).0.thunks, s3.thunks, s.thunks);
            },
        }
    }
}

pub proof fn lemma_number_operands_grows(
    exprs: Seq<ColoredExpr>,
    s: EvalStateModel,
    a: ArenaId,
    b: ArenaId,
    cs: Seq<Thunk>,
    fuel: nat,
)
    ensures
        grows(number_operands(exprs, s, a, b, cs, fuel).0.thunks, s.thunks),
    decreases fuel, 6nat,
{
    let (s1, ta) = with_cell(s, ThunkModel::Deferred(a, cs));
    let (s2, tb) = with_cell(s1, ThunkModel::Deferred(b, cs));
    lemma_grows_push(s.thunks, ThunkModel::Deferred(a, cs));
    lemma_grows_push(s1.thunks, ThunkModel::Deferred(b, cs));
    lemma_grows_trans(s2.thunks, s1.thunks, s.thunks);
    lemma_number_operand_grows(exprs, s2, ta, fuel);
    let (s3, ra) = number_operand(exprs, s2, ta, fuel);
    lemma_grows_trans(s3.thunks, s2.thunks, s.thunks);
    if ra is Ok {
        lemma_number_operand_grows(exprs, s3, tb, fuel);
        lemma_grows_trans(number_operand(exprs, s3, tb, fuel).0.thunks, s3.thunks, s.thunks);
    }
}

pub proof fn lemma_number_operand_grows(exprs: Seq<ColoredExpr>, s: EvalStateModel, t: Thunk, fuel: nat)
    ensures
        grows(number_operand(exprs, s, t, fuel).0.thunks, s.thunks),
    decreases fuel, 5nat,
{
    lemma_forced_grows(exprs, s, t, fuel);
}

pub proof fn lemma_bool_operand_grows(exprs: Seq<ColoredExpr>, s: EvalStateModel, t: Thunk, fuel: nat)
    ensures
        grows(bool_operand(exprs, s, t, fuel).0.thunks, s.thunks),
    decreases fuel, 5nat,
{
    lemma_forced_grows(exprs, s, t, fuel);
}

pub proof fn lemma_lambda_operand_grows(exprs: Seq<ColoredExpr>, s: EvalStateModel, t: Thunk, fuel: nat)
    ensures
        grows(lambda_operand(exprs, s, t, fuel).0.thunks, s.thunks),
    decreases fuel, 5nat,
{
    lemma_forced_grows(exprs, s, t, fuel);
}

pub proof fn lemma_forced_grows(exprs: Seq<ColoredExpr>, s: EvalStateModel, t: Thunk, fuel: nat)
    ensures
        grows(forced(exprs, s, t, fuel).0.thunks, s.thunks),
        t.0 < s.thunks.len() && s.thunks[t.0 as int] is Deferred && fuel > 0 ==> forced(
            exprs,
            s,
            t,
            fuel,
        ).0.thunks[t.0 as int] == ThunkModel::Forced(forced(exprs, s, t, fuel).1),
    decreases fuel, 3nat,
{
    if t.0 < s.thunks.len() {
        if let ThunkModel::Deferred(e, cs) = s.thunks[t.0 as int] {
            if fuel > 0 {
                let f = (fuel - 1) as nat;
                let s1 = set_cell(s, t, ThunkModel::Evaluating);
                lemma_evaluate_grows(exprs, s1, e, cs, f);
                let (s2, r) = evaluate(exprs, s1, e, cs, f);
                let (s3, r2) = match r {
                    Ok(v) => whnf(exprs, s2, v, f),
                    Err(err) => (s2, Err(err)),
                };
                if let Ok(v) = r {
                    lemma_whnf_grows(exprs, s2, v, f);
                }
                lemma_grows_trans(s3.thunks, s2.thunks, s1.thunks);
                let s4 = set_cell(s3, t, ThunkModel::Forced(r2));
                assert forall|i: int|
                    0 <= i < s.thunks.len() && !(s.thunks[i] is Deferred) implies #[trigger] s4.thunks[i]
                    == s.thunks[i] by {
                    assert(i != t.0);
                    assert(s1.thunks[i] == s.thunks[i]);
                    assert(s3.thunks[i] == s1.thunks[i]);
                }
            }
        }
    }
}

pub proof fn lemma_whnf_grows(exprs: Seq<ColoredExpr>, s: EvalStateModel, v: ValueModel, fuel: nat)
    ensures
        grows(whnf(exprs, s, v, fuel).0.thunks, s.thunks),
    decreases fuel, 4nat,
{
    if let ValueModel::Thunk(t) = v {
        lemma_forced_grows(exprs, s, t, fuel);
    }
}

/// Forcing a thunk is idempotent: once a force of `t` has finished (`t`
/// was deferred and there was fuel to evaluate it, or `t` was already
/// forced), forcing `t` again, with any fuel, gives the same outcome and
/// leaves the state as it is.
pub proof fn lemma_force_idempotent(exprs: Seq<ColoredExpr>, s: EvalStateModel, t: Thunk, fuel: nat, fuel2: nat)
    requires
        t.0 < s.thunks.len(),
        s.thunks[t.0 as int] is Forced || (s.thunks[t.0 as int] is Deferred && fuel > 0),
    ensures
        forced(exprs, forced(exprs, s, t, fuel).0, t, fuel2) == forced(exprs, s, t, fuel),
{
    lemma_forced_grows(exprs, s, t, fuel);
}

/// A forced thunk stays forced to the same outcome, whatever is evaluated
/// afterwards.
pub proof fn lemma_forced_thunk_stable(
    exprs: Seq<ColoredExpr>,
    s: EvalStateModel,
    id: ArenaId,
    cs: Seq<Thunk>,
    fuel: nat,
    t: Thunk,
)
    requires
        t.0 < s.thunks.len(),
        s.thunks[t.0 as int] is Forced,
    ensures
        evaluate(exprs, s, id, cs, fuel).0.thunks[t.0 as int] == s.thunks[t.0 as int],
        forced(exprs, evaluate(exprs, s, id, cs, fuel).0, t, fuel) == (
            evaluate(exprs, s, id, cs, fuel).0,
            s.thunks[t.0 as int]->Forced_0,
        ),
{
    lemma_evaluate_grows(exprs, s, id, cs, fuel);
}

} // verus!
