//! Laws of forcing: the outcome of forcing a thunk is never a thunk.
use vstd::prelude::*;

use crate::arena::ArenaId;
use crate::cache::CacheModel;
use crate::coloring::{ColoredExpr, colors_of, color_view};
use crate::eval::{
    EvalStateModel, bool_operand, evaluate, evaluate_intrinsic, evaluate_lambda_call, evaluate_node,
    forced, lambda_operand, number_operand, number_operands, set_cell, whnf, with_cell,
};
use crate::generic_lang::GenericIntrinsic;
use crate::memo::{evaluation_key, get_captures, get_value, value_from_record};
use crate::mir::{MirExpr, MirIntrinsic, MirLambdaCall};
use crate::record::RecordModel;
use crate::value::{Thunk, ThunkModel, ValueModel};

verus! {

/// No thunk cell is forced to a thunk: every forced value is a number, a
/// boolean or a lambda.
pub open spec fn settled_cells(t: Seq<ThunkModel>) -> bool {
    forall|i: int| 0 <= i < t.len() ==> #[trigger] cell_settled(t[i])
}

/// A cell that is not forced to a thunk.
pub open spec fn cell_settled(c: ThunkModel) -> bool {
    match c {
        ThunkModel::Forced(Ok(v)) => !(v is Thunk),
        _ => true,
    }
}

proof fn lemma_settled_push(t: Seq<ThunkModel>, cell: ThunkModel)
    requires
        settled_cells(t),
        cell_settled(cell),
    ensures
        settled_cells(t.push(cell)),
{
    assert forall|i: int| 0 <= i < t.push(cell).len() implies #[trigger] cell_settled(t.push(cell)[i]) by {
        if i < t.len() {
            assert(t.push(cell)[i] == t[i]);
        }
    }
}

proof fn lemma_settled_update(t: Seq<ThunkModel>, k: int, cell: ThunkModel)
    requires
        0 <= k < t.len(),
        settled_cells(t),
        cell_settled(cell),
    ensures
        settled_cells(t.update(k, cell)),
{
    assert forall|i: int| 0 <= i < t.update(k, cell).len() implies #[trigger] cell_settled(t.update(k, cell)[i]) by {
        if i != k {
            assert(t.update(k, cell)[i] == t[i]);
        }
    }
}

proof fn lemma_get_value_settled(colors: Seq<Option<Seq<u8>>>, c: CacheModel, thunks: Seq<ThunkModel>, h: Seq<u8>)
    requires
        settled_cells(thunks),
    ensures
        settled_cells(get_value(colors, c, thunks, h).0),
        !(get_value(colors, c, thunks, h).1 is Thunk),
    decreases crate::cache::key_position(c.values, h) + 1, 0nat, 0nat,
{
    let p = crate::cache::key_position(c.values, h);
    if 0 <= p < c.values.len() {
        lemma_value_from_record_settled(colors, c, thunks, c.values[p].1, p);
    }
}

proof fn lemma_value_from_record_settled(
    colors: Seq<Option<Seq<u8>>>,
    c: CacheModel,
    thunks: Seq<ThunkModel>,
    r: RecordModel,
    p: int,
)
    requires
        settled_cells(thunks),
    ensures
        settled_cells(value_from_record(colors, c, thunks, r, p).0),
        !(value_from_record(colors, c, thunks, r, p).1 is Thunk),
    decreases p, 1nat, 0nat,
{
    if let RecordModel::Lambda(_, caps) = r {
        if p >= 0 {
            lemma_get_captures_settled(colors, c, thunks, caps, p);
        }
    }
}

proof fn lemma_get_captures_settled(
    colors: Seq<Option<Seq<u8>>>,
    c: CacheModel,
    thunks: Seq<ThunkModel>,
    caps: Seq<Seq<u8>>,
    bound: int,
)
    requires
        settled_cells(thunks),
    ensures
        settled_cells(get_captures(colors, c, thunks, caps, bound).0),
    decreases bound, 0nat, caps.len(),
{
    if caps.len() > 0 && bound >= 0 {
        lemma_get_captures_settled(colors, c, thunks, caps.drop_last(), bound);
        let (t1, ts) = get_captures(colors, c, thunks, caps.drop_last(), bound);
        if crate::cache::key_position(c.values, caps.last()) < bound {
            lemma_get_value_settled(colors, c, t1, caps.last());
            let (t2, v) = get_value(colors, c, t1, caps.last());
            lemma_settled_push(t2, ThunkModel::Forced(Ok(v)));
        }
    }
}

/// Evaluation keeps every forced cell a non-thunk value.
pub proof fn lemma_evaluate_settled(exprs: Seq<ColoredExpr>, s: EvalStateModel, id: ArenaId, cs: Seq<Thunk>, fuel: nat)
    requires
        settled_cells(s.thunks),
    ensures
        settled_cells(evaluate(exprs, s, id, cs, fuel).0.thunks),
    decreases fuel, 2nat,
{
    let colors = colors_of(exprs);
    if fuel > 0 && id.index() < exprs.len() {
        let key = evaluation_key(colors, s.thunks, color_view(exprs[id.index() as int].color), cs);
        if let Some(k) = key {
            if let Some(h) = crate::cache::lookup_eval(s.cache, k) {
                lemma_get_value_settled(colors, s.cache, s.thunks, h);
            }
        }
        lemma_evaluate_node_settled(exprs, s, exprs[id.index() as int].expr, cs, fuel);
    }
}

proof fn lemma_evaluate_node_settled(exprs: Seq<ColoredExpr>, s: EvalStateModel, e: MirExpr, cs: Seq<Thunk>, fuel: nat)
    requires
        settled_cells(s.thunks),
    ensures
        settled_cells(evaluate_node(exprs, s, e, cs, fuel).0.thunks),
    decreases fuel, 1nat,
{
    match e {
        MirExpr::LambdaCall(c) => lemma_lambda_call_settled(exprs, s, c, cs, fuel),
        MirExpr::Intrinsic(i) => lemma_intrinsic_settled(exprs, s, i, cs, fuel),
        _ => {},
    }
}

proof fn lemma_lambda_call_settled(exprs: Seq<ColoredExpr>, s: EvalStateModel, c: MirLambdaCall, cs: Seq<Thunk>, fuel: nat)
    requires
        settled_cells(s.thunks),
    ensures
        settled_cells(evaluate_lambda_call(exprs, s, c, cs, fuel).0.thunks),
    decreases fuel, 0nat,
{
    if fuel > 0 {
        let f = (fuel - 1) as nat;
        lemma_evaluate_settled(exprs, s, c.lambda, cs, f);
        let (s1, r) = evaluate(exprs, s, c.lambda, cs, f);
        if let Ok(v) = r {
            lemma_whnf_settled(exprs, s1, v, f);
            let (s2, r2) = whnf(exprs, s1, v, f);
            if let Ok(ValueModel::Lambda(body, caps)) = r2 {
                let (s3, arg) = with_cell(s2, ThunkModel::Deferred(c.argument, cs));
                lemma_settled_push(s2.thunks, ThunkModel::Deferred(c.argument, cs));
                lemma_evaluate_settled(exprs, s3, body, caps.push(arg), f);
            }
        }
    }
}

proof fn lemma_intrinsic_settled(exprs: Seq<ColoredExpr>, s: EvalStateModel, i: MirIntrinsic, cs: Seq<Thunk>, fuel: nat)
    requires
        settled_cells(s.thunks),
    ensures
        settled_cells(evaluate_intrinsic(exprs, s, i, cs, fuel).0.thunks),
    decreases fuel, 0nat,
{
    if fuel > 0 {
        let f = (fuel - 1) as nat;
        match i {
            GenericIntrinsic::LambdaCall(lam, arg) => {
                let (s1, tl) = with_cell(s, ThunkModel::Deferred(lam, cs));
                let (s2, ta) = with_cell(s1, ThunkModel::Deferred(arg, cs));
                lemma_settled_push(s.thunks, ThunkModel::Deferred(lam, cs));
                lemma_settled_push(s1.thunks, ThunkModel::Deferred(arg, cs));
                lemma_lambda_operand_settled(exprs, s2, tl, f);
                let (s3, rl) = lambda_operand(exprs, s2, tl, f);
                if let Ok((body, caps)) = rl {
                    lemma_evaluate_settled(exprs, s3, body, caps.push(ta), f);
                }
            },
            GenericIntrinsic::LessOrEq(a, b) => lemma_number_operands_settled(exprs, s, a, b, cs, f),
            GenericIntrinsic::Add(a, b) => lemma_number_operands_settled(exprs, s, a, b, cs, f),
            GenericIntrinsic::Subtract(a, b) => lemma_number_operands_settled(exprs, s, a, b, cs, f),
            GenericIntrinsic::IfElse(c, t, e) => {
                let (s1, tc) = with_cell(s, ThunkModel::Deferred(c, cs));
                let (s2, tt) = with_cell(s1, ThunkModel::Deferred(t, cs));
                let (s3, te) = with_cell(s2, ThunkModel::Deferred(e, cs));
                lemma_settled_push(s.thunks, ThunkModel::Deferred(c, cs));
                lemma_settled_push(s1.thunks, ThunkModel::Deferred(t, cs));
                lemma_settled_push(s2.thunks, ThunkModel::Deferred(e, cs));
                lemma_bool_operand_settled(exprs, s3, tc, f);
            },
        }
    }
}

proof fn lemma_number_operands_settled(
    exprs: Seq<ColoredExpr>,
    s: EvalStateModel,
    a: ArenaId,
    b: ArenaId,
    cs: Seq<Thunk>,
    fuel: nat,
)
    requires
        settled_cells(s.thunks),
    ensures
        settled_cells(number_operands(exprs, s, a, b, cs, fuel).0.thunks),
    decreases fuel, 6nat,
{
    let (s1, ta) = with_cell(s, ThunkModel::Deferred(a, cs));
    let (s2, tb) = with_cell(s1, ThunkModel::Deferred(b, cs));
    lemma_settled_push(s.thunks, ThunkModel::Deferred(a, cs));
    lemma_settled_push(s1.thunks, ThunkModel::Deferred(b, cs));
    lemma_number_operand_settled(exprs, s2, ta, fuel);
    let (s3, ra) = number_operand(exprs, s2, ta, fuel);
    if ra is Ok {
        lemma_number_operand_settled(exprs, s3, tb, fuel);
    }
}

proof fn lemma_number_operand_settled(exprs: Seq<ColoredExpr>, s: EvalStateModel, t: Thunk, fuel: nat)
    requires
        settled_cells(s.thunks),
    ensures
        settled_cells(number_operand(exprs, s, t, fuel).0.thunks),
    decreases fuel, 5nat,
{
    lemma_forced_never_thunk(exprs, s, t, fuel);
}

proof fn lemma_bool_operand_settled(exprs: Seq<ColoredExpr>, s: EvalStateModel, t: Thunk, fuel: nat)
    requires
        settled_cells(s.thunks),
    ensures
        settled_cells(bool_operand(exprs, s, t, fuel).0.thunks),
    decreases fuel, 5nat,
{
    lemma_forced_never_thunk(exprs, s, t, fuel);
}

proof fn lemma_lambda_operand_settled(exprs: Seq<ColoredExpr>, s: EvalStateModel, t: Thunk, fuel: nat)
    requires
        settled_cells(s.thunks),
    ensures
        settled_cells(lambda_operand(exprs, s, t, fuel).0.thunks),
    decreases fuel, 5nat,
{
    lemma_forced_never_thunk(exprs, s, t, fuel);
}

/// Forcing a thunk never gives a thunk: where no forced cell holds a thunk,
/// the outcome of forcing is a number, a boolean, a lambda or an error, and
/// no forced cell holds a thunk afterwards either.
pub proof fn lemma_forced_never_thunk(exprs: Seq<ColoredExpr>, s: EvalStateModel, t: Thunk, fuel: nat)
    requires
        settled_cells(s.thunks),
    ensures
        settled_cells(forced(exprs, s, t, fuel).0.thunks),
        forced(exprs, s, t, fuel).1 matches Ok(v) ==> !(v is Thunk),
    decreases fuel, 3nat,
{
    if t.0 < s.thunks.len() {
        match s.thunks[t.0 as int] {
            ThunkModel::Forced(r) => {
                assert(cell_settled(s.thunks[t.0 as int]));
            },
            ThunkModel::Evaluating => {},
            ThunkModel::Deferred(e, cs) => {
                if fuel > 0 {
                    let f = (fuel - 1) as nat;
                    let s1 = set_cell(s, t, ThunkModel::Evaluating);
                    lemma_settled_update(s.thunks, t.0 as int, ThunkModel::Evaluating);
                    lemma_evaluate_settled(exprs, s1, e, cs, f);
                    let (s2, r) = evaluate(exprs, s1, e, cs, f);
                    let (s3, r2) = match r {
                        Ok(v) => whnf(exprs, s2, v, f),
                        Err(err) => (s2, Err(err)),
                    };
                    crate::eval_laws::lemma_evaluate_grows(exprs, s1, e, cs, f);
                    if let Ok(v) = r {
                        lemma_whnf_settled(exprs, s2, v, f);
                        crate::eval_laws::lemma_whnf_grows(exprs, s2, v, f);
                    }
                    lemma_settled_update(s3.thunks, t.0 as int, ThunkModel::Forced(r2));
                }
            },
        }
    }
}

/// The weak head normal form of a value is never a thunk (see
/// `lemma_forced_never_thunk`).
pub proof fn lemma_whnf_settled(exprs: Seq<ColoredExpr>, s: EvalStateModel, v: ValueModel, fuel: nat)
    requires
        settled_cells(s.thunks),
    ensures
        settled_cells(whnf(exprs, s, v, fuel).0.thunks),
        whnf(exprs, s, v, fuel).1 matches Ok(w) ==> !(w is Thunk),
    decreases fuel, 4nat,
{
    if let ValueModel::Thunk(t) = v {
        lemma_forced_never_thunk(exprs, s, t, fuel);
    }
}

} // verus!
