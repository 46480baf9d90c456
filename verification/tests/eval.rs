use memnix::api::{EmptyError, Env, EnvSettings, Evaluator, Number as ApiNumber, ValueKind};
use memnix::arena::{Arena, ArenaId};
use memnix::colorable_root::ColorableRootExpr;
use memnix::eval::{EvalState, add, eval_root_expr, if_else, less_or_eq, subtract};
use memnix::generic_lang::{GenericIntrinsic, Param};
use memnix::lower::{Ast, BinOp, Bindings, LowerError, lower};
use memnix::mir::{Literal, MirExpr, RootExpr};
use memnix::thunk::ThunkStore;
use memnix::value::{EvalError, Number, Thunk, ThunkState, Value};

fn num(n: i64) -> Box<Ast> {
    Box::new(Ast::Integer(n))
}

fn var(n: u64) -> Box<Ast> {
    Box::new(Ast::Ident(n))
}

fn op(o: BinOp, a: Box<Ast>, b: Box<Ast>) -> Box<Ast> {
    Box::new(Ast::BinOp(o, a, b))
}

fn lam(x: u64, body: Box<Ast>) -> Box<Ast> {
    Box::new(Ast::Lambda(x, body))
}

fn app(f: Box<Ast>, a: Box<Ast>) -> Box<Ast> {
    Box::new(Ast::Apply(f, a))
}

fn cond(c: Box<Ast>, t: Box<Ast>, e: Box<Ast>) -> Box<Ast> {
    Box::new(Ast::IfElse(c, t, e))
}

fn let_in(bindings: Vec<(u64, Box<Ast>)>, body: Box<Ast>) -> Box<Ast> {
    let mut list = Bindings::Nil;
    for (name, value) in bindings.into_iter().rev() {
        list = Bindings::Cons(name, value, Box::new(list));
    }
    Box::new(Ast::LetIn(Box::new(list), body))
}

fn eval(ast: &Ast) -> Result<Value, EvalError> {
    let mir = lower(ast).unwrap();
    let mut colored = ColorableRootExpr::from_mir_root(Arena::new(), mir);
    colored.color_all();
    eval_root_expr(&colored)
}

fn eval_int(ast: &Ast) -> i64 {
    match eval(ast) {
        Ok(Value::Number(Number::Integer(n))) => n,
        _ => panic!("expected a number"),
    }
}

fn eval_err(ast: &Ast) -> EvalError {
    match eval(ast) {
        Err(e) => e,
        Ok(_) => panic!("expected an error"),
    }
}

/// `let fib = x: if (x <= 1) then x else fib (x - 1) + fib (x - 2); in fib n`
fn fib(n: i64) -> Box<Ast> {
    let body = cond(
        op(BinOp::LessOrEq, var(1), num(1)),
        var(1),
        op(
            BinOp::Add,
            app(var(0), op(BinOp::Subtract, var(1), num(1))),
            app(var(0), op(BinOp::Subtract, var(1), num(2))),
        ),
    );
    let_in(vec![(0, lam(1, body))], app(var(0), num(n)))
}

#[test]
fn eval_literal() {
    assert_eq!(eval_int(&Ast::Integer(42)), 42);
}

#[test]
fn eval_one_plus_one() {
    assert_eq!(eval_int(&op(BinOp::Add, num(1), num(1))), 2);
}

#[test]
fn eval_subtract_and_compare() {
    assert_eq!(eval_int(&op(BinOp::Subtract, num(10), num(3))), 7);
    match eval(&op(BinOp::LessOrEq, num(3), num(2))) {
        Ok(Value::Bool(b)) => assert!(!b),
        _ => panic!("expected a boolean"),
    }
}

#[test]
fn eval_lambda_application() {
    // (x: x + 1) 41
    let ast = app(lam(0, op(BinOp::Add, var(0), num(1))), num(41));
    assert_eq!(eval_int(&ast), 42);
}

#[test]
fn eval_nested_lambdas_see_outer_parameters() {
    // ((x: y: x - y) 10) 4
    let ast = app(app(lam(0, lam(1, op(BinOp::Subtract, var(0), var(1)))), num(10)), num(4));
    assert_eq!(eval_int(&ast), 6);
}

#[test]
fn eval_if_else_takes_one_branch() {
    let ast = cond(op(BinOp::LessOrEq, num(1), num(2)), num(10), num(20));
    assert_eq!(eval_int(&ast), 10);
    let ast = cond(op(BinOp::LessOrEq, num(3), num(2)), num(10), num(20));
    assert_eq!(eval_int(&ast), 20);
}

#[test]
fn eval_if_else_does_not_evaluate_the_other_branch() {
    // the other branch would fail with a type error
    let bad = op(BinOp::Add, lam(0, var(0)), num(1));
    let ast = cond(op(BinOp::LessOrEq, num(1), num(2)), num(10), bad);
    assert_eq!(eval_int(&ast), 10);
}

#[test]
fn eval_fibonacci() {
    assert_eq!(eval_int(&fib(10)), 55);
    assert_eq!(eval_int(&fib(20)), 6765);
}

#[test]
fn eval_let_bindings_see_each_other() {
    // let a = b + 1; b = 2; in a
    let ast = let_in(vec![(0, op(BinOp::Add, var(1), num(1))), (1, num(2))], var(0));
    assert_eq!(eval_int(&ast), 3);
}

#[test]
fn eval_wrong_type_error() {
    // if 1 then 2 else 3
    assert_eq!(eval_err(&cond(num(1), num(2), num(3))), EvalError::WrongType);
    // (x: x) + 1
    assert_eq!(eval_err(&op(BinOp::Add, lam(0, var(0)), num(1))), EvalError::WrongType);
}

#[test]
fn eval_not_a_lambda_error() {
    assert_eq!(eval_err(&app(num(1), num(2))), EvalError::NotALambda);
}

#[test]
fn eval_overflow_error() {
    assert_eq!(eval_err(&op(BinOp::Add, num(i64::MAX), num(1))), EvalError::Overflow);
    assert_eq!(eval_err(&op(BinOp::Subtract, num(0), num(i64::MIN))), EvalError::Overflow);
}

#[test]
fn eval_self_reference_is_unscoped() {
    // let x = x; in x
    assert_eq!(eval_err(&let_in(vec![(0, var(0))], var(0))), EvalError::Unscoped);
}

#[test]
fn eval_unbounded_recursion_exceeds_depth() {
    // let f = x: f x; in f 1
    let ast = let_in(vec![(0, lam(1, app(var(0), var(1))))], app(var(0), num(1)));
    let mir = lower(&ast).unwrap();
    let mut colored = ColorableRootExpr::from_mir_root(Arena::new(), mir);
    colored.color_all();
    let mut st = EvalState::new();
    assert!(matches!(st.eval_root(&colored, 50), Err(EvalError::DepthExceeded)));
}

#[test]
fn eval_unscoped_param_error() {
    let mir = RootExpr::new(Arena::from_vec(vec![MirExpr::Param(Param::new(0))]), ArenaId(0));
    let mut colored = ColorableRootExpr::from_mir_root(Arena::new(), mir);
    colored.color_all();
    assert!(matches!(eval_root_expr(&colored), Err(EvalError::Unscoped)));
}

#[test]
fn eval_reuses_memoized_results() {
    let mir = lower(&fib(12)).unwrap();
    let mut colored = ColorableRootExpr::from_mir_root(Arena::new(), mir);
    colored.color_all();
    let mut st = EvalState::new();
    let first = st.eval_root(&colored, 2000);
    assert!(matches!(first, Ok(Value::Number(Number::Integer(144)))));
    let thunks_after_first = st.thunks().len();
    let second = st.eval_root(&colored, 2000);
    assert!(matches!(second, Ok(Value::Number(Number::Integer(144)))));
    // the second run finds the result in the cache and creates far fewer thunks
    assert!(st.thunks().len() - thunks_after_first < thunks_after_first);
}

#[test]
fn thunk_store_tracks_forced_cells() {
    let mut store = ThunkStore::new();
    let t = Thunk::new_forced(&mut store, Ok(Value::Bool(true)));
    assert!(t.is_forced(&store));
    assert!(matches!(t.forced_result(&store), Some(Ok(Value::Bool(true)))));
    store.set(t, ThunkState::Evaluating);
    assert!(!t.is_forced(&store));
    assert!(t.forced_result(&store).is_none());
    assert_eq!(store.len(), 1);
}

#[test]
fn builtins_compute_exactly() {
    assert!(matches!(add(Number::Integer(2), Number::Integer(3)), Ok(Value::Number(Number::Integer(5)))));
    assert!(matches!(add(Number::Integer(i64::MAX), Number::Integer(1)), Err(EvalError::Overflow)));
    assert!(matches!(subtract(Number::Integer(2), Number::Integer(3)), Ok(Value::Number(Number::Integer(-1)))));
    assert!(matches!(subtract(Number::Integer(0), Number::Integer(i64::MIN)), Err(EvalError::Overflow)));
    assert!(matches!(less_or_eq(Number::Integer(3), Number::Integer(3)), Ok(Value::Bool(true))));
    assert!(matches!(less_or_eq(Number::Integer(4), Number::Integer(3)), Ok(Value::Bool(false))));
    assert!(matches!(if_else(true, Value::Bool(true), Value::Bool(false)), Ok(Value::Bool(true))));
    assert!(matches!(if_else(false, Value::Bool(true), Value::Bool(false)), Ok(Value::Bool(false))));
}

#[test]
fn number_checked_operations() {
    assert_eq!(Number::Integer(1).checked_add(Number::Integer(2)), Some(Number::Integer(3)));
    assert_eq!(Number::Integer(i64::MIN).checked_add(Number::Integer(-1)), None);
    assert_eq!(Number::Integer(5).checked_neg(), Some(Number::Integer(-5)));
    assert_eq!(Number::Integer(i64::MIN).checked_neg(), None);
    assert!(Number::Integer(1).at_most(&Number::Integer(1)));
    assert!(!Number::Integer(2).at_most(&Number::Integer(1)));
}

#[test]
fn lower_reports_unbound_names() {
    assert!(matches!(lower(&op(BinOp::Add, var(3), num(1))), Err(LowerError::UnboundName(3))));
    // a lambda's parameter is not visible outside it
    assert!(matches!(lower(&app(lam(0, var(0)), var(0))), Err(LowerError::UnboundName(0))));
}

#[test]
fn env_eval_ast_returns_number_kind() {
    let mut env = Env::new(EnvSettings::new());
    let res = env.eval_ast(&op(BinOp::Add, num(1), num(1))).unwrap();
    assert_eq!(res.kind(), ValueKind::Number(ApiNumber::Integer(2)));
    // the environment keeps the expressions of earlier evaluations
    let before = env.arena().size();
    let res = env.eval_ast(&lam(0, var(0))).unwrap();
    assert_eq!(res.kind(), ValueKind::NotYetImplemented);
    assert!(env.arena().size() > before);
}

#[test]
fn env_eval_ast_fails_on_unbound_name() {
    let mut env = Env::new(EnvSettings::new());
    assert!(matches!(env.eval_ast(&var(0)), Err(EmptyError)));
    assert_eq!(env.arena().size(), 0);
}

#[test]
fn evaluator_with_env_runs_closure() {
    let evaluator = Evaluator::new();
    let kind = evaluator.with_env(EnvSettings::new(), |mut env| {
        env.eval_ast(&fib(15)).unwrap().kind()
    });
    assert_eq!(kind, ValueKind::Number(ApiNumber::Integer(610)));
}

#[test]
fn eval_intrinsic_lambda_call() {
    // LambdaCall(lambda, arg) as an intrinsic: (x: x + 1) 1
    let exprs = vec![
        MirExpr::Param(Param::new(0)),
        MirExpr::Literal(Literal::Integer(1)),
        MirExpr::Intrinsic(GenericIntrinsic::Add(ArenaId(0), ArenaId(1))),
        MirExpr::Lambda(memnix::generic_lang::GenericLambda::new(Param::new(0), ArenaId(2))),
        MirExpr::Intrinsic(GenericIntrinsic::LambdaCall(ArenaId(3), ArenaId(1))),
    ];
    let mir = RootExpr::new(Arena::from_vec(exprs), ArenaId(4));
    let mut colored = ColorableRootExpr::from_mir_root(Arena::new(), mir);
    colored.color_all();
    assert!(matches!(eval_root_expr(&colored), Ok(Value::Number(Number::Integer(2)))));
}

#[test]
fn evaluation_keeps_stored_records() {
    let mut env = Env::new(EnvSettings::new());
    let (first, cache) = env.eval_ast_cached(&fib(8), Vec::new(), Vec::new());
    assert_eq!(first.unwrap().kind(), ValueKind::Number(ApiNumber::Integer(21)));
    let count = cache.value_count();
    assert!(count > 0);
    let keys: Vec<_> = (0..count).map(|p| cache.key_at(p)).collect();
    let (values, evals) = cache.entries();
    let (second, cache) = env.eval_ast_cached(&fib(9), values, evals);
    assert_eq!(second.unwrap().kind(), ValueKind::Number(ApiNumber::Integer(34)));
    // the records stored by the first evaluation stay, in their positions
    assert!(cache.value_count() > count);
    for (p, k) in keys.iter().enumerate() {
        assert!(cache.key_at(p) == *k);
    }
}

#[test]
fn lower_keeps_operand_order() {
    let root = lower(&op(BinOp::Subtract, num(1), num(2))).unwrap();
    let (arena, id) = root.into_parts();
    match arena.get(id) {
        MirExpr::Intrinsic(GenericIntrinsic::Subtract(a, b)) => {
            assert!(matches!(arena.get(*a), MirExpr::Literal(Literal::Integer(1))));
            assert!(matches!(arena.get(*b), MirExpr::Literal(Literal::Integer(2))));
        },
        _ => panic!("expected a subtraction"),
    }
}

#[test]
fn lower_shares_let_bound_expressions() {
    // let x = 1; in x + x
    let root = lower(&let_in(vec![(0, num(1))], op(BinOp::Add, var(0), var(0)))).unwrap();
    let (arena, id) = root.into_parts();
    match arena.get(id) {
        MirExpr::Intrinsic(GenericIntrinsic::Add(a, b)) => {
            assert_eq!(a.0, b.0);
            assert!(matches!(arena.get(*a), MirExpr::Literal(Literal::Integer(1))));
        },
        _ => panic!("expected an addition"),
    }
}

#[test]
fn lower_turns_parameters_into_depths() {
    // x: y: x
    let root = lower(&lam(0, lam(1, var(0)))).unwrap();
    let (arena, id) = root.into_parts();
    match arena.get(id) {
        MirExpr::Lambda(outer) => match arena.get(outer.body) {
            MirExpr::Lambda(inner) => {
                assert!(matches!(arena.get(inner.body), MirExpr::Param(p) if p.depth == 0));
            },
            _ => panic!("expected a lambda"),
        },
        _ => panic!("expected a lambda"),
    }
}

#[test]
fn fits_in_word_bounds_the_coloring_graph() {
    assert!(memnix::api::fits_in_word(0, 0));
    assert!(memnix::api::fits_in_word(10, 20));
    assert!(memnix::api::fits_in_word(usize::MAX / 3 - 1, 0));
    assert!(!memnix::api::fits_in_word(usize::MAX / 3, 0));
    assert!(!memnix::api::fits_in_word(usize::MAX / 6, usize::MAX / 6 + 1));
    assert!(!memnix::api::fits_in_word(usize::MAX, 1));
}
