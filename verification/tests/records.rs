use memnix::api::{Env, EnvSettings, Number as ApiNumber, ValueKind};
use memnix::arena::{Arena, ArenaId};
use memnix::lower::{Ast, BinOp};
use memnix::cache::{Cache, expect_cache_failure};
use memnix::coloring::{Color, ColoredExpr};
use memnix::generic_lang::{GenericLambda, Param};
use memnix::mir::{Literal, MirExpr};
use memnix::record::{CallstackRecord, EvalHash, LambdaRecord, TypeDiscriminant, ValueHash, ValueRecord};
use memnix::thunk::ThunkStore;
use memnix::value::{Callstack, Lambda, Number, Thunk, ThunkState, Value};

#[test]
fn record_bytes_of_number_and_bool() {
    assert_eq!(ValueRecord::Number(Number::Integer(5)).to_bytes(), vec![1, 5, 0, 0, 0, 0, 0, 0, 0]);
    assert_eq!(
        ValueRecord::Number(Number::Integer(-1)).to_bytes(),
        vec![1, 255, 255, 255, 255, 255, 255, 255, 255]
    );
    assert_eq!(ValueRecord::Bool(true).to_bytes(), vec![3, 1]);
    assert_eq!(ValueRecord::Bool(false).to_bytes(), vec![3, 0]);
}

#[test]
fn record_bytes_of_lambda() {
    let record = ValueRecord::Lambda(LambdaRecord {
        body: Color([7; 32]),
        captures: CallstackRecord(vec![ValueHash([9; 32])]),
    });
    let mut expected = vec![0];
    expected.extend_from_slice(&[7; 32]);
    expected.extend_from_slice(&[1, 0, 0, 0, 0, 0, 0, 0]);
    expected.extend_from_slice(&[9; 32]);
    assert_eq!(record.to_bytes(), expected);
}

#[test]
fn value_hash_is_blake3_of_record_bytes() {
    let record = ValueRecord::Number(Number::Integer(42));
    let h = ValueHash::from_record(&record);
    assert_eq!(&h.0, blake3::hash(&record.to_bytes()).as_bytes());
    assert_ne!(h, ValueHash::from_record(&ValueRecord::Number(Number::Integer(43))));
}

#[test]
fn eval_hash_covers_color_and_callstack() {
    let empty = CallstackRecord(vec![]);
    let one = CallstackRecord(vec![ValueHash([1; 32])]);
    let a = EvalHash::of_evaluation(&Color([0; 32]), &empty);
    let b = EvalHash::of_evaluation(&Color([0; 32]), &one);
    let c = EvalHash::of_evaluation(&Color([2; 32]), &empty);
    assert_ne!(a, b);
    assert_ne!(a, c);
    let mut bytes = vec![0u8; 32];
    bytes.extend_from_slice(&[0; 8]);
    assert_eq!(&a.0, blake3::hash(&bytes).as_bytes());
}

#[test]
fn type_discriminant_bytes() {
    let mut out = Vec::new();
    TypeDiscriminant::RuntimeLambda.apply(&mut out);
    TypeDiscriminant::Integer.apply(&mut out);
    TypeDiscriminant::Float.apply(&mut out);
    TypeDiscriminant::Bool.apply(&mut out);
    assert_eq!(out, vec![0, 1, 2, 3]);
}

fn colored_arena() -> Arena<ColoredExpr> {
    let lit = ColoredExpr { expr: MirExpr::Literal(Literal::Integer(1)), color: Some(Color([5; 32])) };
    let lam = ColoredExpr {
        expr: MirExpr::Lambda(GenericLambda::new(Param::new(0), ArenaId(0))),
        color: Some(Color([6; 32])),
    };
    Arena::from_vec(vec![lit, lam])
}

#[test]
fn cache_store_then_get_number() {
    let arena = colored_arena();
    let mut thunks = ThunkStore::new();
    let mut cache = Cache::new();
    let h = cache.store_value(&arena, &thunks, &Ok(Value::Number(Number::Integer(3)))).unwrap();
    assert_eq!(h, ValueHash::from_record(&ValueRecord::Number(Number::Integer(3))));
    assert!(matches!(cache.get_value(&arena, &mut thunks, &h), Value::Number(Number::Integer(3))));
}

#[test]
fn cache_store_then_get_lambda_with_captures() {
    let arena = colored_arena();
    let mut thunks = ThunkStore::new();
    let captured = Thunk::new_forced(&mut thunks, Ok(Value::Number(Number::Integer(8))));
    let lambda = Value::Lambda(Lambda::new(ArenaId(1), Callstack::from_thunks(vec![captured])));
    let mut cache = Cache::new();
    let h = cache.store_value(&arena, &thunks, &Ok(lambda)).unwrap();
    // the captured number is stored first, then the lambda
    let inner = ValueHash::from_record(&ValueRecord::Number(Number::Integer(8)));
    assert_eq!(cache.find_value(&inner), Some(0));
    assert_eq!(cache.find_value(&h), Some(1));
    let mut fresh = ThunkStore::new();
    match cache.get_value(&arena, &mut fresh, &h) {
        Value::Lambda(l) => {
            assert_eq!(l.body(), ArenaId(1));
            assert_eq!(l.captures().len(), 1);
            let t = l.captures().get(0);
            assert!(matches!(fresh.state(t), ThunkState::Forced(Ok(Value::Number(Number::Integer(8))))));
        },
        _ => panic!("expected a lambda"),
    }
}

#[test]
fn cache_does_not_store_unforced_thunks_or_errors() {
    let arena = colored_arena();
    let mut thunks = ThunkStore::new();
    let deferred = Thunk::new(&mut thunks, ArenaId(0), Callstack::new());
    let mut cache = Cache::new();
    assert!(cache.store_value(&arena, &thunks, &Ok(Value::Thunk(deferred))).is_none());
    assert!(cache.store_value(&arena, &thunks, &Err(memnix::value::EvalError::WrongType)).is_none());
    assert!(cache.find_value(&ValueHash([0; 32])).is_none());
}

#[test]
fn cache_store_result_then_get_result() {
    let arena = colored_arena();
    let mut thunks = ThunkStore::new();
    let mut cache = Cache::new();
    let key = EvalHash([4; 32]);
    assert!(cache.get_result(&arena, &mut thunks, &key).is_none());
    cache.store_result(&arena, &thunks, key, &Ok(Value::Bool(true)));
    assert!(matches!(cache.get_result(&arena, &mut thunks, &key), Some(Value::Bool(true))));
    // a later result under the same key replaces the earlier one
    cache.store_result(&arena, &thunks, key, &Ok(Value::Bool(false)));
    assert!(matches!(cache.get_result(&arena, &mut thunks, &key), Some(Value::Bool(false))));
}

#[test]
fn value_to_record_follows_forced_thunks() {
    let arena = colored_arena();
    let mut thunks = ThunkStore::new();
    let t = Thunk::new_forced(&mut thunks, Ok(Value::Number(Number::Integer(2))));
    assert!(matches!(Value::Thunk(t).to_record(&arena, &thunks), Some(ValueRecord::Number(Number::Integer(2)))));
    // a chain of forced thunks records as the value at its end
    let t2 = Thunk::new_forced(&mut thunks, Ok(Value::Thunk(t)));
    assert!(matches!(Value::Thunk(t2).to_record(&arena, &thunks), Some(ValueRecord::Number(Number::Integer(2)))));
    assert_eq!(
        ValueHash::new_pure(&Ok(Value::Thunk(t)), &arena, &thunks),
        Some(ValueHash::from_record(&ValueRecord::Number(Number::Integer(2))))
    );
}

#[test]
fn expect_cache_failure_unwraps_ok() {
    let ok: Result<Option<u8>, String> = Ok(Some(3));
    assert_eq!(expect_cache_failure(ok), Some(3));
    let missing: Result<Option<u8>, String> = Ok(None);
    assert_eq!(expect_cache_failure(missing), None);
}

#[test]
fn validated_cache_accepts_entries_of_a_cache() {
    let arena = colored_arena();
    let mut thunks = ThunkStore::new();
    let captured = Thunk::new_forced(&mut thunks, Ok(Value::Number(Number::Integer(8))));
    let lambda = Value::Lambda(Lambda::new(ArenaId(1), Callstack::from_thunks(vec![captured])));
    let mut cache = Cache::new();
    let h = cache.store_value(&arena, &thunks, &Ok(lambda)).unwrap();
    cache.set_eval(EvalHash([1; 32]), h);
    let (values, evals) = cache.entries();
    let restored = memnix::memo::validated_cache(values, evals, &arena).unwrap();
    assert_eq!(restored.value_count(), 2);
    assert_eq!(restored.eval_count(), 1);
    assert_eq!(restored.eval_at(0), (EvalHash([1; 32]), h));
}

#[test]
fn validated_cache_rejects_inconsistent_entries() {
    let arena = colored_arena();
    // a record stored under a hash that is not its own
    let wrong_hash = vec![(ValueHash([0; 32]), ValueRecord::Bool(true))];
    assert!(memnix::memo::validated_cache(wrong_hash, vec![], &arena).is_none());
    // a memoized result whose record is missing
    let dangling = vec![(EvalHash([1; 32]), ValueHash([2; 32]))];
    assert!(memnix::memo::validated_cache(vec![], dangling, &arena).is_none());
    // a lambda whose body color is not in the arena
    let lambda = ValueRecord::Lambda(LambdaRecord { body: Color([9; 32]), captures: CallstackRecord(vec![]) });
    let h = ValueHash::from_record(&lambda);
    assert!(memnix::memo::validated_cache(vec![(h, lambda)], vec![], &arena).is_none());
}

#[test]
fn env_reuses_cache_across_evaluations() {
    let ast = Ast::BinOp(BinOp::Add, Box::new(Ast::Integer(20)), Box::new(Ast::Integer(22)));
    let mut first = Env::new(EnvSettings::new());
    let (result, cache) = first.eval_ast_cached(&ast, vec![], vec![]);
    assert_eq!(result.unwrap().kind(), ValueKind::Number(ApiNumber::Integer(42)));
    assert!(cache.eval_count() > 0);
    let (values, evals) = cache.entries();
    let mut second = Env::new(EnvSettings::new());
    let (result, cache2) = second.eval_ast_cached(&ast, values, evals);
    assert_eq!(result.unwrap().kind(), ValueKind::Number(ApiNumber::Integer(42)));
    // the cache was accepted and kept
    assert_eq!(cache2.eval_count(), cache.eval_count());
}

#[test]
fn rebuilt_value_records_as_stored_record() {
    let arena = colored_arena();
    let mut thunks = ThunkStore::new();
    let captured = Thunk::new_forced(&mut thunks, Ok(Value::Bool(false)));
    let lambda = Value::Lambda(Lambda::new(ArenaId(1), Callstack::from_thunks(vec![captured])));
    let stored = lambda.to_record(&arena, &thunks).unwrap();
    let mut cache = Cache::new();
    let h = cache.store_value(&arena, &thunks, &Ok(lambda)).unwrap();
    let mut fresh = ThunkStore::new();
    let rebuilt = cache.get_value(&arena, &mut fresh, &h);
    let again = rebuilt.to_record(&arena, &fresh).unwrap();
    assert_eq!(again.to_bytes(), stored.to_bytes());
    assert_eq!(ValueHash::from_record(&again), h);
}

#[test]
fn value_leading_back_to_itself_is_not_recordable() {
    let arena = colored_arena();
    let mut thunks = ThunkStore::new();
    let t = Thunk::new(&mut thunks, ArenaId(0), Callstack::new());
    let lambda = Value::Lambda(Lambda::new(ArenaId(1), Callstack::from_thunks(vec![t])));
    thunks.set(t, ThunkState::Forced(Ok(lambda)));
    assert!(Value::Thunk(t).to_record(&arena, &thunks).is_none());
    let mut cache = Cache::new();
    assert!(cache.store_value(&arena, &thunks, &Ok(Value::Thunk(t))).is_none());
    // a lambda capturing a forced number records at any depth
    let n = Thunk::new_forced(&mut thunks, Ok(Value::Number(Number::Integer(4))));
    let lambda = Value::Lambda(Lambda::new(ArenaId(1), Callstack::from_thunks(vec![n])));
    assert!(matches!(lambda.to_record(&arena, &thunks), Some(ValueRecord::Lambda(_))));
}
