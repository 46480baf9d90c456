//! Runtime values of the evaluator.
//!
//! Thunks are shared, lazily evaluated cells. They live in the thunk store
//! of an `EvalState` and values refer to them by index, so that forcing a
//! thunk once makes its result visible through every reference to it.
use vstd::prelude::*;

use crate::arena::ArenaId;

verus! {

/// A reference to a cell of the thunk store.
#[derive(Clone, Copy, PartialEq, Eq, Debug)]
pub struct Thunk(pub usize);

/// A number.
#[derive(Clone, Copy, PartialEq, Eq, PartialOrd, Ord, Hash, Debug)]
pub enum Number {
    Integer(i64),
}

impl Number {
    /// The integer that the number holds.
    pub open spec fn value(self) -> int {
        match self {
            Number::Integer(i) => i as int,
        }
    }

    /// The sum, or `None` where it does not fit in an `i64`.
    pub fn checked_add(self, other: Number) -> (r: Option<Number>)
        ensures
            r matches Some(n) <==> i64::MIN <= self.value() + other.value() <= i64::MAX,
            r matches Some(n) ==> n.value() == self.value() + other.value(),
    {
        match (self, other) {
            (Number::Integer(l), Number::Integer(r)) => match l.checked_add(r) {
                Some(s) => Some(Number::Integer(s)),
                None => None,
            },
        }
    }

    /// The negation, or `None` for `i64::MIN`, whose negation does not fit.
    pub fn checked_neg(self) -> (r: Option<Number>)
        ensures
            r matches Some(n) <==> self.value() != i64::MIN,
            r matches Some(n) ==> n.value() == -self.value(),
    {
        match self {
            Number::Integer(i) => if i == i64::MIN {
                None
            } else {
                Some(Number::Integer(-i))
            },
        }
    }

    /// Whether `self <= other`.
    pub fn at_most(&self, other: &Number) -> (r: bool)
        ensures
            r == (self.value() <= other.value()),
    {
        match (self, other) {
            (Number::Integer(l), Number::Integer(r)) => *l <= *r,
        }
    }
}

/// Why an evaluation failed.
#[derive(Clone, Copy, PartialEq, Eq, Debug)]
pub enum EvalError {
    /// A builtin was applied to a value of the wrong type.
    WrongType,
    /// A thunk was forced while it was being evaluated.
    RefCycle,
    /// A value that is not a lambda was applied.
    NotALambda,
    /// An integer operation overflowed.
    Overflow,
    /// A parameter or a lambda refers deeper than the callstack reaches.
    Unscoped,
    /// Evaluation nested deeper than the depth it was given.
    DepthExceeded,
}

/// The thunks that a lambda or a thunk closes over, one per enclosing
/// lambda; entry `d` is the parameter at nesting depth `d`.
pub struct Callstack(Vec<Thunk>);

impl View for Callstack {
    type V = Seq<Thunk>;

    closed spec fn view(&self) -> Seq<Thunk> {
        self.0@
    }
}

impl Callstack {
    /// The empty callstack.
    pub fn new() -> (c: Callstack)
        ensures
            c@ == Seq::<Thunk>::empty(),
    {
        Callstack(Vec::new())
    }

    /// The callstack holding `thunks`.
    pub fn from_thunks(thunks: Vec<Thunk>) -> (c: Callstack)
        ensures
            c@ == thunks@,
    {
        Callstack(thunks)
    }

    /// The number of entries.
    pub fn len(&self) -> (n: usize)
        ensures
            n == self@.len(),
    {
        self.0.len()
    }

    /// The entry at nesting depth `depth`.
    pub fn get(&self, depth: usize) -> (t: Thunk)
        requires
            depth < self@.len(),
        ensures
            t == self@[depth as int],
    {
        self.0[depth]
    }

    /// A copy of the callstack.
    pub fn duplicate(&self) -> (c: Callstack)
        ensures
            c@ == self@,
    {
        self.prefix(self.0.len())
    }

    /// The first `depth` entries, i.e. the params at nesting depths
    /// `0..depth`.
    pub fn prefix(&self, depth: usize) -> (c: Callstack)
        requires
            depth <= self@.len(),
        ensures
            c@ == self@.take(depth as int),
    {
        let mut out: Vec<Thunk> = Vec::new();
        let mut i: usize = 0;
        while i < depth
            invariant
                i <= depth,
                depth <= self@.len(),
                out@ == self@.take(i as int),
            decreases depth - i,
        {
            out.push(self.0[i]);
            i = i + 1;
            assert(out@ =~= self@.take(i as int));
        }
        Callstack(out)
    }

    /// The callstack with `arg` added as the innermost parameter.
    pub fn with_pushed(&self, arg: Thunk) -> (c: Callstack)
        ensures
            c@ == self@.push(arg),
    {
        let mut c = self.duplicate();
        c.0.push(arg);
        c
    }
}

/// A lambda value: its body and the callstack it was created in.
pub struct Lambda {
    body: ArenaId,
    captures: Callstack,
}

impl Lambda {
    /// The lambda with body `body` that closes over `captures`.
    pub fn new(body: ArenaId, captures: Callstack) -> (l: Lambda)
        ensures
            l.spec_body() == body,
            l.spec_captures() == captures@,
    {
        Lambda { body, captures }
    }

    /// The body expression.
    pub closed spec fn spec_body(&self) -> ArenaId {
        self.body
    }

    /// The thunks the lambda closes over.
    pub closed spec fn spec_captures(&self) -> Seq<Thunk> {
        self.captures@
    }

    /// The body expression.
    pub fn body(&self) -> (b: ArenaId)
        ensures
            b == self.spec_body(),
    {
        self.body
    }

    /// The thunks the lambda closes over.
    pub fn captures(&self) -> (c: &Callstack)
        ensures
            c@ == self.spec_captures(),
    {
        &self.captures
    }
}

/// A runtime value.
pub enum Value {
    Lambda(Lambda),
    Thunk(Thunk),
    Number(Number),
    Bool(bool),
}

/// The mathematical model of a value.
pub enum ValueModel {
    Lambda(ArenaId, Seq<Thunk>),
    Thunk(Thunk),
    Number(Number),
    Bool(bool),
}

impl View for Value {
    type V = ValueModel;

    open spec fn view(&self) -> ValueModel {
        match self {
            Value::Lambda(l) => ValueModel::Lambda(l.spec_body(), l.spec_captures()),
            Value::Thunk(t) => ValueModel::Thunk(*t),
            Value::Number(n) => ValueModel::Number(*n),
            Value::Bool(b) => ValueModel::Bool(*b),
        }
    }
}

/// The outcome of an evaluation.
pub type EvalResult = Result<Value, EvalError>;

/// The model of an outcome.
pub open spec fn result_view(r: EvalResult) -> Result<ValueModel, EvalError> {
    match r {
        Ok(v) => Ok(v@),
        Err(e) => Err(e),
    }
}

impl Value {
    /// A copy of the value.
    pub fn duplicate(&self) -> (v: Value)
        ensures
            v@ == self@,
    {
        match self {
            Value::Lambda(l) => Value::Lambda(Lambda::new(l.body(), l.captures().duplicate())),
            Value::Thunk(t) => Value::Thunk(*t),
            Value::Number(n) => Value::Number(*n),
            Value::Bool(b) => Value::Bool(*b),
        }
    }
}

/// A copy of an outcome.
pub fn duplicate_result(r: &EvalResult) -> (c: EvalResult)
    ensures
        result_view(c) == result_view(*r),
{
    match r {
        Ok(v) => Ok(v.duplicate()),
        Err(e) => Err(*e),
    }
}

/// The state of a cell of the thunk store.
pub enum ThunkState {
    /// Evaluated, with this outcome.
    Forced(EvalResult),
    /// Being evaluated.
    Evaluating,
    /// Not evaluated yet: the expression and the callstack to evaluate it in.
    Deferred { expr: ArenaId, callstack: Callstack },
}

/// The model of a cell of the thunk store.
pub enum ThunkModel {
    Forced(Result<ValueModel, EvalError>),
    Evaluating,
    Deferred(ArenaId, Seq<Thunk>),
}

impl View for ThunkState {
    type V = ThunkModel;

    open spec fn view(&self) -> ThunkModel {
        match self {
            ThunkState::Forced(r) => ThunkModel::Forced(result_view(*r)),
            ThunkState::Evaluating => ThunkModel::Evaluating,
            ThunkState::Deferred { expr, callstack } => ThunkModel::Deferred(*expr, callstack@),
        }
    }
}

} // verus!
