//! The public interface: environments that evaluate expressions and the
//! values they produce.
use vstd::prelude::*;

use crate::arena::Arena;
use crate::cache::{Cache, CacheModel, entries_model};
use crate::color_graph::{coloring_order, refine_all};
use crate::colorable_root::{ColorableRootExpr, appended_from, shifted_from};
use crate::coloring::{ColoredExpr, ColoredExprArena, colored_closed, colors_of, exprs_of};
use crate::eval::{DEFAULT_DEPTH, EvalState, EvalStateModel, evaluate_root};
use crate::memo::{cache_wf, validated_cache};
use crate::record::{EvalHash, ValueHash, ValueRecord};
use crate::lower::{Ast, lower, nesting, well_bound};
use crate::lowering::{ast_size, denotes};
use crate::nix_syntax::{nix_syntax, parse_nix};
use crate::mir::RootExpr;
use crate::value::{self, EvalError, ValueModel};

verus! {

/// A number, as returned to users of the library.
#[derive(Clone, Copy, PartialEq, Eq, Debug)]
pub enum Number {
    Integer(i64),
}

/// What a value is, as far as it can be shown to users of the library.
#[derive(Clone, Copy, PartialEq, Eq, Debug)]
pub enum ValueKind {
    Number(Number),
    /// A value that cannot be represented as a `ValueKind` yet.
    NotYetImplemented,
}

/// The error of an evaluation that failed; it carries no details yet.
#[derive(Clone, Copy, PartialEq, Eq, Debug)]
pub struct EmptyError;

/// A successfully evaluated expression.
pub struct Value {
    inner: value::Value,
}

/// The kind of a value model (see `Value::kind`).
pub open spec fn kind_of(v: ValueModel) -> ValueKind {
    match v {
        ValueModel::Number(value::Number::Integer(i)) => ValueKind::Number(Number::Integer(i)),
        _ => ValueKind::NotYetImplemented,
    }
}

/// Every integer, negative ones included, is shown as the number it is,
/// and only integers are shown as numbers: the kind of a value tells its
/// number exactly.
pub proof fn lemma_kind_of_integer(v: ValueModel, i: i64)
    ensures
        kind_of(ValueModel::Number(value::Number::Integer(i))) == ValueKind::Number(Number::Integer(i)),
        (kind_of(v) == ValueKind::Number(Number::Integer(i))) <==> (v == ValueModel::Number(
            value::Number::Integer(i),
        )),
        !(v is Number) ==> kind_of(v) == ValueKind::NotYetImplemented,
{
}

impl Value {
    /// The evaluated value.
    pub closed spec fn spec_inner(&self) -> ValueModel {
        self.inner@
    }

    /// Wraps an evaluated value.
    pub fn new(inner: value::Value) -> (v: Value)
        ensures
            v.spec_inner() == inner@,
    {
        Value { inner }
    }

    /// What the value is: its number for a number, `NotYetImplemented` for
    /// anything else.
    pub fn kind(&self) -> (k: ValueKind)
        ensures
            k == kind_of(self.spec_inner()),
            forall|i: i64|
                (k == ValueKind::Number(Number::Integer(i))) <==> (self.spec_inner() == ValueModel::Number(
                    value::Number::Integer(i),
                )),
            !(self.spec_inner() is Number) ==> k == ValueKind::NotYetImplemented,
    {
        match &self.inner {
            value::Value::Number(value::Number::Integer(i)) => ValueKind::Number(Number::Integer(*i)),
            _ => ValueKind::NotYetImplemented,
        }
    }
}

/// Customizes an `Env`; there are no settings yet.
#[derive(Clone, Copy, Debug)]
pub struct EnvSettings {}

impl EnvSettings {
    /// The default settings.
    pub fn new() -> (s: EnvSettings) {
        EnvSettings {}
    }
}

/// Shares expressions across evaluations: every expression evaluated in an
/// environment is appended to its arena and colored there.
pub struct Env {
    arena: ColoredExprArena,
    settings: EnvSettings,
}

/// The cache an evaluation starts from: `m` where it is well-formed for
/// `colors`, and an empty cache otherwise.
pub open spec fn starting_cache(m: CacheModel, colors: Seq<Option<Seq<u8>>>) -> CacheModel {
    if cache_wf(m, colors) {
        m
    } else {
        Cache::new_model()
    }
}

/// Whether an environment holding `n` expressions may evaluate `mir`: the
/// coloring graph of all of them, three nodes per expression, must be
/// counted within a machine word.
pub open spec fn fits(n: nat, mir: RootExpr) -> bool {
    3 * (n + mir.spec_arena().len()) < usize::MAX
}

/// Whether `n` expressions and `m` more can be colored together (see
/// `fits`).
pub fn fits_in_word(n: usize, m: usize) -> (b: bool)
    ensures
        b == (3 * (n + m) < usize::MAX),
{
    match n.checked_add(m) {
        Some(total) => match total.checked_mul(3) {
            Some(nodes) => nodes < usize::MAX,
            None => false,
        },
        None => false,
    }
}

/// The evaluation of the root of `mir` once its expressions were appended to
/// `n` others, giving `after`: from no thunks and the cache that `start`
/// gives for the colors of `after`.
pub open spec fn root_evaluation(
    after: Seq<ColoredExpr>,
    n: nat,
    mir: RootExpr,
    start: spec_fn(Seq<Option<Seq<u8>>>) -> CacheModel,
) -> (EvalStateModel, Result<ValueModel, EvalError>) {
    evaluate_root(
        after,
        EvalStateModel { thunks: Seq::empty(), cache: start(colors_of(after)) },
        crate::arena::ArenaId((n + mir.spec_root().index()) as usize),
        DEFAULT_DEPTH as nat,
    )
}

/// What evaluating the root of `mir` in an environment whose expressions
/// were `before` leaves: the expressions `after` and the result `r`.
///
/// Where the environment and `mir` fit, `after` is `before` with the
/// expressions of `mir` appended, all of them colored, and `r` is what
/// `evaluate_root` gives for the root of `mir`; otherwise `r` is an error
/// and nothing is appended.
pub open spec fn root_outcome(
    before: Seq<ColoredExpr>,
    after: Seq<ColoredExpr>,
    mir: RootExpr,
    start: spec_fn(Seq<Option<Seq<u8>>>) -> CacheModel,
    r: Result<Value, EmptyError>,
) -> bool {
    if fits(before.len(), mir) {
        let n = before.len();
        &&& after.len() == n + mir.spec_arena().len()
        &&& exprs_of(after).subrange(0, n as int) == exprs_of(before)
        &&& forall|i: int|
            0 <= i < mir.spec_arena().len() ==> #[trigger] shifted_from(
                mir.spec_arena()[i],
                n,
                exprs_of(after)[n + i],
            )
        &&& colors_of(after) == refine_all(
            exprs_of(after),
            colors_of(before) + Seq::new(mir.spec_arena().len(), |i: int| None::<Seq<u8>>),
            coloring_order(exprs_of(after)),
        )
        &&& forall|i: int| 0 <= i < after.len() ==> (#[trigger] colors_of(after)[i]) is Some
        &&& match root_evaluation(after, n, mir, start).1 {
            Ok(v) => r matches Ok(val) && val.spec_inner() == v,
            Err(_) => r is Err,
        }
    } else {
        r is Err && after == before
    }
}

/// The cache that evaluating the root of `mir` leaves (see `root_outcome`):
/// the evaluation's final cache where it ran, and an empty cache otherwise.
pub open spec fn root_cache(
    before: Seq<ColoredExpr>,
    after: Seq<ColoredExpr>,
    mir: RootExpr,
    start: spec_fn(Seq<Option<Seq<u8>>>) -> CacheModel,
) -> CacheModel {
    if fits(before.len(), mir) {
        root_evaluation(after, before.len(), mir, start).0.cache
    } else {
        Cache::new_model()
    }
}

/// The starting cache of an evaluation with no memoized results.
pub open spec fn empty_start() -> spec_fn(Seq<Option<Seq<u8>>>) -> CacheModel {
    |colors: Seq<Option<Seq<u8>>>| Cache::new_model()
}

/// The starting cache of an evaluation given the records `values` and the
/// memoized results `evals` (see `starting_cache`).
pub open spec fn given_start(
    values: Seq<(ValueHash, ValueRecord)>,
    evals: Seq<(EvalHash, ValueHash)>,
) -> spec_fn(Seq<Option<Seq<u8>>>) -> CacheModel {
    |colors: Seq<Option<Seq<u8>>>| starting_cache(entries_model(values, evals), colors)
}

/// `mir` is a lowering of `ast` (see `denotes`) of at most
/// `ast_size(ast) + 1` expressions.
pub open spec fn lowered_as(mir: RootExpr, ast: Ast) -> bool {
    &&& mir.wf()
    &&& denotes(mir.spec_arena(), mir.spec_root().index() as int, ast, Seq::empty(), 0)
    &&& mir.spec_arena().len() <= ast_size(ast) + 1
}

/// What evaluating the syntax tree `ast` in an environment whose
/// expressions were `before` leaves: the expressions `after`, the result
/// `r`, and, from the starting cache `start`, the cache `cache`. Where a name
/// of `ast` is unbound, `r` is an error and nothing changes; where lambdas
/// nest no deeper than a `usize` counts, it is the outcome of `eval_root` on
/// a lowering of `ast`.
pub open spec fn ast_outcome(
    before: Seq<ColoredExpr>,
    after: Seq<ColoredExpr>,
    ast: Ast,
    start: spec_fn(Seq<Option<Seq<u8>>>) -> CacheModel,
    r: Result<Value, EmptyError>,
    cache: CacheModel,
) -> bool {
    &&& r is Ok ==> well_bound(ast, Seq::empty())
    &&& !well_bound(ast, Seq::empty()) ==> r is Err && after == before && cache == Cache::new_model()
    &&& well_bound(ast, Seq::empty()) && nesting(ast) <= usize::MAX ==> exists|mir: RootExpr|
        lowered_as(mir, ast) && #[trigger] root_outcome(before, after, mir, start, r) && cache == root_cache(
            before,
            after,
            mir,
            start,
        )
}

impl Env {
    /// The expressions of the environment.
    pub closed spec fn spec_arena(&self) -> Seq<ColoredExpr> {
        self.arena@
    }

    /// Sub-expressions lie in the arena.
    pub open spec fn wf(&self) -> bool {
        colored_closed(self.spec_arena())
    }

    /// An environment with no expressions.
    pub fn new(settings: EnvSettings) -> (env: Env)
        ensures
            env.spec_arena() == Seq::<ColoredExpr>::empty(),
            env.wf(),
    {
        Env { arena: Arena::new(), settings }
    }

    /// The expressions of the environment.
    pub fn arena(&self) -> (a: &ColoredExprArena)
        ensures
            a@ == self.spec_arena(),
    {
        &self.arena
    }

    /// Appends `mir` to the environment, colors all its expressions and
    /// evaluates and forces the root of `mir`, with an empty cache.
    ///
    /// Fails with `EmptyError` where the evaluation fails, or where the
    /// environment and `mir` together hold too many expressions to color
    /// (see `fits`; the environment is left as it was then).
    pub fn eval_root(&mut self, mir: RootExpr) -> (r: Result<Value, EmptyError>)
        requires
            old(self).wf(),
            mir.wf(),
        ensures
            final(self).wf(),
            root_outcome(old(self).spec_arena(), final(self).spec_arena(), mir, empty_start(), r),
    {
        let values: Vec<(ValueHash, ValueRecord)> = Vec::new();
        let evals: Vec<(EvalHash, ValueHash)> = Vec::new();
        proof {
            let m = entries_model(values@, evals@);
            assert(m.values =~= Cache::new_model().values);
            assert(m.evals =~= Cache::new_model().evals);
            assert(m == Cache::new_model());
        }
        let (r, _) = self.eval_root_cached(mir, values, evals);
        r
    }

    /// `eval_root`, memoizing in the cache made of the records `values` and
    /// the memoized results `evals` where they form a well-formed cache for
    /// the colored arena (see `cache_wf`), and in an empty cache otherwise;
    /// returns the cache as the evaluation leaves it.
    pub fn eval_root_cached(
        &mut self,
        mir: RootExpr,
        values: Vec<(ValueHash, ValueRecord)>,
        evals: Vec<(EvalHash, ValueHash)>,
    ) -> (r: (Result<Value, EmptyError>, Cache))
        requires
            old(self).wf(),
            mir.wf(),
        ensures
            final(self).wf(),
            cache_wf(r.1@, colors_of(final(self).spec_arena())),
            root_outcome(
                old(self).spec_arena(),
                final(self).spec_arena(),
                mir,
                given_start(values@, evals@),
                r.0,
            ),
            r.1@ == root_cache(
                old(self).spec_arena(),
                final(self).spec_arena(),
                mir,
                given_start(values@, evals@),
            ),
    {
        if !fits_in_word(self.arena.size(), mir.size()) {
            let empty = Cache::new();
            proof {
                assert(cache_wf(empty@, colors_of(self.spec_arena())));
            }
            return (Err(EmptyError), empty);
        }
        let ghost before = self.arena@;
        let mut arena: ColoredExprArena = Arena::new();
        std::mem::swap(&mut arena, &mut self.arena);
        let mut colored_root = ColorableRootExpr::from_mir_root(arena, mir);
        let ghost appended = colored_root.spec_arena();
        colored_root.color_all();
        proof {
            let n = before.len();
            let m = mir.spec_arena();
            assert forall|i: int| 0 <= i < m.len() implies #[trigger] shifted_from(
                m[i],
                n,
                exprs_of(colored_root.spec_arena())[n + i],
            ) by {
                assert(appended_from(m[i], n, appended[n + i]));
            }
            assert(colors_of(appended) =~= colors_of(before) + Seq::new(m.len(), |i: int| None::<Seq<u8>>)) by {
                assert forall|i: int| 0 <= i < appended.len() implies colors_of(appended)[i] == (colors_of(before)
                    + Seq::new(m.len(), |i: int| None::<Seq<u8>>))[i] by {
                    if i < n {
                        assert(appended.subrange(0, n as int)[i] == appended[i]);
                    } else {
                        assert(appended_from(m[i - n], n, appended[n + (i - n)]));
                    }
                }
            }
            assert(exprs_of(appended).subrange(0, before.len() as int) =~= exprs_of(before)) by {
                assert forall|i: int| 0 <= i < before.len() implies exprs_of(appended)[i] == exprs_of(
                    before,
                )[i] by {
                    assert(appended.subrange(0, before.len() as int)[i] == appended[i]);
                }
            }
        }
        let cache = match validated_cache(values, evals, colored_root.arena()) {
            Some(c) => c,
            None => {
                let empty = Cache::new();
                proof {
                    assert(cache_wf(empty@, colors_of(colored_root.spec_arena())));
                }
                empty
            },
        };
        let mut st = EvalState::with_cache(cache);
        let result = st.eval_root(&colored_root, DEFAULT_DEPTH);
        self.arena = colored_root.into_arena();
        let cache = st.into_cache();
        match result {
            Ok(v) => (Ok(Value::new(v)), cache),
            Err(_) => (Err(EmptyError), cache),
        }
    }
}

impl Env {
    /// Lowers `ast` (see `lower`), then appends, colors and evaluates it as
    /// `eval_root` does.
    ///
    /// Fails with `EmptyError`, leaving the environment as it was, where
    /// `lower` refuses `ast`; otherwise the outcome is that of `eval_root`
    /// on the lowered expression: an expression graph that is the lowering
    /// of `ast` (see `denotes`), of at most `ast_size(ast) + 1` expressions.
    pub fn eval_ast(&mut self, ast: &Ast) -> (r: Result<Value, EmptyError>)
        requires
            old(self).wf(),
        ensures
            final(self).wf(),
            exists|c: CacheModel|
                #[trigger] ast_outcome(old(self).spec_arena(), final(self).spec_arena(), *ast, empty_start(), r, c),
    {
        let values: Vec<(ValueHash, ValueRecord)> = Vec::new();
        let evals: Vec<(EvalHash, ValueHash)> = Vec::new();
        proof {
            let m = entries_model(values@, evals@);
            assert(m.values =~= Cache::new_model().values);
            assert(m.evals =~= Cache::new_model().evals);
        }
        let (r, c) = self.eval_ast_cached(ast, values, evals);
        proof {
            assert(given_start(values@, evals@) =~= empty_start());
        }
        r
    }

    /// `eval_ast`, memoizing as `eval_root_cached` does; returns the cache
    /// as the evaluation leaves it (empty where `lower` refuses `ast`).
    pub fn eval_ast_cached(
        &mut self,
        ast: &Ast,
        values: Vec<(ValueHash, ValueRecord)>,
        evals: Vec<(EvalHash, ValueHash)>,
    ) -> (r: (Result<Value, EmptyError>, Cache))
        requires
            old(self).wf(),
        ensures
            final(self).wf(),
            cache_wf(r.1@, colors_of(final(self).spec_arena())),
            ast_outcome(
                old(self).spec_arena(),
                final(self).spec_arena(),
                *ast,
                given_start(values@, evals@),
                r.0,
                r.1@,
            ),
    {
        let ghost start = given_start(values@, evals@);
        match lower(ast) {
            Ok(mir) => {
                let ghost m = mir;
                let r = self.eval_root_cached(mir, values, evals);
                assert(lowered_as(m, *ast) && root_outcome(old(self).spec_arena(), self.spec_arena(), m, start, r.0));
                r
            },
            Err(_) => {
                let empty = Cache::new();
                proof {
                    assert(cache_wf(empty@, colors_of(self.spec_arena())));
                }
                (Err(EmptyError), empty)
            },
        }
    }
}

impl Env {
    /// Parses nix source text `expr` (see `parse_nix`) and evaluates it as
    /// `eval_ast` does; fails with `EmptyError`, leaving the environment as
    /// it was, where the text does not parse.
    pub fn eval_raw(&mut self, expr: &str) -> (r: Result<Value, EmptyError>)
        requires
            old(self).wf(),
        ensures
            final(self).wf(),
            match nix_syntax(expr@) {
                Some(ast) => exists|c: CacheModel|
                    #[trigger] ast_outcome(old(self).spec_arena(), final(self).spec_arena(), ast, empty_start(), r, c),
                None => r is Err && final(self).spec_arena() == old(self).spec_arena(),
            },
    {
        match parse_nix(expr) {
            Some(ast) => self.eval_ast(&ast),
            None => Err(EmptyError),
        }
    }

    /// `eval_raw`, memoizing as `eval_ast_cached` does; returns the cache as
    /// the evaluation leaves it (empty where the text does not parse).
    pub fn eval_raw_cached(
        &mut self,
        expr: &str,
        values: Vec<(ValueHash, ValueRecord)>,
        evals: Vec<(EvalHash, ValueHash)>,
    ) -> (r: (Result<Value, EmptyError>, Cache))
        requires
            old(self).wf(),
        ensures
            final(self).wf(),
            cache_wf(r.1@, colors_of(final(self).spec_arena())),
            match nix_syntax(expr@) {
                Some(ast) => ast_outcome(
                    old(self).spec_arena(),
                    final(self).spec_arena(),
                    ast,
                    given_start(values@, evals@),
                    r.0,
                    r.1@,
                ),
                None => r.0 is Err && final(self).spec_arena() == old(self).spec_arena() && r.1@
                    == Cache::new_model(),
            },
    {
        match parse_nix(expr) {
            Some(ast) => self.eval_ast_cached(&ast, values, evals),
            None => {
                let empty = Cache::new();
                proof {
                    assert(cache_wf(empty@, colors_of(self.spec_arena())));
                }
                (Err(EmptyError), empty)
            },
        }
    }
}

/// Runs evaluations: hands out environments.
#[derive(Clone, Copy, Debug)]
pub struct Evaluator {}

impl Evaluator {
    /// The default evaluator.
    pub fn new() -> (e: Evaluator) {
        Evaluator {}
    }

    /// Calls `lambda` with a new, empty environment made with `settings`.
    pub fn with_env<O, F: FnOnce(Env) -> O>(&self, settings: EnvSettings, lambda: F) -> (o: O)
        requires
            forall|env: Env| env.wf() && env.spec_arena().len() == 0 ==> lambda.requires((env,)),
        ensures
            exists|env: Env| env.wf() && env.spec_arena().len() == 0 && lambda.ensures((env,), o),
    {
        let env = Env::new(settings);
        lambda(env)
    }
}

} // verus!
