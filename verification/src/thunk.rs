//! The store of thunk cells.
use vstd::prelude::*;

use crate::arena::ArenaId;
use crate::value::{
    Callstack, EvalResult, Thunk, ThunkModel, ThunkState, duplicate_result, result_view,
};

verus! {

/// All thunk cells of an evaluation; a `Thunk` is an index into it.
pub struct ThunkStore {
    cells: Vec<ThunkState>,
}

impl View for ThunkStore {
    type V = Seq<ThunkModel>;

    closed spec fn view(&self) -> Seq<ThunkModel> {
        self.cells@.map_values(|c: ThunkState| c@)
    }
}

impl ThunkStore {
    /// An empty store.
    pub fn new() -> (s: ThunkStore)
        ensures
            s@ == Seq::<ThunkModel>::empty(),
    {
        let s = ThunkStore { cells: Vec::new() };
        assert(s@ =~= Seq::<ThunkModel>::empty());
        s
    }

    /// The number of cells.
    pub fn len(&self) -> (n: usize)
        ensures
            n == self@.len(),
    {
        self.cells.len()
    }

    fn push(&mut self, cell: ThunkState) -> (t: Thunk)
        ensures
            final(self)@ == old(self)@.push(cell@),
            t.0 == old(self)@.len(),
    {
        let t = Thunk(self.cells.len());
        self.cells.push(cell);
        assert(self@ =~= old(self)@.push(cell@));
        t
    }

    /// Whether cell `t` is forced, evaluating or deferred, and with what.
    pub fn state(&self, t: Thunk) -> (s: &ThunkState)
        requires
            t.0 < self@.len(),
        ensures
            s@ == self@[t.0 as int],
    {
        &self.cells[t.0]
    }

    /// Replaces the state of cell `t`.
    pub fn set(&mut self, t: Thunk, cell: ThunkState)
        requires
            t.0 < old(self)@.len(),
        ensures
            final(self)@ == old(self)@.update(t.0 as int, cell@),
    {
        self.cells.set(t.0, cell);
        assert(self@ =~= old(self)@.update(t.0 as int, cell@));
    }
}

impl Thunk {
    /// A new deferred thunk that evaluates `expr` in `callstack`.
    pub fn new(store: &mut ThunkStore, expr: ArenaId, callstack: Callstack) -> (t: Thunk)
        ensures
            final(store)@ == old(store)@.push(ThunkModel::Deferred(expr, callstack@)),
            t.0 == old(store)@.len(),
    {
        store.push(ThunkState::Deferred { expr, callstack })
    }

    /// A new thunk that is already forced, to `result`.
    pub fn new_forced(store: &mut ThunkStore, result: EvalResult) -> (t: Thunk)
        ensures
            final(store)@ == old(store)@.push(ThunkModel::Forced(result_view(result))),
            t.0 == old(store)@.len(),
    {
        store.push(ThunkState::Forced(result))
    }

    /// Whether the thunk has been evaluated.
    pub fn is_forced(self, store: &ThunkStore) -> (b: bool)
        requires
            self.0 < store@.len(),
        ensures
            b == (store@[self.0 as int] is Forced),
    {
        match store.state(self) {
            ThunkState::Forced(_) => true,
            _ => false,
        }
    }

    /// The outcome of the thunk, if it is forced.
    pub fn forced_result(self, store: &ThunkStore) -> (r: Option<EvalResult>)
        requires
            self.0 < store@.len(),
        ensures
            match store@[self.0 as int] {
                ThunkModel::Forced(f) => r matches Some(x) && result_view(x) == f,
                _ => r is None,
            },
    {
        match store.state(self) {
            ThunkState::Forced(res) => Some(duplicate_result(res)),
            _ => None,
        }
    }
}

} // verus!
