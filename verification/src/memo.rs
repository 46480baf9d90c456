//! Turning runtime values into records and back, and memoizing evaluation
//! results in a `Cache`.
//!
//! A value is recorded by following forced thunks and the values a lambda
//! closes over. The thunks being followed form a path (`on_path`); a thunk
//! whose value leads back to itself, where following would never end, is
//! not recordable.
use vstd::prelude::*;

use crate::arena::ArenaId;
use crate::cache::{
    Cache, CacheModel, entries_model, insert_record, key_position, lemma_key_position, lemma_key_position_push,
    lemma_key_position_update, lookup_eval, lookup_record, set_eval,
};
use crate::coloring::{Color, ColoredExprArena, bytes_equal, colors_of};
use crate::record::{
    CallstackRecord, EvalHash, LambdaRecord, RecordModel, ValueHash, ValueRecord, evaluation_hash,
    hashes_view, record_hash,
};
use crate::thunk::ThunkStore;
use crate::value::{
    Callstack, EvalError, EvalResult, Lambda, Thunk, ThunkModel, ThunkState, Value, ValueModel,
};

verus! {

/// The position of the last expression colored `c`, or -1 if there is none.
pub open spec fn color_owner(colors: Seq<Option<Seq<u8>>>, c: Seq<u8>) -> int
    decreases colors.len(),
{
    if colors.len() == 0 {
        -1
    } else if colors.last() == Some(c) {
        colors.len() - 1
    } else {
        color_owner(colors.drop_last(), c)
    }
}

pub proof fn lemma_color_owner(colors: Seq<Option<Seq<u8>>>, c: Seq<u8>)
    ensures
        -1 <= color_owner(colors, c) < colors.len(),
        color_owner(colors, c) >= 0 ==> colors[color_owner(colors, c)] == Some(c),
        forall|i: int|
            0 <= i < colors.len() && i > color_owner(colors, c) ==> #[trigger] colors[i] != Some(c),
    decreases colors.len(),
{
    if colors.len() > 0 && colors.last() != Some(c) {
        let prefix = colors.drop_last();
        lemma_color_owner(prefix, c);
        assert forall|i: int|
            0 <= i < colors.len() && i > color_owner(colors, c) implies #[trigger] colors[i] != Some(
            c,
        ) by {
            if i < prefix.len() {
                assert(prefix[i] == colors[i]);
            }
        }
    }
}

/// The number of thunks that are not on the path `on_path`.
pub open spec fn free_count(on_path: Seq<bool>) -> nat
    decreases on_path.len(),
{
    if on_path.len() == 0 {
        0
    } else {
        free_count(on_path.drop_last()) + if on_path.last() {
            0nat
        } else {
            1nat
        }
    }
}

/// Putting a thunk on the path leaves one thunk fewer off it.
pub proof fn lemma_free_count_mark(on_path: Seq<bool>, i: int)
    requires
        0 <= i < on_path.len(),
        !on_path[i],
    ensures
        free_count(on_path.update(i, true)) + 1 == free_count(on_path),
    decreases on_path.len(),
{
    let u = on_path.update(i, true);
    if i == on_path.len() - 1 {
        assert(u.drop_last() =~= on_path.drop_last());
    } else {
        assert(u.drop_last() =~= on_path.drop_last().update(i, true));
        lemma_free_count_mark(on_path.drop_last(), i);
    }
}

/// The empty path over a store of `n` thunks.
pub open spec fn no_path(n: nat) -> Seq<bool> {
    Seq::new(n, |i: int| false)
}

/// Lambdas rank above the other values: recording a lambda goes on to its
/// captures on the same path.
pub open spec fn value_rank(v: ValueModel) -> nat {
    match v {
        ValueModel::Lambda(_, _) => 2,
        _ => 0,
    }
}

/// The record of `v`, following forced thunks, while the thunks `on_path`
/// are being followed; `None` where `v` is not recordable: a thunk that is
/// not forced to a value, an uncolored lambda body, or a thunk on the path
/// (its value leads back to itself).
pub open spec fn value_record_along(
    colors: Seq<Option<Seq<u8>>>,
    thunks: Seq<ThunkModel>,
    v: ValueModel,
    on_path: Seq<bool>,
) -> Option<RecordModel>
    decreases free_count(on_path), value_rank(v), 0nat,
{
    match v {
        ValueModel::Lambda(body, caps) => {
            if body.index() < colors.len() && colors[body.index() as int] is Some {
                match capture_hashes_along(colors, thunks, caps, on_path) {
                    Some(hs) => Some(RecordModel::Lambda(colors[body.index() as int]->Some_0, hs)),
                    None => None,
                }
            } else {
                None
            }
        },
        ValueModel::Thunk(t) => {
            if t.0 < thunks.len() && t.0 < on_path.len() && !on_path[t.0 as int] {
                match thunks[t.0 as int] {
                    ThunkModel::Forced(Ok(inner)) => {
                        proof {
                            lemma_free_count_mark(on_path, t.0 as int);
                        }
                        value_record_along(colors, thunks, inner, on_path.update(t.0 as int, true))
                    },
                    _ => None,
                }
            } else {
                None
            }
        },
        ValueModel::Number(n) => Some(RecordModel::Number(n)),
        ValueModel::Bool(b) => Some(RecordModel::Bool(b)),
    }
}

/// The hashes of the records of the values in `caps` (see
/// `value_record_along`), or `None` if one of them is not recordable.
pub open spec fn capture_hashes_along(
    colors: Seq<Option<Seq<u8>>>,
    thunks: Seq<ThunkModel>,
    caps: Seq<Thunk>,
    on_path: Seq<bool>,
) -> Option<Seq<Seq<u8>>>
    decreases free_count(on_path), 1nat, caps.len(),
{
    if caps.len() == 0 {
        Some(Seq::empty())
    } else {
        match capture_hashes_along(colors, thunks, caps.drop_last(), on_path) {
            Some(hs) => match value_record_along(colors, thunks, ValueModel::Thunk(caps.last()), on_path) {
                Some(r) => Some(hs.push(record_hash(r))),
                None => None,
            },
            None => None,
        }
    }
}

/// The record of `v` in the thunk store `thunks` (see `value_record_along`).
pub open spec fn value_record(colors: Seq<Option<Seq<u8>>>, thunks: Seq<ThunkModel>, v: ValueModel) -> Option<
    RecordModel,
> {
    value_record_along(colors, thunks, v, no_path(thunks.len()))
}

/// The hashes of the records of the values in `caps`.
pub open spec fn capture_hashes(colors: Seq<Option<Seq<u8>>>, thunks: Seq<ThunkModel>, caps: Seq<Thunk>) -> Option<
    Seq<Seq<u8>>,
> {
    capture_hashes_along(colors, thunks, caps, no_path(thunks.len()))
}

/// The hash of evaluating an expression of color `color` on callstack `cs`,
/// or `None` if the expression is uncolored or a value on the callstack is
/// not recordable.
pub open spec fn evaluation_key(
    colors: Seq<Option<Seq<u8>>>,
    thunks: Seq<ThunkModel>,
    color: Option<Seq<u8>>,
    cs: Seq<Thunk>,
) -> Option<Seq<u8>> {
    match color {
        Some(c) => match capture_hashes(colors, thunks, cs) {
            Some(hs) => Some(evaluation_hash(c, hs)),
            None => None,
        },
        None => None,
    }
}

/// Stores the record of `v` and of every value it closes over, children
/// first, while the thunks `on_path` are being followed; returns the cache
/// and the hash of `v`'s record, or `None` if `v` is not recordable (the
/// records stored before that stay).
pub open spec fn store_value_along(
    colors: Seq<Option<Seq<u8>>>,
    thunks: Seq<ThunkModel>,
    c: CacheModel,
    v: ValueModel,
    on_path: Seq<bool>,
) -> (CacheModel, Option<Seq<u8>>)
    decreases free_count(on_path), value_rank(v), 0nat,
{
    match v {
        ValueModel::Lambda(body, caps) => {
            if body.index() < colors.len() && colors[body.index() as int] is Some {
                let (c1, hs) = store_captures_along(colors, thunks, c, caps, on_path);
                match hs {
                    Some(hs) => {
                        let r = RecordModel::Lambda(colors[body.index() as int]->Some_0, hs);
                        (insert_record(c1, record_hash(r), r), Some(record_hash(r)))
                    },
                    None => (c1, None),
                }
            } else {
                (c, None)
            }
        },
        ValueModel::Thunk(t) => {
            if t.0 < thunks.len() && t.0 < on_path.len() && !on_path[t.0 as int] {
                match thunks[t.0 as int] {
                    ThunkModel::Forced(Ok(inner)) => {
                        proof {
                            lemma_free_count_mark(on_path, t.0 as int);
                        }
                        store_value_along(colors, thunks, c, inner, on_path.update(t.0 as int, true))
                    },
                    _ => (c, None),
                }
            } else {
                (c, None)
            }
        },
        ValueModel::Number(n) => {
            let r = RecordModel::Number(n);
            (insert_record(c, record_hash(r), r), Some(record_hash(r)))
        },
        ValueModel::Bool(b) => {
            let r = RecordModel::Bool(b);
            (insert_record(c, record_hash(r), r), Some(record_hash(r)))
        },
    }
}

/// Stores the values in `caps` in order (see `store_value_along`), stopping
/// at the first that is not recordable.
pub open spec fn store_captures_along(
    colors: Seq<Option<Seq<u8>>>,
    thunks: Seq<ThunkModel>,
    c: CacheModel,
    caps: Seq<Thunk>,
    on_path: Seq<bool>,
) -> (CacheModel, Option<Seq<Seq<u8>>>)
    decreases free_count(on_path), 1nat, caps.len(),
{
    if caps.len() == 0 {
        (c, Some(Seq::empty()))
    } else {
        let (c1, hs) = store_captures_along(colors, thunks, c, caps.drop_last(), on_path);
        match hs {
            Some(hs) => {
                let (c2, h) = store_value_along(colors, thunks, c1, ValueModel::Thunk(caps.last()), on_path);
                match h {
                    Some(h) => (c2, Some(hs.push(h))),
                    None => (c2, None),
                }
            },
            None => (c1, None),
        }
    }
}

/// Stores the record of `v` (see `store_value_along`).
pub open spec fn store_value(
    colors: Seq<Option<Seq<u8>>>,
    thunks: Seq<ThunkModel>,
    c: CacheModel,
    v: ValueModel,
) -> (CacheModel, Option<Seq<u8>>) {
    store_value_along(colors, thunks, c, v, no_path(thunks.len()))
}

/// Memoizes the outcome `r` of the evaluation `key`; errors and values that
/// are not recordable are not memoized.
pub open spec fn store_result(
    colors: Seq<Option<Seq<u8>>>,
    thunks: Seq<ThunkModel>,
    c: CacheModel,
    key: Seq<u8>,
    r: Result<ValueModel, EvalError>,
) -> CacheModel {
    match r {
        Ok(v) => {
            let (c1, h) = store_value(colors, thunks, c, v);
            match h {
                Some(h) => set_eval(c1, key, h),
                None => c1,
            }
        },
        Err(_) => c,
    }
}

/// Rebuilds the value recorded under `h` (see `value_from_record`).
/// Defined for every hash that a well-formed cache refers to.
pub open spec fn get_value(
    colors: Seq<Option<Seq<u8>>>,
    c: CacheModel,
    thunks: Seq<ThunkModel>,
    h: Seq<u8>,
) -> (Seq<ThunkModel>, ValueModel)
    decreases key_position(c.values, h) + 1, 0nat, 0nat,
{
    let p = key_position(c.values, h);
    if 0 <= p < c.values.len() {
        value_from_record(colors, c, thunks, c.values[p].1, p)
    } else {
        (thunks, ValueModel::Bool(false))
    }
}

/// Rebuilds the value of record `r`, stored at position `p`: a lambda's
/// body is the last expression with the recorded color, and every value it
/// closed over becomes a new forced thunk, appended in order.
pub open spec fn value_from_record(
    colors: Seq<Option<Seq<u8>>>,
    c: CacheModel,
    thunks: Seq<ThunkModel>,
    r: RecordModel,
    p: int,
) -> (Seq<ThunkModel>, ValueModel)
    decreases p, 1nat, 0nat,
{
    match r {
        RecordModel::Number(n) => (thunks, ValueModel::Number(n)),
        RecordModel::Bool(b) => (thunks, ValueModel::Bool(b)),
        RecordModel::Lambda(color, caps) => {
            if p >= 0 {
                let (t1, ts) = get_captures(colors, c, thunks, caps, p);
                (t1, ValueModel::Lambda(ArenaId(color_owner(colors, color) as usize), ts))
            } else {
                (thunks, ValueModel::Bool(false))
            }
        },
    }
}

/// Rebuilds the values recorded under `caps`, each as a new forced thunk.
pub open spec fn get_captures(
    colors: Seq<Option<Seq<u8>>>,
    c: CacheModel,
    thunks: Seq<ThunkModel>,
    caps: Seq<Seq<u8>>,
    bound: int,
) -> (Seq<ThunkModel>, Seq<Thunk>)
    decreases bound, 0nat, caps.len(),
{
    if caps.len() == 0 || bound < 0 {
        (thunks, Seq::empty())
    } else {
        let (t1, ts) = get_captures(colors, c, thunks, caps.drop_last(), bound);
        if key_position(c.values, caps.last()) < bound {
            let (t2, v) = get_value(colors, c, t1, caps.last());
            (t2.push(ThunkModel::Forced(Ok(v))), ts.push(Thunk(t2.len() as usize)))
        } else {
            (t1, ts)
        }
    }
}

/// The memoized outcome of the evaluation `key`, if there is one.
pub open spec fn get_result(
    colors: Seq<Option<Seq<u8>>>,
    c: CacheModel,
    thunks: Seq<ThunkModel>,
    key: Seq<u8>,
) -> (Seq<ThunkModel>, Option<ValueModel>) {
    match lookup_eval(c, key) {
        Some(h) => {
            let (t1, v) = get_value(colors, c, thunks, h);
            (t1, Some(v))
        },
        None => (thunks, None),
    }
}

/// The invariant of a cache used with an arena of colors `colors`: every
/// record is stored under its own hash, once, and refers only to records
/// stored before it and to colors of the arena; every memoized result
/// refers to a stored record, and each evaluation is memoized once (a new
/// result for it replaces the old one).
pub open spec fn cache_wf(c: CacheModel, colors: Seq<Option<Seq<u8>>>) -> bool {
    &&& forall|p: int| 0 <= p < c.values.len() ==> (#[trigger] c.values[p]).0 == record_hash(c.values[p].1)
    &&& forall|p: int| 0 <= p < c.values.len() ==> key_position(c.values, (#[trigger] c.values[p]).0) == p
    &&& forall|p: int| 0 <= p < c.values.len() ==> record_refs_before(c, colors, #[trigger] c.values[p].1, p)
    &&& forall|q: int| 0 <= q < c.evals.len() ==> key_position(c.values, (#[trigger] c.evals[q]).1) >= 0
    &&& forall|q: int| 0 <= q < c.evals.len() ==> key_position(c.evals, (#[trigger] c.evals[q]).0) == q
}

/// Record `r` refers only to records stored before position `p` and to a
/// color of the arena.
pub open spec fn record_refs_before(
    c: CacheModel,
    colors: Seq<Option<Seq<u8>>>,
    r: RecordModel,
    p: int,
) -> bool {
    match r {
        RecordModel::Lambda(color, caps) => {
            &&& color_owner(colors, color) >= 0
            &&& forall|j: int| 0 <= j < caps.len() ==> 0 <= key_position(c.values, #[trigger] caps[j]) < p
        },
        _ => true,
    }
}

/// `c2` holds the records of `c1`, in the same positions.
pub open spec fn keeps_records(c2: CacheModel, c1: CacheModel) -> bool {
    &&& c1.values.len() <= c2.values.len()
    &&& c2.values.take(c1.values.len() as int) == c1.values
}

/// `c2` holds the records of `c1`, in the same positions, and the same
/// memoized results.
pub open spec fn extends(c2: CacheModel, c1: CacheModel) -> bool {
    &&& c1.values.len() <= c2.values.len()
    &&& c2.values.take(c1.values.len() as int) == c1.values
    &&& c2.evals == c1.evals
}

proof fn lemma_key_position_prefix<V>(short: Seq<(Seq<u8>, V)>, long: Seq<(Seq<u8>, V)>, k: Seq<u8>)
    requires
        short.len() <= long.len(),
        long.take(short.len() as int) == short,
        key_position(short, k) >= 0,
    ensures
        key_position(long, k) == key_position(short, k),
    decreases long.len(),
{
    if long.len() == short.len() {
        assert(long =~= short);
    } else {
        let prefix = long.drop_last();
        assert(prefix.take(short.len() as int) =~= short);
        lemma_key_position_prefix(short, prefix, k);
        assert(prefix.push(long.last()) =~= long);
        lemma_key_position_push(prefix, long.last(), k);
    }
}

proof fn lemma_extends_trans(c3: CacheModel, c2: CacheModel, c1: CacheModel)
    requires
        extends(c3, c2),
        extends(c2, c1),
    ensures
        extends(c3, c1),
{
    assert(c3.values.take(c1.values.len() as int) =~= c2.values.take(c1.values.len() as int));
}

proof fn lemma_extends_wf(c2: CacheModel, c1: CacheModel, colors: Seq<Option<Seq<u8>>>)
    requires
        extends(c2, c1),
        cache_wf(c1, colors),
    ensures
        forall|p: int| 0 <= p < c1.values.len() ==> #[trigger] c2.values[p] == c1.values[p],
        forall|k: Seq<u8>|
            #[trigger] key_position(c1.values, k) >= 0 ==> key_position(c2.values, k) == key_position(
                c1.values,
                k,
            ),
{
    assert forall|p: int| 0 <= p < c1.values.len() implies #[trigger] c2.values[p] == c1.values[p] by {
        assert(c2.values.take(c1.values.len() as int)[p] == c2.values[p]);
    }
    assert forall|k: Seq<u8>| #[trigger] key_position(c1.values, k) >= 0 implies key_position(
        c2.values,
        k,
    ) == key_position(c1.values, k) by {
        lemma_key_position_prefix(c1.values, c2.values, k);
    }
}

/// Inserting a record that refers only to stored records and arena colors,
/// under its own hash, keeps the cache well-formed.
proof fn lemma_insert_wf(c: CacheModel, colors: Seq<Option<Seq<u8>>>, r: RecordModel)
    requires
        cache_wf(c, colors),
        record_refs_before(c, colors, r, c.values.len() as int),
    ensures
        cache_wf(insert_record(c, record_hash(r), r), colors),
        extends(insert_record(c, record_hash(r), r), c),
        key_position(insert_record(c, record_hash(r), r).values, record_hash(r)) >= 0,
{
    let h = record_hash(r);
    let c2 = insert_record(c, h, r);
    lemma_key_position(c.values, h);
    if key_position(c.values, h) < 0 {
        let n = c.values.len() as int;
        assert(c2.values.take(n) =~= c.values);
        lemma_key_position_push(c.values, (h, r), h);
        assert forall|k: Seq<u8>| #[trigger] key_position(c.values, k) >= 0 implies key_position(
            c2.values,
            k,
        ) == key_position(c.values, k) by {
            lemma_key_position_push(c.values, (h, r), k);
        }
        assert forall|p: int| 0 <= p < c2.values.len() implies key_position(
            c2.values,
            (#[trigger] c2.values[p]).0,
        ) == p by {
            if p < n {
                assert(c2.values[p] == c.values[p]);
                assert(key_position(c.values, c.values[p].0) == p);
            }
        }
        assert forall|p: int| 0 <= p < c2.values.len() implies record_refs_before(
            c2,
            colors,
            #[trigger] c2.values[p].1,
            p,
        ) by {
            if p < n {
                assert(c2.values[p] == c.values[p]);
                assert(record_refs_before(c, colors, c.values[p].1, p));
                if let RecordModel::Lambda(color, caps) = c.values[p].1 {
                    assert forall|j: int| 0 <= j < caps.len() implies 0 <= key_position(
                        c2.values,
                        #[trigger] caps[j],
                    ) < p by {
                        assert(0 <= key_position(c.values, caps[j]) < p);
                    }
                }
            } else {
                if let RecordModel::Lambda(color, caps) = r {
                    assert forall|j: int| 0 <= j < caps.len() implies 0 <= key_position(
                        c2.values,
                        #[trigger] caps[j],
                    ) < p by {
                        assert(0 <= key_position(c.values, caps[j]) < n);
                    }
                }
            }
        }
        assert forall|q: int| 0 <= q < c2.evals.len() implies key_position(
            c2.values,
            (#[trigger] c2.evals[q]).1,
        ) >= 0 by {
            assert(key_position(c.values, c.evals[q].1) >= 0);
        }
    } else {
        assert(c2.values.take(c.values.len() as int) =~= c.values);
    }
}

/// `store_value_along` keeps the cache well-formed, only appends records,
/// and the hash it returns is stored.
pub proof fn lemma_store_value_wf(
    colors: Seq<Option<Seq<u8>>>,
    thunks: Seq<ThunkModel>,
    c: CacheModel,
    v: ValueModel,
    on_path: Seq<bool>,
)
    requires
        cache_wf(c, colors),
    ensures
        cache_wf(store_value_along(colors, thunks, c, v, on_path).0, colors),
        extends(store_value_along(colors, thunks, c, v, on_path).0, c),
        store_value_along(colors, thunks, c, v, on_path).1 matches Some(h) ==> key_position(
            store_value_along(colors, thunks, c, v, on_path).0.values,
            h,
        ) >= 0,
    decreases free_count(on_path), value_rank(v), 0nat,
{
    assert(c.values.take(c.values.len() as int) =~= c.values);
    match v {
        ValueModel::Lambda(body, caps) => {
            if body.index() < colors.len() && colors[body.index() as int] is Some {
                lemma_store_captures_wf(colors, thunks, c, caps, on_path);
                let (c1, hs) = store_captures_along(colors, thunks, c, caps, on_path);
                if let Some(hs) = hs {
                    let color = colors[body.index() as int]->Some_0;
                    let r = RecordModel::Lambda(color, hs);
                    lemma_color_owner(colors, color);
                    assert(record_refs_before(c1, colors, r, c1.values.len() as int)) by {
                        assert forall|j: int| 0 <= j < hs.len() implies 0 <= key_position(
                            c1.values,
                            #[trigger] hs[j],
                        ) < c1.values.len() by {
                            lemma_key_position(c1.values, hs[j]);
                        }
                    }
                    lemma_insert_wf(c1, colors, r);
                    lemma_extends_trans(insert_record(c1, record_hash(r), r), c1, c);
                }
            }
        },
        ValueModel::Thunk(t) => {
            if t.0 < thunks.len() && t.0 < on_path.len() && !on_path[t.0 as int] {
                if let ThunkModel::Forced(Ok(inner)) = thunks[t.0 as int] {
                    lemma_free_count_mark(on_path, t.0 as int);
                    lemma_store_value_wf(colors, thunks, c, inner, on_path.update(t.0 as int, true));
                }
            }
        },
        ValueModel::Number(n) => {
            lemma_insert_wf(c, colors, RecordModel::Number(n));
        },
        ValueModel::Bool(b) => {
            lemma_insert_wf(c, colors, RecordModel::Bool(b));
        },
    }
}

/// `store_captures_along` keeps the cache well-formed, only appends records,
/// and the hashes it returns are stored.
pub proof fn lemma_store_captures_wf(
    colors: Seq<Option<Seq<u8>>>,
    thunks: Seq<ThunkModel>,
    c: CacheModel,
    caps: Seq<Thunk>,
    on_path: Seq<bool>,
)
    requires
        cache_wf(c, colors),
    ensures
        cache_wf(store_captures_along(colors, thunks, c, caps, on_path).0, colors),
        extends(store_captures_along(colors, thunks, c, caps, on_path).0, c),
        store_captures_along(colors, thunks, c, caps, on_path).1 matches Some(hs) ==> forall|j: int|
            0 <= j < hs.len() ==> key_position(
                store_captures_along(colors, thunks, c, caps, on_path).0.values,
                #[trigger] hs[j],
            ) >= 0,
    decreases free_count(on_path), 1nat, caps.len(),
{
    assert(c.values.take(c.values.len() as int) =~= c.values);
    if caps.len() > 0 {
        lemma_store_captures_wf(colors, thunks, c, caps.drop_last(), on_path);
        let (c1, hs) = store_captures_along(colors, thunks, c, caps.drop_last(), on_path);
        if let Some(hs) = hs {
            lemma_store_value_wf(colors, thunks, c1, ValueModel::Thunk(caps.last()), on_path);
            let (c2, h) = store_value_along(colors, thunks, c1, ValueModel::Thunk(caps.last()), on_path);
            lemma_extends_trans(c2, c1, c);
            lemma_extends_wf(c2, c1, colors);
            if let Some(h) = h {
                let hs2 = hs.push(h);
                assert forall|j: int| 0 <= j < hs2.len() implies key_position(
                    c2.values,
                    #[trigger] hs2[j],
                ) >= 0 by {
                    if j < hs.len() {
                        assert(hs2[j] == hs[j]);
                        assert(key_position(c1.values, hs[j]) >= 0);
                    }
                }
            }
        }
    }
}

/// `store_result` keeps the cache well-formed and keeps its records.
pub proof fn lemma_store_result_wf(
    colors: Seq<Option<Seq<u8>>>,
    thunks: Seq<ThunkModel>,
    c: CacheModel,
    key: Seq<u8>,
    r: Result<ValueModel, EvalError>,
)
    requires
        cache_wf(c, colors),
    ensures
        cache_wf(store_result(colors, thunks, c, key, r), colors),
        keeps_records(store_result(colors, thunks, c, key, r), c),
{
    assert(c.values.take(c.values.len() as int) =~= c.values);
    if let Ok(v) = r {
        lemma_store_value_wf(colors, thunks, c, v, no_path(thunks.len()));
        let (c1, h) = store_value(colors, thunks, c, v);
        if let Some(h) = h {
            let c2 = set_eval(c1, key, h);
            lemma_key_position(c1.evals, key);
            assert forall|q: int| 0 <= q < c2.evals.len() implies key_position(
                c2.values,
                (#[trigger] c2.evals[q]).1,
            ) >= 0 by {
                if key_position(c1.evals, key) >= 0 && q == key_position(c1.evals, key) {
                } else if q < c1.evals.len() {
                    assert(c2.evals[q] == c1.evals[q]);
                }
            }
            let p = key_position(c1.evals, key);
            assert forall|q: int| 0 <= q < c2.evals.len() implies key_position(
                c2.evals,
                (#[trigger] c2.evals[q]).0,
            ) == q by {
                if p >= 0 {
                    assert(c1.evals.update(p, (c1.evals[p].0, h)) =~= c2.evals);
                    lemma_key_position_update(c1.evals, p, h, c2.evals[q].0);
                    assert(c2.evals[q].0 == c1.evals[q].0);
                } else {
                    lemma_key_position_push(c1.evals, (key, h), c2.evals[q].0);
                    if q < c1.evals.len() {
                        assert(c2.evals[q] == c1.evals[q]);
                    }
                }
            }
        }
    }
}

/// Storing a value returns the hash of the record that `value_record_along`
/// gives it.
pub proof fn lemma_store_value_hash(
    colors: Seq<Option<Seq<u8>>>,
    thunks: Seq<ThunkModel>,
    c: CacheModel,
    v: ValueModel,
    on_path: Seq<bool>,
)
    ensures
        store_value_along(colors, thunks, c, v, on_path).1 == (match value_record_along(
            colors,
            thunks,
            v,
            on_path,
        ) {
            Some(r) => Some(record_hash(r)),
            None => None::<Seq<u8>>,
        }),
    decreases free_count(on_path), value_rank(v), 0nat,
{
    match v {
        ValueModel::Lambda(body, caps) => {
            lemma_store_captures_hashes(colors, thunks, c, caps, on_path);
        },
        ValueModel::Thunk(t) => {
            if t.0 < thunks.len() && t.0 < on_path.len() && !on_path[t.0 as int] {
                if let ThunkModel::Forced(Ok(inner)) = thunks[t.0 as int] {
                    lemma_free_count_mark(on_path, t.0 as int);
                    lemma_store_value_hash(colors, thunks, c, inner, on_path.update(t.0 as int, true));
                }
            }
        },
        _ => {},
    }
}

/// Storing the values of `caps` returns the hashes `capture_hashes_along`
/// gives.
pub proof fn lemma_store_captures_hashes(
    colors: Seq<Option<Seq<u8>>>,
    thunks: Seq<ThunkModel>,
    c: CacheModel,
    caps: Seq<Thunk>,
    on_path: Seq<bool>,
)
    ensures
        store_captures_along(colors, thunks, c, caps, on_path).1 == capture_hashes_along(
            colors,
            thunks,
            caps,
            on_path,
        ),
    decreases free_count(on_path), 1nat, caps.len(),
{
    if caps.len() > 0 {
        lemma_store_captures_hashes(colors, thunks, c, caps.drop_last(), on_path);
        let (c1, hs) = store_captures_along(colors, thunks, c, caps.drop_last(), on_path);
        lemma_store_value_hash(colors, thunks, c1, ValueModel::Thunk(caps.last()), on_path);
    }
}

/// What `store_result` memoizes, the cache gives back: after the
/// recordable value `v` is memoized under `key`, `key` maps to the hash of
/// `v`'s record, a record with that hash is stored under it, and the cache
/// stays well-formed.
pub proof fn lemma_store_then_lookup(
    colors: Seq<Option<Seq<u8>>>,
    thunks: Seq<ThunkModel>,
    c: CacheModel,
    key: Seq<u8>,
    v: ValueModel,
)
    requires
        cache_wf(c, colors),
        value_record(colors, thunks, v) is Some,
    ensures
        ({
            let c2 = store_result(colors, thunks, c, key, Ok(v));
            let h = record_hash(value_record(colors, thunks, v)->Some_0);
            &&& cache_wf(c2, colors)
            &&& lookup_eval(c2, key) == Some(h)
            &&& lookup_record(c2, h) matches Some(r) && record_hash(r) == h
        }),
{
    lemma_store_value_hash(colors, thunks, c, v, no_path(thunks.len()));
    lemma_store_value_wf(colors, thunks, c, v, no_path(thunks.len()));
    lemma_store_result_wf(colors, thunks, c, key, Ok(v));
    let (c1, oh) = store_value(colors, thunks, c, v);
    let h = oh->Some_0;
    let c2 = set_eval(c1, key, h);
    lemma_key_position(c1.evals, key);
    let p = key_position(c1.evals, key);
    if p >= 0 {
        lemma_key_position_update(c1.evals, p, h, key);
        assert(c1.evals.update(p, (c1.evals[p].0, h)) =~= c2.evals);
    } else {
        lemma_key_position_push(c1.evals, (key, h), key);
    }
    lemma_key_position(c2.values, h);
    assert(c2.values == c1.values);
    let q = key_position(c2.values, h);
    assert(c2.values[q].0 == record_hash(c2.values[q].1));
}

/// Where a prefix of `caps` is not recordable, neither is `caps`.
proof fn lemma_capture_hashes_prefix(
    colors: Seq<Option<Seq<u8>>>,
    thunks: Seq<ThunkModel>,
    caps: Seq<Thunk>,
    k: int,
    on_path: Seq<bool>,
)
    requires
        0 <= k <= caps.len(),
        capture_hashes_along(colors, thunks, caps.take(k), on_path) is None,
    ensures
        capture_hashes_along(colors, thunks, caps, on_path) is None,
    decreases caps.len() - k,
{
    if k < caps.len() {
        assert(caps.take(k + 1).drop_last() =~= caps.take(k));
        lemma_capture_hashes_prefix(colors, thunks, caps, k + 1, on_path);
    } else {
        assert(caps.take(k) =~= caps);
    }
}

/// The model of an optional record.
pub open spec fn record_option_view(r: Option<ValueRecord>) -> Option<RecordModel> {
    match r {
        Some(r) => Some(r@),
        None => None,
    }
}

/// The id of the last expression of `arena` colored `color`.
pub fn color_owner_in(arena: &ColoredExprArena, color: &Color) -> (id: Option<ArenaId>)
    ensures
        match id {
            Some(i) => i.index() == color_owner(colors_of(arena@), color.0@),
            None => color_owner(colors_of(arena@), color.0@) < 0,
        },
{
    let ghost colors = colors_of(arena@);
    proof {
        lemma_color_owner(colors, color.0@);
    }
    let mut i: usize = arena.size();
    while i > 0
        invariant
            i <= arena@.len(),
            colors == colors_of(arena@),
            -1 <= color_owner(colors, color.0@) < colors.len(),
            color_owner(colors, color.0@) >= 0 ==> colors[color_owner(colors, color.0@)] == Some(
                color.0@,
            ),
            forall|j: int|
                0 <= j < colors.len() && j > color_owner(colors, color.0@) ==> #[trigger] colors[j]
                    != Some(color.0@),
            forall|j: int| i <= j < colors.len() ==> #[trigger] colors[j] != Some(color.0@),
        decreases i,
    {
        i = i - 1;
        let node = arena.get(ArenaId::new(i));
        match node.color {
            Some(c) => {
                if bytes_equal(&c.0, &color.0) {
                    assert(colors[i as int] == Some(color.0@));
                    return Some(ArenaId::new(i));
                }
            },
            None => {},
        }
    }
    None
}

/// The empty path over a store of `n` thunks.
fn empty_path(n: usize) -> (p: Vec<bool>)
    ensures
        p@ == no_path(n as nat),
{
    let mut p: Vec<bool> = Vec::new();
    let mut i: usize = 0;
    while i < n
        invariant
            i <= n,
            p@ == no_path(i as nat),
        decreases n - i,
    {
        p.push(false);
        i = i + 1;
        assert(p@ =~= no_path(i as nat));
    }
    p
}

impl Value {
    /// The record of the value while the thunks `on_path` are being
    /// followed (see `value_record_along`).
    fn record_along(&self, arena: &ColoredExprArena, thunks: &ThunkStore, on_path: &mut Vec<bool>) -> (r: Option<
        ValueRecord,
    >)
        requires
            old(on_path)@.len() == thunks@.len(),
        ensures
            final(on_path)@ == old(on_path)@,
            record_option_view(r) == value_record_along(colors_of(arena@), thunks@, self@, old(on_path)@),
        decreases free_count(old(on_path)@), value_rank(self@) + 1, 0nat,
    {
        match self {
            Value::Lambda(l) => {
                let body = l.body();
                if body.idx() < arena.size() {
                    match arena.get(body).color {
                        Some(c) => match l.captures().record_along(arena, thunks, on_path) {
                            Some(caps) => Some(ValueRecord::Lambda(LambdaRecord { body: c, captures: caps })),
                            None => None,
                        },
                        None => None,
                    }
                } else {
                    None
                }
            },
            Value::Thunk(t) => {
                if t.0 < thunks.len() && !on_path[t.0] {
                    match thunks.state(*t) {
                        ThunkState::Forced(Ok(inner)) => {
                            let ghost before = on_path@;
                            proof {
                                lemma_free_count_mark(before, t.0 as int);
                            }
                            on_path.set(t.0, true);
                            let r = inner.record_along(arena, thunks, on_path);
                            on_path.set(t.0, false);
                            proof {
                                assert(on_path@ =~= before);
                            }
                            r
                        },
                        _ => None,
                    }
                } else {
                    None
                }
            },
            Value::Number(n) => Some(ValueRecord::Number(*n)),
            Value::Bool(b) => Some(ValueRecord::Bool(*b)),
        }
    }

    /// The record of the value (see `value_record`); values it closes over
    /// are recorded by their hashes.
    pub fn to_record(&self, arena: &ColoredExprArena, thunks: &ThunkStore) -> (r: Option<ValueRecord>)
        ensures
            record_option_view(r) == value_record(colors_of(arena@), thunks@, self@),
    {
        let mut on_path = empty_path(thunks.len());
        self.record_along(arena, thunks, &mut on_path)
    }
}

impl Callstack {
    /// The hashes of the records of the values on the callstack while the
    /// thunks `on_path` are being followed (see `capture_hashes_along`).
    fn record_along(&self, arena: &ColoredExprArena, thunks: &ThunkStore, on_path: &mut Vec<bool>) -> (r: Option<
        CallstackRecord,
    >)
        requires
            old(on_path)@.len() == thunks@.len(),
        ensures
            final(on_path)@ == old(on_path)@,
            match r {
                Some(rec) => capture_hashes_along(colors_of(arena@), thunks@, self@, old(on_path)@) == Some(
                    rec@,
                ),
                None => capture_hashes_along(colors_of(arena@), thunks@, self@, old(on_path)@) is None,
            },
        decreases free_count(old(on_path)@), 2nat, 0nat,
    {
        let ghost colors = colors_of(arena@);
        let ghost path0 = on_path@;
        let mut out: Vec<ValueHash> = Vec::new();
        let mut i: usize = 0;
        while i < self.len()
            invariant
                i <= self@.len(),
                colors == colors_of(arena@),
                on_path@ == path0,
                path0 == old(on_path)@,
                path0.len() == thunks@.len(),
                capture_hashes_along(colors, thunks@, self@.take(i as int), path0) == Some(hashes_view(out@)),
            decreases self@.len() - i,
        {
            let t = self.get(i);
            proof {
                assert(self@.take(i + 1).drop_last() =~= self@.take(i as int));
                assert(self@.take(i + 1).last() == t);
            }
            match Value::Thunk(t).record_along(arena, thunks, on_path) {
                Some(rec) => {
                    let h = ValueHash::from_record(&rec);
                    let ghost prev = out@;
                    out.push(h);
                    assert(hashes_view(out@) =~= hashes_view(prev).push(h.0@));
                },
                None => {
                    proof {
                        lemma_capture_hashes_prefix(colors, thunks@, self@, i as int + 1, path0);
                    }
                    return None;
                },
            }
            i = i + 1;
        }
        assert(self@.take(i as int) =~= self@);
        Some(CallstackRecord(out))
    }

    /// The hashes of the records of the values on the callstack (see
    /// `capture_hashes`).
    pub fn to_record(&self, arena: &ColoredExprArena, thunks: &ThunkStore) -> (r: Option<CallstackRecord>)
        ensures
            match r {
                Some(rec) => capture_hashes(colors_of(arena@), thunks@, self@) == Some(rec@),
                None => capture_hashes(colors_of(arena@), thunks@, self@) is None,
            },
    {
        let mut on_path = empty_path(thunks.len());
        self.record_along(arena, thunks, &mut on_path)
    }
}

/// The model of an optional hash.
pub open spec fn hash_option_view(h: Option<ValueHash>) -> Option<Seq<u8>> {
    match h {
        Some(h) => Some(h.0@),
        None => None,
    }
}

/// The hash of the record of an outcome: `None` for an error.
pub open spec fn result_record_hash(
    colors: Seq<Option<Seq<u8>>>,
    thunks: Seq<ThunkModel>,
    r: Result<ValueModel, EvalError>,
) -> Option<Seq<u8>> {
    match r {
        Ok(v) => match value_record(colors, thunks, v) {
            Some(rec) => Some(record_hash(rec)),
            None => None,
        },
        Err(_) => None,
    }
}

impl ValueHash {
    /// The hash of the record of `value`, without storing anything; `None`
    /// where `value` is an error or not recordable.
    pub fn new_pure(value: &EvalResult, arena: &ColoredExprArena, thunks: &ThunkStore) -> (h: Option<ValueHash>)
        ensures
            hash_option_view(h) == result_record_hash(
                colors_of(arena@),
                thunks@,
                crate::value::result_view(*value),
            ),
    {
        match value {
            Ok(v) => match v.to_record(arena, thunks) {
                Some(rec) => Some(ValueHash::from_record(&rec)),
                None => None,
            },
            Err(_) => None,
        }
    }
}

impl EvalHash {
    /// The hash of evaluating `expr` on `callstack` (see `evaluation_key`).
    pub fn new_pure(
        expr: &crate::coloring::ColoredExpr,
        callstack: &Callstack,
        arena: &ColoredExprArena,
        thunks: &ThunkStore,
    ) -> (h: Option<EvalHash>)
        ensures
            match h {
                Some(h) => evaluation_key(
                    colors_of(arena@),
                    thunks@,
                    crate::coloring::color_view(expr.color),
                    callstack@,
                ) == Some(h.0@),
                None => evaluation_key(
                    colors_of(arena@),
                    thunks@,
                    crate::coloring::color_view(expr.color),
                    callstack@,
                ) is None,
            },
    {
        match expr.color {
            Some(c) => match callstack.to_record(arena, thunks) {
                Some(rec) => Some(EvalHash::of_evaluation(&c, &rec)),
                None => None,
            },
            None => None,
        }
    }
}

/// Once a prefix of `caps` failed to store, storing `caps` stops there.
proof fn lemma_store_captures_prefix(
    colors: Seq<Option<Seq<u8>>>,
    thunks: Seq<ThunkModel>,
    c: CacheModel,
    caps: Seq<Thunk>,
    k: int,
    on_path: Seq<bool>,
)
    requires
        0 <= k <= caps.len(),
        store_captures_along(colors, thunks, c, caps.take(k), on_path).1 is None,
    ensures
        store_captures_along(colors, thunks, c, caps, on_path) == store_captures_along(
            colors,
            thunks,
            c,
            caps.take(k),
            on_path,
        ),
    decreases caps.len() - k,
{
    if k < caps.len() {
        assert(caps.take(k + 1).drop_last() =~= caps.take(k));
        lemma_store_captures_prefix(colors, thunks, c, caps, k + 1, on_path);
    } else {
        assert(caps.take(k) =~= caps);
    }
}

impl Cache {
    fn store_along(&mut self, arena: &ColoredExprArena, thunks: &ThunkStore, v: &Value, on_path: &mut Vec<bool>) -> (h:
        Option<ValueHash>)
        requires
            old(on_path)@.len() == thunks@.len(),
        ensures
            final(on_path)@ == old(on_path)@,
            (final(self)@, hash_option_view(h)) == store_value_along(
                colors_of(arena@),
                thunks@,
                old(self)@,
                v@,
                old(on_path)@,
            ),
        decreases free_count(old(on_path)@), value_rank(v@) + 1, 0nat,
    {
        match v {
            Value::Lambda(l) => {
                let body = l.body();
                if body.idx() < arena.size() {
                    match arena.get(body).color {
                        Some(c) => match self.store_captures_along(arena, thunks, l.captures(), on_path) {
                            Some(caps) => {
                                let record = ValueRecord::Lambda(LambdaRecord { body: c, captures: caps });
                                let h = ValueHash::from_record(&record);
                                self.insert_record(h, record);
                                Some(h)
                            },
                            None => None,
                        },
                        None => None,
                    }
                } else {
                    None
                }
            },
            Value::Thunk(t) => {
                if t.0 < thunks.len() && !on_path[t.0] {
                    match thunks.state(*t) {
                        ThunkState::Forced(Ok(inner)) => {
                            let ghost before = on_path@;
                            proof {
                                lemma_free_count_mark(before, t.0 as int);
                            }
                            on_path.set(t.0, true);
                            let h = self.store_along(arena, thunks, inner, on_path);
                            on_path.set(t.0, false);
                            proof {
                                assert(on_path@ =~= before);
                            }
                            h
                        },
                        _ => None,
                    }
                } else {
                    None
                }
            },
            Value::Number(n) => {
                let record = ValueRecord::Number(*n);
                let h = ValueHash::from_record(&record);
                self.insert_record(h, record);
                Some(h)
            },
            Value::Bool(b) => {
                let record = ValueRecord::Bool(*b);
                let h = ValueHash::from_record(&record);
                self.insert_record(h, record);
                Some(h)
            },
        }
    }

    fn store_captures_along(
        &mut self,
        arena: &ColoredExprArena,
        thunks: &ThunkStore,
        caps: &Callstack,
        on_path: &mut Vec<bool>,
    ) -> (r: Option<CallstackRecord>)
        requires
            old(on_path)@.len() == thunks@.len(),
        ensures
            final(on_path)@ == old(on_path)@,
            final(self)@ == store_captures_along(colors_of(arena@), thunks@, old(self)@, caps@, old(on_path)@).0,
            match r {
                Some(rec) => store_captures_along(colors_of(arena@), thunks@, old(self)@, caps@, old(on_path)@).1
                    == Some(rec@),
                None => store_captures_along(
                    colors_of(arena@),
                    thunks@,
                    old(self)@,
                    caps@,
                    old(on_path)@,
                ).1 is None,
            },
        decreases free_count(old(on_path)@), 2nat, 0nat,
    {
        let ghost colors = colors_of(arena@);
        let ghost c0 = self@;
        let ghost path0 = on_path@;
        let mut out: Vec<ValueHash> = Vec::new();
        let mut i: usize = 0;
        while i < caps.len()
            invariant
                i <= caps@.len(),
                colors == colors_of(arena@),
                c0 == old(self)@,
                on_path@ == path0,
                path0 == old(on_path)@,
                path0.len() == thunks@.len(),
                (self@, Some(hashes_view(out@))) == store_captures_along(
                    colors,
                    thunks@,
                    c0,
                    caps@.take(i as int),
                    path0,
                ),
            decreases caps@.len() - i,
        {
            let t = caps.get(i);
            proof {
                assert(caps@.take(i + 1).drop_last() =~= caps@.take(i as int));
                assert(caps@.take(i + 1).last() == t);
            }
            let ghost before = self@;
            match self.store_along(arena, thunks, &Value::Thunk(t), on_path) {
                Some(h) => {
                    let ghost prev = out@;
                    out.push(h);
                    assert(hashes_view(out@) =~= hashes_view(prev).push(h.0@));
                },
                None => {
                    proof {
                        let sc = store_captures_along(colors, thunks@, c0, caps@.take(i + 1), path0);
                        assert(store_value_along(colors, thunks@, before, ValueModel::Thunk(t), path0).1 is None);
                        assert(sc.0 == self@);
                        assert(sc.1 is None);
                        lemma_store_captures_prefix(colors, thunks@, c0, caps@, i as int + 1, path0);
                    }
                    return None;
                },
            }
            i = i + 1;
        }
        assert(caps@.take(i as int) =~= caps@);
        Some(CallstackRecord(out))
    }

    /// Stores the record of `value` and of every value it closes over, and
    /// returns its hash (see `store_value`); `None` for an error or a value
    /// that is not recordable.
    pub fn store_value(&mut self, arena: &ColoredExprArena, thunks: &ThunkStore, value: &EvalResult) -> (h: Option<
        ValueHash,
    >)
        ensures
            match value {
                Ok(v) => (final(self)@, hash_option_view(h)) == store_value(
                    colors_of(arena@),
                    thunks@,
                    old(self)@,
                    v@,
                ),
                Err(_) => final(self)@ == old(self)@ && h is None,
            },
    {
        match value {
            Ok(v) => {
                let mut on_path = empty_path(thunks.len());
                self.store_along(arena, thunks, v, &mut on_path)
            },
            Err(_) => None,
        }
    }

    /// Memoizes `result` under `key` (see `store_result`).
    pub fn store_result(&mut self, arena: &ColoredExprArena, thunks: &ThunkStore, key: EvalHash, result: &EvalResult)
        ensures
            final(self)@ == store_result(
                colors_of(arena@),
                thunks@,
                old(self)@,
                key.0@,
                crate::value::result_view(*result),
            ),
    {
        match self.store_value(arena, thunks, result) {
            Some(h) => self.set_eval(key, h),
            None => {},
        }
    }

    /// Rebuilds the value stored under `hash` (see `get_value`).
    pub fn get_value(&self, arena: &ColoredExprArena, thunks: &mut ThunkStore, hash: &ValueHash) -> (v: Value)
        requires
            cache_wf(self@, colors_of(arena@)),
            key_position(self@.values, hash.0@) >= 0,
        ensures
            (final(thunks)@, v@) == get_value(colors_of(arena@), self@, old(thunks)@, hash.0@),
            final(thunks)@.len() >= old(thunks)@.len(),
        decreases key_position(self@.values, hash.0@) + 1, 0nat, 0nat,
    {
        match self.find_value(hash) {
            Some(p) => Value::from_record(self.record_at(p), self, arena, thunks, p),
            None => {
                proof {
                    assert(false);
                }
                Value::Bool(false)
            },
        }
    }

    /// The memoized outcome of the evaluation `key` (see `get_result`).
    pub fn get_result(&self, arena: &ColoredExprArena, thunks: &mut ThunkStore, key: &EvalHash) -> (v: Option<Value>)
        requires
            cache_wf(self@, colors_of(arena@)),
        ensures
            final(thunks)@ == get_result(colors_of(arena@), self@, old(thunks)@, key.0@).0,
            final(thunks)@.len() >= old(thunks)@.len(),
            match v {
                Some(v) => get_result(colors_of(arena@), self@, old(thunks)@, key.0@).1 == Some(v@),
                None => get_result(colors_of(arena@), self@, old(thunks)@, key.0@).1 is None,
            },
    {
        match self.lookup_eval(key) {
            Some(h) => {
                proof {
                    crate::cache::lemma_key_position(self@.evals, key.0@);
                }
                Some(self.get_value(arena, thunks, &h))
            },
            None => None,
        }
    }
}

impl Value {
    /// Rebuilds the value of `record` (see `value_from_record`); a number
    /// or a boolean is rebuilt as itself, a lambda from the records of its
    /// captures in `cache`, where it is stored at position `p`.
    pub fn from_record(
        record: &ValueRecord,
        cache: &Cache,
        arena: &ColoredExprArena,
        thunks: &mut ThunkStore,
        p: usize,
    ) -> (v: Value)
        requires
            cache_wf(cache@, colors_of(arena@)),
            record@ is Lambda ==> p < cache@.values.len() && record@ == cache@.values[p as int].1,
        ensures
            (final(thunks)@, v@) == value_from_record(colors_of(arena@), cache@, old(thunks)@, record@, p as int),
            final(thunks)@.len() >= old(thunks)@.len(),
        decreases p, 1nat, 0nat,
    {
        match record {
            ValueRecord::Number(n) => Value::Number(*n),
            ValueRecord::Bool(b) => Value::Bool(*b),
            ValueRecord::Lambda(l) => {
                assert(record_refs_before(cache@, colors_of(arena@), record@, p as int));
                let body = match color_owner_in(arena, &l.body) {
                    Some(id) => id,
                    None => {
                        proof {
                            assert(false);
                        }
                        ArenaId::new(0)
                    },
                };
                let captures = Callstack::from_record(&l.captures, cache, arena, thunks, p);
                Value::Lambda(Lambda::new(body, captures))
            },
        }
    }
}

impl Callstack {
    /// Rebuilds the values recorded in `record`, each as a new forced thunk
    /// (see `get_captures`); they are stored before position `bound`.
    pub fn from_record(
        record: &CallstackRecord,
        cache: &Cache,
        arena: &ColoredExprArena,
        thunks: &mut ThunkStore,
        bound: usize,
    ) -> (c: Callstack)
        requires
            cache_wf(cache@, colors_of(arena@)),
            forall|j: int| 0 <= j < record@.len() ==> 0 <= key_position(cache@.values, #[trigger] record@[j]) < bound,
        ensures
            (final(thunks)@, c@) == get_captures(colors_of(arena@), cache@, old(thunks)@, record@, bound as int),
            final(thunks)@.len() >= old(thunks)@.len(),
        decreases bound, 0nat, record@.len(),
    {
        let ghost colors = colors_of(arena@);
        let ghost t0 = thunks@;
        let mut out: Vec<Thunk> = Vec::new();
        let mut i: usize = 0;
        while i < record.0.len()
            invariant
                i <= record@.len(),
                record@.len() == record.0@.len(),
                colors == colors_of(arena@),
                cache_wf(cache@, colors),
                forall|j: int| 0 <= j < record@.len() ==> 0 <= key_position(cache@.values, #[trigger] record@[j]) < bound,
                (thunks@, out@) == get_captures(colors, cache@, t0, record@.take(i as int), bound as int),
                thunks@.len() >= t0.len(),
                t0 == old(thunks)@,
            decreases record@.len() - i,
        {
            let h = record.0[i];
            proof {
                assert(record@.take(i + 1).drop_last() =~= record@.take(i as int));
                assert(record@.take(i + 1).last() == h.0@);
                assert(record@[i as int] == h.0@);
            }
            let v = cache.get_value(arena, thunks, &h);
            let t = Thunk::new_forced(thunks, Ok(v));
            out.push(t);
            i = i + 1;
        }
        assert(record@.take(i as int) =~= record@);
        Callstack::from_thunks(out)
    }
}

proof fn lemma_refs_at(c: CacheModel, colors: Seq<Option<Seq<u8>>>, r: RecordModel, p: int, i: int)
    requires
        record_refs_before(c, colors, r, p),
        r is Lambda,
        0 <= i < r->Lambda_1.len(),
    ensures
        0 <= key_position(c.values, r->Lambda_1[i]) < p,
{
    if let RecordModel::Lambda(color, caps) = r {
        assert(caps[i] == r->Lambda_1[i]);
        assert(0 <= key_position(c.values, caps[i]) < p);
    }
}

/// Whether `record`, stored at position `p` of `cache`, refers only to
/// records stored before it and to a color of `arena`.
fn record_refs_ok(cache: &Cache, arena: &ColoredExprArena, record: &ValueRecord, p: usize) -> (b: bool)
    ensures
        b == record_refs_before(cache@, colors_of(arena@), record@, p as int),
{
    match record {
        ValueRecord::Lambda(l) => {
            if color_owner_in(arena, &l.body).is_none() {
                return false;
            }
            let caps = &l.captures.0;
            let ghost hs = l.captures@;
            let mut j: usize = 0;
            while j < caps.len()
                invariant
                    j <= caps@.len(),
                    hs == hashes_view(caps@),
                    record@ == RecordModel::Lambda(l.body.0@, hs),
                    forall|i: int| 0 <= i < j ==> 0 <= key_position(cache@.values, #[trigger] hs[i]) < p,
                decreases caps@.len() - j,
            {
                assert(hs[j as int] == caps@[j as int].0@);
                match cache.find_value(&caps[j]) {
                    Some(q) => {
                        if q >= p {
                            proof {
                                if record_refs_before(cache@, colors_of(arena@), record@, p as int) {
                                    lemma_refs_at(cache@, colors_of(arena@), record@, p as int, j as int);
                                }
                            }
                            return false;
                        }
                    },
                    None => {
                        proof {
                            if record_refs_before(cache@, colors_of(arena@), record@, p as int) {
                                lemma_refs_at(cache@, colors_of(arena@), record@, p as int, j as int);
                            }
                        }
                        return false;
                    },
                }
                j = j + 1;
            }
            true
        },
        _ => true,
    }
}

/// The cache holding the records `values` and the memoized results
/// `evals`, if they form a well-formed cache for `arena` (see `cache_wf`);
/// `None` if they do not.
pub fn validated_cache(
    values: Vec<(ValueHash, ValueRecord)>,
    evals: Vec<(EvalHash, ValueHash)>,
    arena: &ColoredExprArena,
) -> (c: Option<Cache>)
    ensures
        match c {
            Some(c) => c@ == entries_model(values@, evals@) && cache_wf(c@, colors_of(arena@)),
            None => !cache_wf(entries_model(values@, evals@), colors_of(arena@)),
        },
{
    let ghost model = entries_model(values@, evals@);
    let cache = Cache::from_parts(values, evals);
    let ghost m = cache@;
    let ghost colors = colors_of(arena@);
    let n = cache.value_count();
    let mut p: usize = 0;
    while p < n
        invariant
            m == cache@,
            m == model,
            model == entries_model(values@, evals@),
            n == m.values.len(),
            p <= n,
            colors == colors_of(arena@),
            forall|q: int| 0 <= q < p ==> (#[trigger] m.values[q]).0 == record_hash(m.values[q].1),
            forall|q: int| 0 <= q < p ==> key_position(m.values, (#[trigger] m.values[q]).0) == q,
            forall|q: int| 0 <= q < p ==> record_refs_before(m, colors, #[trigger] m.values[q].1, q),
        decreases n - p,
    {
        let h = cache.key_at(p);
        let record = cache.record_at(p);
        let computed = ValueHash::from_record(record);
        if !bytes_equal(&computed.0, &h.0) {
            proof {
                assert(!((m.values[p as int]).0 == record_hash(m.values[p as int].1)));
            }
            return None;
        }
        proof {
            lemma_key_position(m.values, h.0@);
        }
        match cache.find_value(&h) {
            Some(q) => {
                if q != p {
                    proof {
                        assert(key_position(m.values, (m.values[p as int]).0) != p);
                    }
                    return None;
                }
            },
            None => {
                proof {
                    assert(m.values[p as int].0 == h.0@);
                }
                return None;
            },
        }
        if !record_refs_ok(&cache, arena, record, p) {
            proof {
                assert(!record_refs_before(m, colors, m.values[p as int].1, p as int));
            }
            return None;
        }
        p = p + 1;
    }
    let k = cache.eval_count();
    let mut q: usize = 0;
    while q < k
        invariant
            m == cache@,
            m == model,
            model == entries_model(values@, evals@),
            n == m.values.len(),
            k == m.evals.len(),
            q <= k,
            colors == colors_of(arena@),
            forall|i: int| 0 <= i < n ==> (#[trigger] m.values[i]).0 == record_hash(m.values[i].1),
            forall|i: int| 0 <= i < n ==> key_position(m.values, (#[trigger] m.values[i]).0) == i,
            forall|i: int| 0 <= i < n ==> record_refs_before(m, colors, #[trigger] m.values[i].1, i),
            forall|i: int| 0 <= i < q ==> key_position(m.values, (#[trigger] m.evals[i]).1) >= 0,
            forall|i: int| 0 <= i < q ==> key_position(m.evals, (#[trigger] m.evals[i]).0) == i,
        decreases k - q,
    {
        let (eh, vh) = cache.eval_at(q);
        proof {
            lemma_key_position(m.evals, eh.0@);
        }
        match cache.find_eval(&eh) {
            Some(i) => {
                if i != q {
                    proof {
                        assert(key_position(m.evals, (m.evals[q as int]).0) != q);
                    }
                    return None;
                }
            },
            None => {
                proof {
                    assert(m.evals[q as int].0 == eh.0@);
                }
                return None;
            },
        }
        match cache.find_value(&vh) {
            Some(_) => {},
            None => {
                proof {
                    assert(!(key_position(m.values, (m.evals[q as int]).1) >= 0));
                }
                return None;
            },
        }
        q = q + 1;
    }
    Some(cache)
}

} // verus!
