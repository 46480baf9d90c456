//! Laws of memoization: a forced thunk records as its value, and a value
//! rebuilt from the cache records as the record it was rebuilt from.
use vstd::prelude::*;

use crate::arena::ArenaId;
use crate::cache::{CacheModel, key_position, lemma_key_position};
use crate::memo::{
    capture_hashes, evaluation_key, cache_wf, get_result, lemma_store_then_lookup, store_result, capture_hashes_along, free_count, get_captures, get_value, lemma_color_owner, lemma_free_count_mark,
    no_path, record_refs_before, value_from_record, value_rank, value_record, value_record_along,
};
use crate::record::{RecordModel, evaluation_hash, record_hash};
use crate::value::{Thunk, ThunkModel, ValueModel};

verus! {

/// `t` holds the cells of `prefix` at the same positions.
pub open spec fn extends_store(t: Seq<ThunkModel>, prefix: Seq<ThunkModel>) -> bool {
    &&& prefix.len() <= t.len()
    &&& t.take(prefix.len() as int) == prefix
}

proof fn lemma_extends_store_trans(c: Seq<ThunkModel>, b: Seq<ThunkModel>, a: Seq<ThunkModel>)
    requires
        extends_store(c, b),
        extends_store(b, a),
    ensures
        extends_store(c, a),
{
    assert(c.take(a.len() as int) =~= b.take(a.len() as int));
}

/// Rebuilding values only appends thunk cells.
pub proof fn lemma_get_value_appends(
    colors: Seq<Option<Seq<u8>>>,
    c: CacheModel,
    thunks: Seq<ThunkModel>,
    h: Seq<u8>,
)
    ensures
        extends_store(get_value(colors, c, thunks, h).0, thunks),
    decreases key_position(c.values, h) + 1, 0nat, 0nat,
{
    let p = key_position(c.values, h);
    assert(thunks.take(thunks.len() as int) =~= thunks);
    if 0 <= p < c.values.len() {
        lemma_value_from_record_appends(colors, c, thunks, c.values[p].1, p);
    }
}

proof fn lemma_value_from_record_appends(
    colors: Seq<Option<Seq<u8>>>,
    c: CacheModel,
    thunks: Seq<ThunkModel>,
    r: RecordModel,
    p: int,
)
    ensures
        extends_store(value_from_record(colors, c, thunks, r, p).0, thunks),
    decreases p, 1nat, 0nat,
{
    assert(thunks.take(thunks.len() as int) =~= thunks);
    if let RecordModel::Lambda(color, caps) = r {
        if p >= 0 {
            lemma_get_captures_appends(colors, c, thunks, caps, p);
        }
    }
}

proof fn lemma_get_captures_appends(
    colors: Seq<Option<Seq<u8>>>,
    c: CacheModel,
    thunks: Seq<ThunkModel>,
    caps: Seq<Seq<u8>>,
    bound: int,
)
    ensures
        extends_store(get_captures(colors, c, thunks, caps, bound).0, thunks),
        get_captures(colors, c, thunks, caps, bound).1.len() <= caps.len(),
    decreases bound, 0nat, caps.len(),
{
    assert(thunks.take(thunks.len() as int) =~= thunks);
    if caps.len() > 0 && bound >= 0 {
        lemma_get_captures_appends(colors, c, thunks, caps.drop_last(), bound);
        let (t1, ts) = get_captures(colors, c, thunks, caps.drop_last(), bound);
        if key_position(c.values, caps.last()) < bound {
            lemma_get_value_appends(colors, c, t1, caps.last());
            let (t2, v) = get_value(colors, c, t1, caps.last());
            let t3 = t2.push(ThunkModel::Forced(Ok(v)));
            assert(t3.take(t2.len() as int) =~= t2);
            lemma_extends_store_trans(t2, t1, thunks);
            lemma_extends_store_trans(t3, t2, thunks);
        }
    }
}

/// What a rebuilt value records as: a value rebuilt from the record stored
/// under `h` (see `get_value`) records as that record, in the thunk store
/// the rebuilding leaves or any store that extends it.
pub proof fn lemma_get_value_roundtrip(
    colors: Seq<Option<Seq<u8>>>,
    c: CacheModel,
    thunks: Seq<ThunkModel>,
    h: Seq<u8>,
    t: Seq<ThunkModel>,
)
    requires
        cache_wf(c, colors),
        colors.len() <= usize::MAX,
        t.len() <= usize::MAX,
        key_position(c.values, h) >= 0,
        extends_store(t, get_value(colors, c, thunks, h).0),
    ensures
        value_record(colors, t, get_value(colors, c, thunks, h).1) == Some(
            c.values[key_position(c.values, h)].1,
        ),
{
    lemma_get_value_roundtrip_along(colors, c, thunks, h, t, no_path(t.len()));
}

/// `lemma_get_value_roundtrip` while the thunks `on_path` are being
/// followed: only thunks added after the rebuilt value's own are on it.
proof fn lemma_get_value_roundtrip_along(
    colors: Seq<Option<Seq<u8>>>,
    c: CacheModel,
    thunks: Seq<ThunkModel>,
    h: Seq<u8>,
    t: Seq<ThunkModel>,
    on_path: Seq<bool>,
)
    requires
        cache_wf(c, colors),
        colors.len() <= usize::MAX,
        t.len() <= usize::MAX,
        key_position(c.values, h) >= 0,
        extends_store(t, get_value(colors, c, thunks, h).0),
        on_path.len() == t.len(),
        forall|i: int| 0 <= i < on_path.len() && #[trigger] on_path[i] ==> i >= get_value(colors, c, thunks, h).0.len(),
    ensures
        value_record_along(colors, t, get_value(colors, c, thunks, h).1, on_path) == Some(
            c.values[key_position(c.values, h)].1,
        ),
    decreases key_position(c.values, h) + 1, 0nat, 0nat,
{
    let p = key_position(c.values, h);
    lemma_key_position(c.values, h);
    lemma_value_from_record_roundtrip(colors, c, thunks, c.values[p].1, p, t, on_path);
}

proof fn lemma_value_from_record_roundtrip(
    colors: Seq<Option<Seq<u8>>>,
    c: CacheModel,
    thunks: Seq<ThunkModel>,
    r: RecordModel,
    p: int,
    t: Seq<ThunkModel>,
    on_path: Seq<bool>,
)
    requires
        cache_wf(c, colors),
        colors.len() <= usize::MAX,
        t.len() <= usize::MAX,
        0 <= p < c.values.len(),
        r == c.values[p].1,
        extends_store(t, value_from_record(colors, c, thunks, r, p).0),
        on_path.len() == t.len(),
        forall|i: int|
            0 <= i < on_path.len() && #[trigger] on_path[i] ==> i >= value_from_record(colors, c, thunks, r, p).0.len(),
    ensures
        value_record_along(colors, t, value_from_record(colors, c, thunks, r, p).1, on_path) == Some(r),
    decreases p, 1nat, 0nat,
{
    if let RecordModel::Lambda(color, caps) = r {
        assert(record_refs_before(c, colors, c.values[p].1, p));
        assert(color_owner_ok(c, colors, r, p));
        lemma_color_owner(colors, color);
        let owner = crate::memo::color_owner(colors, color);
        assert(owner >= 0);
        let (t1, ts) = get_captures(colors, c, thunks, caps, p);
        lemma_get_captures_roundtrip(colors, c, thunks, caps, p, t, on_path);
        assert(ArenaId(owner as usize).index() == owner);
        assert(colors[owner] == Some(color));
    }
}

/// The color of a lambda record has an owner and its captures are stored
/// before it.
spec fn color_owner_ok(c: CacheModel, colors: Seq<Option<Seq<u8>>>, r: RecordModel, p: int) -> bool {
    match r {
        RecordModel::Lambda(color, caps) => {
            &&& crate::memo::color_owner(colors, color) >= 0
            &&& forall|j: int| 0 <= j < caps.len() ==> 0 <= key_position(c.values, #[trigger] caps[j]) < p
        },
        _ => true,
    }
}

proof fn lemma_get_captures_roundtrip(
    colors: Seq<Option<Seq<u8>>>,
    c: CacheModel,
    thunks: Seq<ThunkModel>,
    caps: Seq<Seq<u8>>,
    bound: int,
    t: Seq<ThunkModel>,
    on_path: Seq<bool>,
)
    requires
        cache_wf(c, colors),
        colors.len() <= usize::MAX,
        t.len() <= usize::MAX,
        0 <= bound <= c.values.len(),
        forall|j: int| 0 <= j < caps.len() ==> 0 <= key_position(c.values, #[trigger] caps[j]) < bound,
        extends_store(t, get_captures(colors, c, thunks, caps, bound).0),
        on_path.len() == t.len(),
        forall|i: int|
            0 <= i < on_path.len() && #[trigger] on_path[i] ==> i >= get_captures(colors, c, thunks, caps, bound).0.len(),
    ensures
        capture_hashes_along(colors, t, get_captures(colors, c, thunks, caps, bound).1, on_path) == Some(caps),
    decreases bound, 0nat, caps.len(),
{
    if caps.len() == 0 {
        assert(caps =~= Seq::<Seq<u8>>::empty());
    } else {
        let prefix = caps.drop_last();
        let (t1, ts) = get_captures(colors, c, thunks, prefix, bound);
        let h = caps.last();
        assert(0 <= key_position(c.values, caps[caps.len() - 1]) < bound);
        let (t2, v) = get_value(colors, c, t1, h);
        let t3 = t2.push(ThunkModel::Forced(Ok(v)));
        let th = Thunk(t2.len() as usize);
        lemma_get_value_appends(colors, c, t1, h);
        assert(t3.take(t2.len() as int) =~= t2);
        lemma_extends_store_trans(t, t3, t2);
        lemma_extends_store_trans(t, t2, t1);
        assert forall|j: int| 0 <= j < prefix.len() implies 0 <= key_position(
            c.values,
            #[trigger] prefix[j],
        ) < bound by {
            assert(prefix[j] == caps[j]);
        }
        lemma_get_captures_roundtrip(colors, c, thunks, prefix, bound, t, on_path);
        // the new thunk holds the rebuilt value
        assert(t.take(t3.len() as int)[t2.len() as int] == t[t2.len() as int]);
        assert(t[t2.len() as int] == ThunkModel::Forced(Ok::<ValueModel, crate::value::EvalError>(v)));
        let q = key_position(c.values, h);
        lemma_key_position(c.values, h);
        assert(!on_path[th.0 as int]);
        let path2 = on_path.update(th.0 as int, true);
        assert forall|i: int| 0 <= i < path2.len() && #[trigger] path2[i] implies i >= t2.len() by {
            if i != th.0 as int {
                assert(on_path[i]);
            }
        }
        lemma_get_value_roundtrip_along(colors, c, t1, h, t, path2);
        assert(th.0 == t2.len());
        assert(value_record_along(colors, t, ValueModel::Thunk(th), on_path) == value_record_along(
            colors,
            t,
            v,
            path2,
        ));
        assert(c.values[q].0 == h);
        assert(c.values[q].0 == record_hash(c.values[q].1));
        assert(ts.push(th) == get_captures(colors, c, thunks, caps, bound).1);
        assert(caps =~= prefix.push(h));
        assert(ts.push(th).drop_last() =~= ts);
    }
}

/// Every thunk on path `p` is on path `q` too.
pub open spec fn path_within(p: Seq<bool>, q: Seq<bool>) -> bool {
    &&& p.len() == q.len()
    &&& forall|i: int| 0 <= i < p.len() && #[trigger] p[i] ==> q[i]
}

/// A value recordable while more thunks are on the path records the same
/// while fewer are.
proof fn lemma_record_path_within(
    colors: Seq<Option<Seq<u8>>>,
    thunks: Seq<ThunkModel>,
    x: ValueModel,
    p: Seq<bool>,
    q: Seq<bool>,
)
    requires
        path_within(p, q),
        value_record_along(colors, thunks, x, q) is Some,
    ensures
        value_record_along(colors, thunks, x, p) == value_record_along(colors, thunks, x, q),
    decreases free_count(q), value_rank(x), 0nat,
{
    match x {
        ValueModel::Lambda(_, caps) => {
            lemma_captures_path_within(colors, thunks, caps, p, q);
        },
        ValueModel::Thunk(s) => {
            let i = s.0 as int;
            if let ThunkModel::Forced(Ok(w)) = thunks[i] {
                lemma_free_count_mark(q, i);
                assert(path_within(p.update(i, true), q.update(i, true)));
                lemma_record_path_within(colors, thunks, w, p.update(i, true), q.update(i, true));
            }
        },
        _ => {},
    }
}

proof fn lemma_captures_path_within(
    colors: Seq<Option<Seq<u8>>>,
    thunks: Seq<ThunkModel>,
    caps: Seq<Thunk>,
    p: Seq<bool>,
    q: Seq<bool>,
)
    requires
        path_within(p, q),
        capture_hashes_along(colors, thunks, caps, q) is Some,
    ensures
        capture_hashes_along(colors, thunks, caps, p) == capture_hashes_along(colors, thunks, caps, q),
    decreases free_count(q), 1nat, caps.len(),
{
    if caps.len() > 0 {
        lemma_captures_path_within(colors, thunks, caps.drop_last(), p, q);
        lemma_record_path_within(colors, thunks, ValueModel::Thunk(caps.last()), p, q);
    }
}

/// Where putting thunk `t` (forced to `v`) on the path makes `x`
/// unrecordable though it was recordable, recording `x` reaches `t`: on some
/// path through it, `v` records with `t` on the path.
proof fn lemma_record_reaches(
    colors: Seq<Option<Seq<u8>>>,
    thunks: Seq<ThunkModel>,
    x: ValueModel,
    p: Seq<bool>,
    t: int,
    v: ValueModel,
)
    requires
        0 <= t < thunks.len(),
        t < p.len(),
        !p[t],
        thunks[t] == ThunkModel::Forced(Ok::<ValueModel, crate::value::EvalError>(v)),
        value_record_along(colors, thunks, x, p) is Some,
        value_record_along(colors, thunks, x, p.update(t, true)) is None,
    ensures
        exists|q: Seq<bool>|
            #[trigger] path_within(p, q) && !q[t] && value_record_along(colors, thunks, v, q.update(t, true)) is Some,
    decreases free_count(p), value_rank(x), 0nat,
{
    match x {
        ValueModel::Lambda(_, caps) => {
            lemma_captures_reach(colors, thunks, caps, p, t, v);
        },
        ValueModel::Thunk(s) => {
            let i = s.0 as int;
            if i == t {
                assert(path_within(p, p));
            } else {
                if let ThunkModel::Forced(Ok(w)) = thunks[i] {
                    lemma_free_count_mark(p, i);
                    let ps = p.update(i, true);
                    assert(p.update(t, true).update(i, true) =~= ps.update(t, true));
                    lemma_record_reaches(colors, thunks, w, ps, t, v);
                    let q = choose|q: Seq<bool>|
                        #[trigger] path_within(ps, q) && !q[t] && value_record_along(
                            colors,
                            thunks,
                            v,
                            q.update(t, true),
                        ) is Some;
                    assert forall|k: int| 0 <= k < p.len() && #[trigger] p[k] implies q[k] by {
                        assert(ps[k]);
                    }
                    assert(path_within(p, q));
                }
            }
        },
        _ => {},
    }
}

proof fn lemma_captures_reach(
    colors: Seq<Option<Seq<u8>>>,
    thunks: Seq<ThunkModel>,
    caps: Seq<Thunk>,
    p: Seq<bool>,
    t: int,
    v: ValueModel,
)
    requires
        0 <= t < thunks.len(),
        t < p.len(),
        !p[t],
        thunks[t] == ThunkModel::Forced(Ok::<ValueModel, crate::value::EvalError>(v)),
        capture_hashes_along(colors, thunks, caps, p) is Some,
        capture_hashes_along(colors, thunks, caps, p.update(t, true)) is None,
    ensures
        exists|q: Seq<bool>|
            #[trigger] path_within(p, q) && !q[t] && value_record_along(colors, thunks, v, q.update(t, true)) is Some,
    decreases free_count(p), 1nat, caps.len(),
{
    if caps.len() > 0 {
        if capture_hashes_along(colors, thunks, caps.drop_last(), p.update(t, true)) is None {
            lemma_captures_reach(colors, thunks, caps.drop_last(), p, t, v);
        } else {
            lemma_record_reaches(colors, thunks, ValueModel::Thunk(caps.last()), p, t, v);
        }
    }
}

/// A forced thunk records as the value it was forced to: recording follows
/// evaluated thunks transparently.
pub proof fn lemma_forced_thunk_records_as_value(
    colors: Seq<Option<Seq<u8>>>,
    thunks: Seq<ThunkModel>,
    t: Thunk,
    v: ValueModel,
)
    requires
        t.0 < thunks.len(),
        thunks[t.0 as int] == ThunkModel::Forced(Ok::<ValueModel, crate::value::EvalError>(v)),
    ensures
        value_record(colors, thunks, ValueModel::Thunk(t)) == value_record(colors, thunks, v),
{
    let p0 = no_path(thunks.len());
    let i = t.0 as int;
    let pt = p0.update(i, true);
    if value_record_along(colors, thunks, v, pt) is Some {
        assert(path_within(p0, pt));
        lemma_record_path_within(colors, thunks, v, p0, pt);
    } else if value_record_along(colors, thunks, v, p0) is Some {
        lemma_record_reaches(colors, thunks, v, p0, i, v);
        let q = choose|q: Seq<bool>|
            #[trigger] path_within(p0, q) && !q[i] && value_record_along(colors, thunks, v, q.update(i, true)) is Some;
        assert(path_within(pt, q.update(i, true)));
        lemma_record_path_within(colors, thunks, v, pt, q.update(i, true));
        assert(false);
    }
}

/// What is stored, the cache gives back: after the recordable outcome
/// `Ok(v)` of the evaluation `key` is memoized, the memoized result of `key`
/// is rebuilt (in any thunk store `t`) into a value whose record is the
/// record stored for it, which has the hash of `v`'s record. Where the cache
/// holds no other record under that hash, the rebuilt value records exactly
/// as `v` does.
pub proof fn lemma_store_then_get(
    colors: Seq<Option<Seq<u8>>>,
    thunks: Seq<ThunkModel>,
    c: CacheModel,
    key: Seq<u8>,
    v: ValueModel,
    t: Seq<ThunkModel>,
)
    requires
        cache_wf(c, colors),
        colors.len() <= usize::MAX,
        value_record(colors, thunks, v) is Some,
    ensures
        ({
            let c2 = store_result(colors, thunks, c, key, Ok(v));
            let (t2, w) = get_result(colors, c2, t, key);
            &&& cache_wf(c2, colors)
            &&& w is Some
            &&& (t2.len() <= usize::MAX ==> value_record(colors, t2, w->Some_0) is Some && record_hash(
                value_record(colors, t2, w->Some_0)->Some_0,
            ) == record_hash(value_record(colors, thunks, v)->Some_0))
            &&& (t2.len() <= usize::MAX && (forall|i: int|
                0 <= i < c2.values.len() && #[trigger] c2.values[i].0 == record_hash(
                    value_record(colors, thunks, v)->Some_0,
                ) ==> c2.values[i].1 == value_record(colors, thunks, v)->Some_0) ==> value_record(
                colors,
                t2,
                w->Some_0,
            ) == value_record(colors, thunks, v))
        }),
{
    lemma_store_then_lookup(colors, thunks, c, key, v);
    let c2 = store_result(colors, thunks, c, key, Ok(v));
    let h = record_hash(value_record(colors, thunks, v)->Some_0);
    let (t2, w) = get_result(colors, c2, t, key);
    lemma_key_position(c2.values, h);
    let p = key_position(c2.values, h);
    if t2.len() <= usize::MAX {
        assert(t2.take(t2.len() as int) =~= t2);
        lemma_get_value_roundtrip(colors, c2, t, h, t2);
        assert(c2.values[p].0 == record_hash(c2.values[p].1));
    }
}

/// A number or a boolean records as itself, and its record is rebuilt into
/// the value, with no thunk added.
pub proof fn lemma_plain_record_roundtrip(
    colors: Seq<Option<Seq<u8>>>,
    c: CacheModel,
    thunks: Seq<ThunkModel>,
    t: Seq<ThunkModel>,
    v: ValueModel,
    p: int,
)
    requires
        v is Number || v is Bool,
    ensures
        value_record(colors, thunks, v) is Some,
        value_from_record(colors, c, t, value_record(colors, thunks, v)->Some_0, p) == (t, v),
{
}

/// The hashes of a list of thunks are the record hashes of each of their
/// values, in order; there are none where one value is not recordable.
pub proof fn lemma_capture_hashes_each(
    colors: Seq<Option<Seq<u8>>>,
    thunks: Seq<ThunkModel>,
    caps: Seq<Thunk>,
    p: Seq<bool>,
)
    ensures
        capture_hashes_along(colors, thunks, caps, p) is Some <==> forall|i: int|
            0 <= i < caps.len() ==> #[trigger] value_record_along(colors, thunks, ValueModel::Thunk(caps[i]), p) is Some,
        capture_hashes_along(colors, thunks, caps, p) matches Some(hs) ==> hs.len() == caps.len() && forall|i: int|
            0 <= i < caps.len() ==> #[trigger] hs[i] == record_hash(
                value_record_along(colors, thunks, ValueModel::Thunk(caps[i]), p)->Some_0,
            ),
    decreases caps.len(),
{
    if caps.len() > 0 {
        let prev = caps.drop_last();
        lemma_capture_hashes_each(colors, thunks, prev, p);
        assert forall|i: int| 0 <= i < prev.len() implies prev[i] == caps[i] by {}
        if !(value_record_along(colors, thunks, ValueModel::Thunk(caps.last()), p) is Some) {
            assert(!(value_record_along(colors, thunks, ValueModel::Thunk(caps[caps.len() - 1]), p) is Some));
        }
        if capture_hashes_along(colors, thunks, prev, p) is None {
            let j = choose|j: int|
                0 <= j < prev.len() && !(#[trigger] value_record_along(colors, thunks, ValueModel::Thunk(prev[j]), p) is Some);
            assert(prev[j] == caps[j]);
        }
    }
}

/// The key of an evaluation covers its color and every value on its
/// callstack: it is the evaluation hash of the color and of the record
/// hashes of all the callstack's values, in order, and there is a key
/// exactly where the expression is colored and every value on the
/// callstack is recordable.
pub proof fn lemma_evaluation_key_covers_callstack(
    colors: Seq<Option<Seq<u8>>>,
    thunks: Seq<ThunkModel>,
    color: Option<Seq<u8>>,
    cs: Seq<Thunk>,
)
    ensures
        evaluation_key(colors, thunks, color, cs) is Some <==> (color is Some && forall|i: int|
            0 <= i < cs.len() ==> #[trigger] value_record(colors, thunks, ValueModel::Thunk(cs[i])) is Some),
        evaluation_key(colors, thunks, color, cs) is Some ==> evaluation_key(colors, thunks, color, cs)
            == Some(
            evaluation_hash(
                color->Some_0,
                Seq::new(
                    cs.len(),
                    |i: int| record_hash(value_record(colors, thunks, ValueModel::Thunk(cs[i]))->Some_0),
                ),
            ),
        ),
{
    let p = no_path(thunks.len());
    lemma_capture_hashes_each(colors, thunks, cs, p);
    if color is Some {
        if capture_hashes(colors, thunks, cs) is Some {
            let hs = capture_hashes(colors, thunks, cs)->Some_0;
            assert(hs =~= Seq::new(
                cs.len(),
                |i: int| record_hash(value_record(colors, thunks, ValueModel::Thunk(cs[i]))->Some_0),
            ));
        } else {
            let j = choose|j: int|
                0 <= j < cs.len() && !(#[trigger] value_record_along(colors, thunks, ValueModel::Thunk(cs[j]), p) is Some);
            assert(!(value_record(colors, thunks, ValueModel::Thunk(cs[j])) is Some));
        }
    }
}

} // verus!
