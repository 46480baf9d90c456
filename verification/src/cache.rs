//! The memoization cache: a content-addressed store of value records and a
//! map from evaluation hashes to the hashes of their results.
use vstd::prelude::*;

use crate::coloring::bytes_equal;
use crate::record::{EvalHash, RecordModel, ValueHash, ValueRecord};

verus! {

/// The memoization cache.
pub struct Cache {
    // hash(value) -> record of the value
    values: Vec<(ValueHash, ValueRecord)>,
    // hash(expr + callstack) -> hash(result)
    evals: Vec<(EvalHash, ValueHash)>,
}

/// The model of the cache: both stores as lists of entries, oldest first.
pub struct CacheModel {
    pub values: Seq<(Seq<u8>, RecordModel)>,
    pub evals: Seq<(Seq<u8>, Seq<u8>)>,
}

impl View for Cache {
    type V = CacheModel;

    closed spec fn view(&self) -> CacheModel {
        CacheModel {
            values: self.values@.map_values(|e: (ValueHash, ValueRecord)| (e.0.0@, e.1@)),
            evals: self.evals@.map_values(|e: (EvalHash, ValueHash)| (e.0.0@, e.1.0@)),
        }
    }
}

/// The model of a cache holding these entries.
pub open spec fn entries_model(values: Seq<(ValueHash, ValueRecord)>, evals: Seq<(EvalHash, ValueHash)>) -> CacheModel {
    CacheModel {
        values: values.map_values(|e: (ValueHash, ValueRecord)| (e.0.0@, e.1@)),
        evals: evals.map_values(|e: (EvalHash, ValueHash)| (e.0.0@, e.1.0@)),
    }
}

/// The position of the first entry with key `k`, or -1 if there is none.
pub open spec fn key_position<V>(entries: Seq<(Seq<u8>, V)>, k: Seq<u8>) -> int
    decreases entries.len(),
{
    if entries.len() == 0 {
        -1
    } else {
        let p = key_position(entries.drop_last(), k);
        if p >= 0 {
            p
        } else if entries.last().0 == k {
            entries.len() - 1
        } else {
            -1
        }
    }
}

/// `key_position` is the first position that holds `k`.
pub proof fn lemma_key_position<V>(entries: Seq<(Seq<u8>, V)>, k: Seq<u8>)
    ensures
        -1 <= key_position(entries, k) < entries.len(),
        key_position(entries, k) >= 0 ==> entries[key_position(entries, k)].0 == k,
        forall|i: int|
            0 <= i < entries.len() && (key_position(entries, k) < 0 || i < key_position(
                entries,
                k,
            )) ==> (#[trigger] entries[i]).0 != k,
    decreases entries.len(),
{
    if entries.len() > 0 {
        let prefix = entries.drop_last();
        lemma_key_position(prefix, k);
        assert forall|i: int|
            0 <= i < entries.len() && (key_position(entries, k) < 0 || i < key_position(
                entries,
                k,
            )) implies (#[trigger] entries[i]).0 != k by {
            if i < prefix.len() {
                assert(prefix[i] == entries[i]);
            }
        }
    }
}

/// Appending an entry keeps the positions of keys that were there.
pub proof fn lemma_key_position_push<V>(entries: Seq<(Seq<u8>, V)>, e: (Seq<u8>, V), k: Seq<u8>)
    ensures
        key_position(entries, k) >= 0 ==> key_position(entries.push(e), k) == key_position(
            entries,
            k,
        ),
        key_position(entries, k) < 0 && e.0 == k ==> key_position(entries.push(e), k)
            == entries.len(),
        key_position(entries, k) < 0 && e.0 != k ==> key_position(entries.push(e), k) < 0,
{
    assert(entries.push(e).drop_last() =~= entries);
}

/// Replacing the value of an entry keeps all key positions.
pub proof fn lemma_key_position_update<V>(entries: Seq<(Seq<u8>, V)>, p: int, v: V, k: Seq<u8>)
    requires
        0 <= p < entries.len(),
    ensures
        key_position(entries.update(p, (entries[p].0, v)), k) == key_position(entries, k),
    decreases entries.len(),
{
    let updated = entries.update(p, (entries[p].0, v));
    if p == entries.len() - 1 {
        assert(updated.drop_last() =~= entries.drop_last());
    } else {
        assert(updated.drop_last() =~= entries.drop_last().update(p, (entries[p].0, v)));
        lemma_key_position_update(entries.drop_last(), p, v, k);
    }
}

/// The record stored under `h`.
pub open spec fn lookup_record(c: CacheModel, h: Seq<u8>) -> Option<RecordModel> {
    let p = key_position(c.values, h);
    if p >= 0 {
        Some(c.values[p].1)
    } else {
        None
    }
}

/// The cache with `r` stored under `h`, unless `h` is stored already.
pub open spec fn insert_record(c: CacheModel, h: Seq<u8>, r: RecordModel) -> CacheModel {
    if key_position(c.values, h) >= 0 {
        c
    } else {
        CacheModel { values: c.values.push((h, r)), evals: c.evals }
    }
}

/// The result hash stored for the evaluation `k`.
pub open spec fn lookup_eval(c: CacheModel, k: Seq<u8>) -> Option<Seq<u8>> {
    let p = key_position(c.evals, k);
    if p >= 0 {
        Some(c.evals[p].1)
    } else {
        None
    }
}

/// The cache with the evaluation `k` mapped to the result hash `v`.
pub open spec fn set_eval(c: CacheModel, k: Seq<u8>, v: Seq<u8>) -> CacheModel {
    let p = key_position(c.evals, k);
    if p >= 0 {
        CacheModel { values: c.values, evals: c.evals.update(p, (k, v)) }
    } else {
        CacheModel { values: c.values, evals: c.evals.push((k, v)) }
    }
}

impl Cache {
    /// The model of an empty cache.
    pub open spec fn new_model() -> CacheModel {
        CacheModel {
            values: Seq::<(Seq<u8>, RecordModel)>::empty(),
            evals: Seq::<(Seq<u8>, Seq<u8>)>::empty(),
        }
    }

    /// An empty cache.
    pub fn new() -> (c: Cache)
        ensures
            c@ == Cache::new_model(),
    {
        let c = Cache { values: Vec::new(), evals: Vec::new() };
        assert(c@.values =~= Seq::<(Seq<u8>, RecordModel)>::empty());
        assert(c@.evals =~= Seq::<(Seq<u8>, Seq<u8>)>::empty());
        c
    }

    /// The cache holding the records `values` and the memoized results
    /// `evals`, as they are.
    pub(crate) fn from_parts(values: Vec<(ValueHash, ValueRecord)>, evals: Vec<(EvalHash, ValueHash)>) -> (c: Cache)
        ensures
            c@ == entries_model(values@, evals@),
    {
        Cache { values, evals }
    }

    /// Copies of the stored records and of the memoized results, oldest
    /// first.
    pub fn entries(&self) -> (e: (Vec<(ValueHash, ValueRecord)>, Vec<(EvalHash, ValueHash)>))
        ensures
            entries_model(e.0@, e.1@) == self@,
    {
        let mut values: Vec<(ValueHash, ValueRecord)> = Vec::new();
        let mut i: usize = 0;
        while i < self.values.len()
            invariant
                i <= self.values@.len(),
                values@.len() == i,
                forall|j: int| 0 <= j < i ==> (#[trigger] values@[j]).0 == self.values@[j].0 && values@[j].1@
                    == self.values@[j].1@,
            decreases self.values@.len() - i,
        {
            values.push((self.values[i].0, self.values[i].1.duplicate()));
            i = i + 1;
        }
        let mut evals: Vec<(EvalHash, ValueHash)> = Vec::new();
        let mut k: usize = 0;
        while k < self.evals.len()
            invariant
                k <= self.evals@.len(),
                evals@ == self.evals@.take(k as int),
            decreases self.evals@.len() - k,
        {
            evals.push(self.evals[k]);
            k = k + 1;
            assert(evals@ =~= self.evals@.take(k as int));
        }
        assert(self.evals@.take(k as int) =~= self.evals@);
        assert(entries_model(values@, evals@).values =~= self@.values);
        assert(entries_model(values@, evals@).evals =~= self@.evals);
        (values, evals)
    }

    /// The number of stored records.
    pub fn value_count(&self) -> (n: usize)
        ensures
            n == self@.values.len(),
    {
        self.values.len()
    }

    /// The number of memoized results.
    pub fn eval_count(&self) -> (n: usize)
        ensures
            n == self@.evals.len(),
    {
        self.evals.len()
    }

    /// The hash of the record at position `p`.
    pub fn key_at(&self, p: usize) -> (h: ValueHash)
        requires
            p < self@.values.len(),
        ensures
            h.0@ == self@.values[p as int].0,
    {
        self.values[p].0
    }

    /// The memoized result at position `q`: the evaluation hash and the
    /// hash of the result.
    pub fn eval_at(&self, q: usize) -> (e: (EvalHash, ValueHash))
        requires
            q < self@.evals.len(),
        ensures
            (e.0.0@, e.1.0@) == self@.evals[q as int],
    {
        self.evals[q]
    }

    /// The position of the record stored under `h`.
    pub fn find_value(&self, h: &ValueHash) -> (p: Option<usize>)
        ensures
            match p {
                Some(i) => i == key_position(self@.values, h.0@) && i < self@.values.len(),
                None => key_position(self@.values, h.0@) < 0,
            },
    {
        let ghost entries = self@.values;
        proof {
            lemma_key_position(entries, h.0@);
        }
        let mut i: usize = 0;
        while i < self.values.len()
            invariant
                i <= self.values@.len(),
                entries == self@.values,
                entries.len() == self.values@.len(),
                forall|j: int| 0 <= j < i ==> (#[trigger] entries[j]).0 != h.0@,
                -1 <= key_position(entries, h.0@) < entries.len(),
                key_position(entries, h.0@) >= 0 ==> entries[key_position(entries, h.0@)].0 == h.0@,
                forall|j: int|
                    0 <= j < entries.len() && (key_position(entries, h.0@) < 0 || j < key_position(
                        entries,
                        h.0@,
                    )) ==> (#[trigger] entries[j]).0 != h.0@,
            decreases self.values@.len() - i,
        {
            assert(entries[i as int].0 == self.values@[i as int].0.0@);
            if bytes_equal(&self.values[i].0.0, &h.0) {
                return Some(i);
            }
            i = i + 1;
        }
        None
    }

    /// The position of the memoized result of the evaluation `k`.
    pub fn find_eval(&self, k: &EvalHash) -> (p: Option<usize>)
        ensures
            match p {
                Some(i) => i == key_position(self@.evals, k.0@) && i < self@.evals.len(),
                None => key_position(self@.evals, k.0@) < 0,
            },
    {
        let ghost entries = self@.evals;
        proof {
            lemma_key_position(entries, k.0@);
        }
        let mut i: usize = 0;
        while i < self.evals.len()
            invariant
                i <= self.evals@.len(),
                entries == self@.evals,
                entries.len() == self.evals@.len(),
                forall|j: int| 0 <= j < i ==> (#[trigger] entries[j]).0 != k.0@,
                -1 <= key_position(entries, k.0@) < entries.len(),
                key_position(entries, k.0@) >= 0 ==> entries[key_position(entries, k.0@)].0 == k.0@,
                forall|j: int|
                    0 <= j < entries.len() && (key_position(entries, k.0@) < 0 || j < key_position(
                        entries,
                        k.0@,
                    )) ==> (#[trigger] entries[j]).0 != k.0@,
            decreases self.evals@.len() - i,
        {
            assert(entries[i as int] == (self.evals@[i as int].0.0@, self.evals@[i as int].1.0@));
            if bytes_equal(&self.evals[i].0.0, &k.0) {
                return Some(i);
            }
            i = i + 1;
        }
        None
    }

    /// The record at position `p` of the value store.
    pub fn record_at(&self, p: usize) -> (r: &ValueRecord)
        requires
            p < self@.values.len(),
        ensures
            r@ == self@.values[p as int].1,
    {
        &self.values[p].1
    }

    /// The record stored under `h`.
    pub fn get_record(&self, h: &ValueHash) -> (r: Option<&ValueRecord>)
        ensures
            match r {
                Some(rec) => lookup_record(self@, h.0@) == Some(rec@),
                None => lookup_record(self@, h.0@) is None,
            },
    {
        match self.find_value(h) {
            Some(p) => {
                assert(self@.values[p as int] == (self.values@[p as int].0.0@, self.values@[p as int].1@));
                Some(&self.values[p].1)
            },
            None => None,
        }
    }

    /// Stores `r` under `h`, unless `h` is stored already.
    pub fn insert_record(&mut self, h: ValueHash, r: ValueRecord)
        ensures
            final(self)@ == insert_record(old(self)@, h.0@, r@),
    {
        match self.find_value(&h) {
            Some(_) => {},
            None => {
                self.values.push((h, r));
                assert(self@.values =~= old(self)@.values.push((h.0@, r@)));
                assert(self@.evals =~= old(self)@.evals);
            },
        }
    }

    /// The result hash stored for the evaluation `k`.
    pub fn lookup_eval(&self, k: &EvalHash) -> (v: Option<ValueHash>)
        ensures
            match v {
                Some(h) => lookup_eval(self@, k.0@) == Some(h.0@),
                None => lookup_eval(self@, k.0@) is None,
            },
    {
        let ghost entries = self@.evals;
        proof {
            lemma_key_position(entries, k.0@);
        }
        let mut i: usize = 0;
        while i < self.evals.len()
            invariant
                i <= self.evals@.len(),
                entries == self@.evals,
                entries.len() == self.evals@.len(),
                forall|j: int| 0 <= j < i ==> (#[trigger] entries[j]).0 != k.0@,
                -1 <= key_position(entries, k.0@) < entries.len(),
                key_position(entries, k.0@) >= 0 ==> entries[key_position(entries, k.0@)].0 == k.0@,
                forall|j: int|
                    0 <= j < entries.len() && (key_position(entries, k.0@) < 0 || j < key_position(
                        entries,
                        k.0@,
                    )) ==> (#[trigger] entries[j]).0 != k.0@,
            decreases self.evals@.len() - i,
        {
            assert(entries[i as int] == (self.evals@[i as int].0.0@, self.evals@[i as int].1.0@));
            if bytes_equal(&self.evals[i].0.0, &k.0) {
                return Some(self.evals[i].1);
            }
            i = i + 1;
        }
        None
    }

    /// Maps the evaluation `k` to the result hash `v`, replacing an earlier
    /// mapping of `k`.
    pub fn set_eval(&mut self, k: EvalHash, v: ValueHash)
        ensures
            final(self)@ == set_eval(old(self)@, k.0@, v.0@),
    {
        let ghost entries = self@.evals;
        proof {
            lemma_key_position(entries, k.0@);
        }
        let mut i: usize = 0;
        while i < self.evals.len()
            invariant
                i <= self.evals@.len(),
                self@ == old(self)@,
                entries == self@.evals,
                entries.len() == self.evals@.len(),
                forall|j: int| 0 <= j < i ==> (#[trigger] entries[j]).0 != k.0@,
                -1 <= key_position(entries, k.0@) < entries.len(),
                key_position(entries, k.0@) >= 0 ==> entries[key_position(entries, k.0@)].0 == k.0@,
                forall|j: int|
                    0 <= j < entries.len() && (key_position(entries, k.0@) < 0 || j < key_position(
                        entries,
                        k.0@,
                    )) ==> (#[trigger] entries[j]).0 != k.0@,
            decreases self.evals@.len() - i,
        {
            assert(entries[i as int] == (self.evals@[i as int].0.0@, self.evals@[i as int].1.0@));
            if bytes_equal(&self.evals[i].0.0, &k.0) {
                self.evals.set(i, (k, v));
                assert(self@.evals =~= old(self)@.evals.update(i as int, (k.0@, v.0@)));
                assert(self@.values =~= old(self)@.values);
                return;
            }
            i = i + 1;
        }
        self.evals.push((k, v));
        assert(self@.evals =~= old(self)@.evals.push((k.0@, v.0@)));
        assert(self@.values =~= old(self)@.values);
    }
}

/// Unwraps the outcome of an operation on a cache store, which is expected
/// to succeed.
pub fn expect_cache_failure<V, E>(result: Result<Option<V>, E>) -> (r: Option<V>)
    requires
        result is Ok,
    ensures
        r == result->Ok_0,
{
    match result {
        Ok(v) => v,
        Err(_) => None,
    }
}

} // verus!
