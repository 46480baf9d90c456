//! An arena that may hold deferred slots and references to other slots.
//!
//! It simplifies building lazy or cyclic structures and can be normalized to
//! an `Arena` with `flatten`.
use vstd::prelude::*;
use vstd::set_lib::*;
use std::collections::BTreeSet;

use crate::arena::{Arena, ArenaId};

verus! {

broadcast use vstd::laws_cmp::group_laws_cmp;

/// An id into a `LazyArena`; it may refer to a `Ref` or `Deferred` slot.
#[derive(Clone, Copy, Debug)]
pub struct LazyArenaId(pub ArenaId);

/// A slot of a `LazyArena`.
pub enum MaybeOrRef<T> {
    /// A stored value.
    Value(T),
    /// A reference to another slot.
    Ref(LazyArenaId),
    /// A slot to be filled later with `fill_deferred`.
    Deferred,
}

/// The slot that slot `k` refers to, or `k` itself if it is not a reference.
pub open spec fn entry_next<T>(e: Seq<MaybeOrRef<T>>, k: int) -> int {
    match e[k] {
        MaybeOrRef::Ref(r) => r.0.index() as int,
        _ => k,
    }
}

/// The slot reached from slot `k` after following `steps` references.
pub open spec fn follow<T>(e: Seq<MaybeOrRef<T>>, k: int, steps: nat) -> int
    decreases steps,
{
    if steps == 0 {
        k
    } else {
        follow(e, entry_next(e, k), (steps - 1) as nat)
    }
}

/// Following references from slot `k` ends at the value slot `t`.
pub open spec fn reaches<T>(e: Seq<MaybeOrRef<T>>, k: int, t: int) -> bool {
    &&& 0 <= t < e.len()
    &&& e[t] is Value
    &&& exists|s: nat| follow(e, k, s) == t
}

/// The value slot that slot `k` stands for, or `None` if following its
/// references runs into a cycle.
#[verifier::opaque]
pub open spec fn resolution<T>(e: Seq<MaybeOrRef<T>>, k: int) -> Option<int> {
    if exists|t: int| reaches(e, k, t) {
        Some(choose|t: int| reaches(e, k, t))
    } else {
        None
    }
}

/// Every reference points into the arena.
pub open spec fn refs_in_bounds<T>(e: Seq<MaybeOrRef<T>>) -> bool {
    forall|k: int|
        0 <= k < e.len() && (#[trigger] e[k]) is Ref ==> e[k]->Ref_0.0.index() < e.len()
}

/// No slot is still deferred.
pub open spec fn no_deferred<T>(e: Seq<MaybeOrRef<T>>) -> bool {
    forall|k: int| 0 <= k < e.len() ==> !(#[trigger] e[k] is Deferred)
}

/// The number of value slots among the first `i` slots.
#[verifier::opaque]
pub open spec fn count_values<T>(e: Seq<MaybeOrRef<T>>, i: int) -> nat
    decreases i,
{
    if i <= 0 {
        0
    } else {
        count_values(e, i - 1) + if e[i - 1] is Value {
            1nat
        } else {
            0nat
        }
    }
}

/// Some slot of the arena cannot be resolved to a value.
pub open spec fn has_cycle<T>(e: Seq<MaybeOrRef<T>>) -> bool {
    exists|k: int| 0 <= k < e.len() && resolution(e, k) is None
}

/// The position that slot `k` takes in the flattened arena: the rank of the
/// value it resolves to among all values, or the position after all values
/// (the cycle placeholder) if it does not resolve.
pub open spec fn flat_index<T>(e: Seq<MaybeOrRef<T>>, k: int) -> nat {
    match resolution(e, k) {
        Some(t) => count_values(e, t),
        None => count_values(e, e.len() as int),
    }
}

/// The ids of all slots in the flattened arena.
pub open spec fn flat_ids<T>(e: Seq<MaybeOrRef<T>>) -> Seq<ArenaId> {
    Seq::new(e.len(), |k: int| ArenaId(flat_index(e, k) as usize))
}

pub proof fn lemma_follow_add<T>(e: Seq<MaybeOrRef<T>>, k: int, a: nat, b: nat)
    ensures
        follow(e, k, a + b) == follow(e, follow(e, k, a), b),
    decreases a,
{
    if a > 0 {
        lemma_follow_add(e, entry_next(e, k), (a - 1) as nat, b);
        assert((a + b - 1) as nat == (a - 1) as nat + b);
    }
}

pub proof fn lemma_follow_fixed<T>(e: Seq<MaybeOrRef<T>>, k: int, d: nat)
    requires
        !(e[k] is Ref),
    ensures
        follow(e, k, d) == k,
    decreases d,
{
    if d > 0 {
        lemma_follow_fixed(e, k, (d - 1) as nat);
    }
}

pub proof fn lemma_follow_absorb<T>(e: Seq<MaybeOrRef<T>>, k: int, s: nat, d: nat)
    requires
        !(e[follow(e, k, s)] is Ref),
    ensures
        follow(e, k, s + d) == follow(e, k, s),
{
    lemma_follow_add(e, k, s, d);
    lemma_follow_fixed(e, follow(e, k, s), d);
}

pub proof fn lemma_follow_in_bounds<T>(e: Seq<MaybeOrRef<T>>, k: int, s: nat)
    requires
        refs_in_bounds(e),
        0 <= k < e.len(),
    ensures
        0 <= follow(e, k, s) < e.len(),
    decreases s,
{
    if s > 0 {
        lemma_follow_in_bounds(e, entry_next(e, k), (s - 1) as nat);
    }
}

/// A slot resolves to at most one value.
pub proof fn lemma_reaches_unique<T>(e: Seq<MaybeOrRef<T>>, k: int, t1: int, t2: int)
    requires
        reaches(e, k, t1),
        reaches(e, k, t2),
    ensures
        t1 == t2,
{
    let s1 = choose|s: nat| follow(e, k, s) == t1;
    let s2 = choose|s: nat| follow(e, k, s) == t2;
    if s1 <= s2 {
        lemma_follow_absorb(e, k, s1, (s2 - s1) as nat);
    } else {
        lemma_follow_absorb(e, k, s2, (s1 - s2) as nat);
    }
}

pub proof fn lemma_resolution_reaches<T>(e: Seq<MaybeOrRef<T>>, k: int, t: int)
    requires
        reaches(e, k, t),
    ensures
        resolution(e, k) == Some(t),
{
    reveal(resolution);
    let c = choose|u: int| reaches(e, k, u);
    lemma_reaches_unique(e, k, c, t);
}

pub proof fn lemma_value_resolves_to_itself<T>(e: Seq<MaybeOrRef<T>>, k: int)
    requires
        0 <= k < e.len(),
        e[k] is Value,
    ensures
        resolution(e, k) == Some(k),
{
    assert(follow(e, k, 0) == k);
    lemma_resolution_reaches(e, k, k);
}

/// A reference slot resolves as the slot it points to.
pub proof fn lemma_reaches_step<T>(e: Seq<MaybeOrRef<T>>, k: int, t: int)
    requires
        e[k] is Ref,
    ensures
        reaches(e, k, t) <==> reaches(e, entry_next(e, k), t),
{
    if reaches(e, k, t) {
        let s = choose|s: nat| follow(e, k, s) == t;
        if s == 0 {
            assert(follow(e, entry_next(e, k), 0) == t);
        } else {
            assert(follow(e, entry_next(e, k), (s - 1) as nat) == t);
        }
    }
    if reaches(e, entry_next(e, k), t) {
        let s = choose|s: nat| follow(e, entry_next(e, k), s) == t;
        assert(follow(e, k, s + 1) == t);
    }
}

/// A reference slot that leads back to itself never reaches a value.
pub proof fn lemma_cycle_unresolved<T>(e: Seq<MaybeOrRef<T>>, k: int, p: nat, t: int)
    requires
        p >= 1,
        follow(e, k, p) == k,
        e[k] is Ref,
    ensures
        !reaches(e, k, t),
{
    if reaches(e, k, t) {
        let s = choose|s: nat| follow(e, k, s) == t;
        lemma_cycle_reduce(e, k, p, s);
        let r = s % p;
        // the slot reached after `r < p` steps is a value, so the walk would
        // stay there instead of coming back to `k`
        lemma_follow_absorb(e, k, r, (p - r) as nat);
    }
}

proof fn lemma_cycle_reduce<T>(e: Seq<MaybeOrRef<T>>, k: int, p: nat, s: nat)
    requires
        p >= 1,
        follow(e, k, p) == k,
    ensures
        follow(e, k, s) == follow(e, k, s % p),
    decreases s,
{
    if s >= p {
        lemma_follow_add(e, k, p, (s - p) as nat);
        lemma_cycle_reduce(e, k, p, (s - p) as nat);
        assert(s % p == (s - p) as nat % p) by (nonlinear_arith)
            requires
                s >= p,
                p >= 1,
        ;
    } else {
        assert(s % p == s) by (nonlinear_arith)
            requires
                s < p,
        ;
    }
}


/// Pointing slot `i` directly at the value it resolves to does not change
/// what any slot resolves to.
pub proof fn lemma_compress<T>(e: Seq<MaybeOrRef<T>>, i: int, t: int, r: LazyArenaId)
    requires
        refs_in_bounds(e),
        0 <= i < e.len(),
        e[i] is Ref,
        reaches(e, i, t),
        r.0.index() == t,
    ensures
        refs_in_bounds(e.update(i, MaybeOrRef::Ref(r))),
        forall|k: int, u: int|
            0 <= k < e.len() ==> (reaches(e.update(i, MaybeOrRef::Ref(r)), k, u) <==> reaches(
                e,
                k,
                u,
            )),
{
    let e2 = e.update(i, MaybeOrRef::Ref(r));
    assert forall|k: int, u: int| 0 <= k < e.len() implies (reaches(e2, k, u) <==> reaches(e, k, u)) by {
        if reaches(e, k, u) {
            let s = choose|s: nat| follow(e, k, s) == u;
            lemma_compress_forward(e, i, t, r, k, u, s);
        }
        if reaches(e2, k, u) {
            let s = choose|s: nat| follow(e2, k, s) == u;
            lemma_compress_backward(e, i, t, r, k, u, s);
        }
    }
}

proof fn lemma_compress_forward<T>(
    e: Seq<MaybeOrRef<T>>,
    i: int,
    t: int,
    r: LazyArenaId,
    k: int,
    u: int,
    s: nat,
)
    requires
        refs_in_bounds(e),
        0 <= k < e.len(),
        0 <= i < e.len(),
        e[i] is Ref,
        reaches(e, i, t),
        r.0.index() == t,
        0 <= u < e.len(),
        e[u] is Value,
        follow(e, k, s) == u,
    ensures
        reaches(e.update(i, MaybeOrRef::Ref(r)), k, u),
    decreases s,
{
    let e2 = e.update(i, MaybeOrRef::Ref(r));
    assert(e2[u] == e[u]);
    if s == 0 {
        assert(follow(e2, k, 0) == u);
    } else if k == i {
        assert(reaches(e, i, u)) by {
            assert(follow(e, i, s) == u);
        }
        lemma_reaches_unique(e, i, t, u);
        assert(follow(e2, k, 1) == u) by {
            assert(follow(e2, t, 0) == t);
        }
    } else if !(e[k] is Ref) {
        lemma_follow_fixed(e, k, s);
        assert(follow(e2, k, 0) == u);
    } else {
        assert(entry_next(e2, k) == entry_next(e, k));
        lemma_compress_forward(e, i, t, r, entry_next(e, k), u, (s - 1) as nat);
        let s2 = choose|s2: nat| follow(e2, entry_next(e, k), s2) == u;
        assert(follow(e2, k, s2 + 1) == u);
    }
}

proof fn lemma_compress_backward<T>(
    e: Seq<MaybeOrRef<T>>,
    i: int,
    t: int,
    r: LazyArenaId,
    k: int,
    u: int,
    s: nat,
)
    requires
        refs_in_bounds(e),
        0 <= k < e.len(),
        0 <= i < e.len(),
        e[i] is Ref,
        reaches(e, i, t),
        r.0.index() == t,
        0 <= u < e.len(),
        e.update(i, MaybeOrRef::Ref(r))[u] is Value,
        follow(e.update(i, MaybeOrRef::Ref(r)), k, s) == u,
    ensures
        reaches(e, k, u),
    decreases s,
{
    let e2 = e.update(i, MaybeOrRef::Ref(r));
    assert(u != i);
    assert(e2[u] == e[u]);
    if s == 0 {
        assert(follow(e, k, 0) == u);
    } else if k == i {
        // from `i` the updated arena goes straight to the value `t`
        assert(e2[t] == e[t]);
        lemma_follow_fixed(e2, t, (s - 1) as nat);
        assert(u == t);
    } else if !(e2[k] is Ref) {
        lemma_follow_fixed(e2, k, s);
        assert(follow(e, k, 0) == u);
    } else {
        assert(entry_next(e2, k) == entry_next(e, k));
        lemma_compress_backward(e, i, t, r, entry_next(e, k), u, (s - 1) as nat);
        let s2 = choose|s2: nat| follow(e, entry_next(e, k), s2) == u;
        assert(follow(e, k, s2 + 1) == u);
    }
}


/// The indices below `n`.
pub open spec fn usize_below(n: nat) -> Set<usize> {
    Set::new(|x: usize| x < n)
}

pub proof fn lemma_usize_below(n: nat)
    requires
        n <= usize::MAX + 1,
    ensures
        usize_below(n).finite(),
        usize_below(n).len() == n,
    decreases n,
{
    if n == 0 {
        assert(usize_below(0) =~= Set::<usize>::empty());
    } else {
        lemma_usize_below((n - 1) as nat);
        let m = (n - 1) as usize;
        assert(usize_below(n) =~= usize_below((n - 1) as nat).insert(m));
    }
}

/// Following at least one reference from slot `v` leads to slot `idx`.
pub open spec fn leads_to<T>(e: Seq<MaybeOrRef<T>>, v: int, idx: int) -> bool {
    exists|s: nat| s >= 1 && follow(e, v, s) == idx
}

/// Slot `i` lies on the chain of references that starts at slot `k`.
pub open spec fn on_chain<T>(e: Seq<MaybeOrRef<T>>, k: int, i: int) -> bool {
    exists|s: nat| follow(e, k, s) == i
}

/// A walk along the chain from slot `k` goes past its first `s` slots: each
/// of them is a reference, lies outside `visited` and was not met before.
pub open spec fn walk_passes<T>(e: Seq<MaybeOrRef<T>>, visited: Set<usize>, k: int, s: nat) -> bool {
    forall|t: nat|
        t < s ==> {
            &&& e[#[trigger] follow(e, k, t)] is Ref
            &&& !visited.contains(follow(e, k, t) as usize)
            &&& forall|u: nat| u < t ==> #[trigger] follow(e, k, u) != follow(e, k, t)
        }
}

/// The slots that a walk from slot `k` marks as visited: those it reaches
/// before it stops at a value, at a slot of `visited` or at a slot met before.
pub open spec fn walked<T>(e: Seq<MaybeOrRef<T>>, visited: Set<usize>, k: int) -> Set<usize> {
    Set::new(|v: usize| exists|s: nat| #[trigger] follow(e, k, s) == v as int && walk_passes(e, visited, k, s))
}

/// Passing the first `s + 1` slots of the walk from a reference slot `k` is
/// passing `k` and then the first `s` slots of the walk from the slot it
/// refers to, with `k` marked as visited.
proof fn lemma_walk_passes_step<T>(e: Seq<MaybeOrRef<T>>, visited: Set<usize>, k: int, s: nat)
    requires
        refs_in_bounds(e),
        e.len() <= usize::MAX + 1,
        0 <= k < e.len(),
        e[k] is Ref,
        !visited.contains(k as usize),
    ensures
        walk_passes(e, visited, k, s + 1) == walk_passes(
            e,
            visited.insert(k as usize),
            entry_next(e, k),
            s,
        ),
{
    let j = entry_next(e, k);
    let w = visited.insert(k as usize);
    assert(follow(e, k, 0) == k);
    assert forall|t: nat| #[trigger] follow(e, k, t + 1) == follow(e, j, t) by {}
    if walk_passes(e, visited, k, s + 1) {
        assert forall|t: nat| t < s implies {
            &&& e[#[trigger] follow(e, j, t)] is Ref
            &&& !w.contains(follow(e, j, t) as usize)
            &&& forall|u: nat| u < t ==> #[trigger] follow(e, j, u) != follow(e, j, t)
        } by {
            assert(follow(e, k, t + 1) == follow(e, j, t));
            assert(follow(e, k, 0) != follow(e, k, t + 1));
            lemma_follow_in_bounds(e, j, t);
            assert forall|u: nat| u < t implies #[trigger] follow(e, j, u) != follow(e, j, t) by {
                assert(follow(e, k, u + 1) == follow(e, j, u));
                assert(follow(e, k, u + 1) != follow(e, k, t + 1));
            }
        }
    }
    if walk_passes(e, w, j, s) {
        assert forall|t: nat| t < s + 1 implies {
            &&& e[#[trigger] follow(e, k, t)] is Ref
            &&& !visited.contains(follow(e, k, t) as usize)
            &&& forall|u: nat| u < t ==> #[trigger] follow(e, k, u) != follow(e, k, t)
        } by {
            if t > 0 {
                let t1 = (t - 1) as nat;
                assert(follow(e, k, t1 + 1) == follow(e, j, t1));
                assert(follow(e, k, t) == follow(e, j, t1));
                lemma_follow_in_bounds(e, j, t1);
                assert(!w.contains(follow(e, j, t1) as usize));
                assert forall|u: nat| u < t implies #[trigger] follow(e, k, u) != follow(e, k, t) by {
                    if u > 0 {
                        let u1 = (u - 1) as nat;
                        assert(follow(e, k, u1 + 1) == follow(e, j, u1));
                        assert(follow(e, j, u1) != follow(e, j, t1));
                    }
                }
            }
        }
    }
}

/// The walk from a reference slot `k` outside `visited` is `k` followed by the
/// walk from the slot it refers to, with `k` marked as visited.
pub proof fn lemma_walked_step<T>(e: Seq<MaybeOrRef<T>>, visited: Set<usize>, k: int)
    requires
        refs_in_bounds(e),
        e.len() <= usize::MAX + 1,
        0 <= k < e.len(),
        e[k] is Ref,
        !visited.contains(k as usize),
    ensures
        walked(e, visited, k) == walked(e, visited.insert(k as usize), entry_next(e, k)).insert(
            k as usize,
        ),
{
    let j = entry_next(e, k);
    let w = visited.insert(k as usize);
    assert forall|v: usize| #[trigger] walked(e, visited, k).contains(v) <==> walked(e, w, j).insert(
        k as usize,
    ).contains(v) by {
        if walked(e, visited, k).contains(v) && v != k as usize {
            let s = choose|s: nat| #[trigger] follow(e, k, s) == v as int && walk_passes(e, visited, k, s);
            assert(follow(e, k, 0) == k);
            assert(s != 0);
            let s1 = (s - 1) as nat;
            assert(follow(e, k, s1 + 1) == follow(e, j, s1));
            lemma_walk_passes_step(e, visited, k, s1);
            assert(walk_passes(e, w, j, s1));
            assert(walked(e, w, j).contains(v));
        }
        if v == k as usize {
            assert(follow(e, k, 0) == k);
            assert(walk_passes(e, visited, k, 0));
            assert(walked(e, visited, k).contains(v));
        } else if walked(e, w, j).contains(v) {
            let s = choose|s: nat| #[trigger] follow(e, j, s) == v as int && walk_passes(e, w, j, s);
            assert(follow(e, k, s + 1) == follow(e, j, s));
            lemma_walk_passes_step(e, visited, k, s);
            assert(walk_passes(e, visited, k, s + 1));
            assert(walked(e, visited, k).contains(v));
        }
    }
    assert(walked(e, visited, k) =~= walked(e, w, j).insert(k as usize));
}

/// A walk that starts at a slot that is not a reference, or at a slot of
/// `visited`, marks that slot alone.
pub proof fn lemma_walked_stop<T>(e: Seq<MaybeOrRef<T>>, visited: Set<usize>, k: int)
    requires
        0 <= k < e.len(),
        e.len() <= usize::MAX + 1,
        !(e[k] is Ref) || visited.contains(k as usize),
    ensures
        walked(e, visited, k) == set![k as usize],
{
    assert(follow(e, k, 0) == k);
    assert forall|v: usize| #[trigger] walked(e, visited, k).contains(v) <==> v == k as usize by {
        if walked(e, visited, k).contains(v) {
            let s = choose|s: nat| #[trigger] follow(e, k, s) == v as int && walk_passes(e, visited, k, s);
            if s > 0 {
                assert(follow(e, k, 0) == k);
            }
        }
        if v == k as usize {
            assert(walk_passes(e, visited, k, 0));
            assert(follow(e, k, 0) == v as int);
        }
    }
    assert(walked(e, visited, k) =~= set![k as usize]);
}

/// `after` keeps the slot kinds and values of `before` and resolves every
/// slot as `before` does.
pub open spec fn same_resolution<T>(before: Seq<MaybeOrRef<T>>, after: Seq<MaybeOrRef<T>>) -> bool {
    &&& after.len() == before.len()
    &&& forall|k: int|
        0 <= k < before.len() ==> ((#[trigger] after[k] is Value) <==> before[k] is Value) && (
        after[k] is Ref <==> before[k] is Ref) && (after[k] is Value ==> after[k] == before[k])
    &&& forall|k: int, u: int|
        0 <= k < before.len() ==> (#[trigger] reaches(after, k, u) <==> reaches(before, k, u))
}


pub proof fn lemma_count_values_step<T>(e: Seq<MaybeOrRef<T>>, k: int)
    requires
        0 <= k,
    ensures
        count_values(e, k + 1) == count_values(e, k) + if e[k] is Value {
            1int
        } else {
            0int
        },
        count_values(e, 0) == 0,
{
    reveal(count_values);
}

pub proof fn lemma_count_values_mono<T>(e: Seq<MaybeOrRef<T>>, i: int, k: int)
    requires
        0 <= i <= k,
    ensures
        count_values(e, i) <= count_values(e, k),
    decreases k - i,
{
    if i < k {
        lemma_count_values_mono(e, i, k - 1);
        lemma_count_values_step(e, k - 1);
    }
}

/// A value slot comes before every later value in the flattened order.
pub proof fn lemma_count_values_value<T>(e: Seq<MaybeOrRef<T>>, i: int, k: int)
    requires
        0 <= i < k,
        e[i] is Value,
    ensures
        count_values(e, i) < count_values(e, k),
{
    lemma_count_values_mono(e, i + 1, k);
    lemma_count_values_step(e, i);
}

pub proof fn lemma_same_resolution_trans<T>(
    a: Seq<MaybeOrRef<T>>,
    b: Seq<MaybeOrRef<T>>,
    c: Seq<MaybeOrRef<T>>,
)
    requires
        same_resolution(a, b),
        same_resolution(b, c),
    ensures
        same_resolution(a, c),
{
    assert forall|k: int| 0 <= k < a.len() implies ((#[trigger] c[k] is Value) <==> a[k] is Value)
        && (c[k] is Ref <==> a[k] is Ref) && (c[k] is Value ==> c[k] == a[k]) by {
        assert(b[k] is Value <==> a[k] is Value);
    }
    assert forall|k: int, u: int| 0 <= k < a.len() implies (#[trigger] reaches(c, k, u) <==> reaches(
        a,
        k,
        u,
    )) by {
        assert(reaches(c, k, u) <==> reaches(b, k, u));
        assert(reaches(b, k, u) <==> reaches(a, k, u));
    }
}


/// Converts every value slot of `entries` into its position of `new_arena`.
#[verifier::rlimit(100)]
#[verifier::spinoff_prover]
fn fill_values<T, O, F: Fn(T, &Vec<ArenaId>) -> O>(
    entries: Vec<MaybeOrRef<T>>,
    idx_mapping: &Vec<Option<ArenaId>>,
    resolved: &Vec<ArenaId>,
    new_arena: &mut Arena<Option<O>>,
    transform_idx: &F,
    e0: Ghost<Seq<MaybeOrRef<T>>>,
)
    requires
        entries@.len() == e0@.len(),
        forall|i: int|
            0 <= i < e0@.len() ==> (#[trigger] entries@[i] is Value <==> e0@[i] is Value) && (
            entries@[i] is Value ==> entries@[i] == e0@[i]),
        resolved@ == flat_ids(e0@),
        idx_mapping@.len() == e0@.len(),
        forall|i: int|
            0 <= i < e0@.len() && #[trigger] e0@[i] is Value ==> idx_mapping@[i] == Some(
                ArenaId(count_values(e0@, i) as usize),
            ),
        forall|i: int, mm: Vec<ArenaId>|
            0 <= i < e0@.len() && e0@[i] is Value && mm@ == flat_ids(e0@)
                ==> #[trigger] transform_idx.requires((e0@[i]->Value_0, &mm)),
        old(new_arena)@.len() >= count_values(e0@, e0@.len() as int),
    ensures
        final(new_arena)@.len() == old(new_arena)@.len(),
        forall|p: int|
            count_values(e0@, e0@.len() as int) <= p < old(new_arena)@.len()
                ==> #[trigger] final(new_arena)@[p] == old(new_arena)@[p],
        forall|p: int|
            0 <= p < count_values(e0@, e0@.len() as int) ==> #[trigger] final(new_arena)@[p] is Some,
        forall|i: int|
            0 <= i < e0@.len() && #[trigger] e0@[i] is Value ==> transform_idx.ensures(
                (e0@[i]->Value_0, resolved),
                final(new_arena)@[count_values(e0@, i) as int]->Some_0,
            ),
{
    let ghost e = e0@;
    let ghost n = e.len();
    let ghost start = new_arena@;
    let size = entries.len();
    proof {
        lemma_count_values_le(e, n as int);
        lemma_count_values_step(e, 0);
    }
    assert forall|i: int| 0 <= i < n && #[trigger] e[i] is Value implies transform_idx.requires(
        (e[i]->Value_0, resolved),
    ) by {
        assert(transform_idx.requires((e[i]->Value_0, resolved)));
    }
    let mut j: usize = 0;
    for entry in it: entries
        invariant
            n == e.len(),
            n <= usize::MAX,
            j == it.index(),
            it.seq() == entries@,
            entries@.len() == n,
            forall|i: int|
                0 <= i < n ==> (#[trigger] entries@[i] is Value <==> e[i] is Value) && (
                entries@[i] is Value ==> entries@[i] == e[i]),
            idx_mapping@.len() == n,
            count_values(e, n as int) <= n,
            forall|i: int|
                0 <= i < n && #[trigger] e[i] is Value ==> idx_mapping@[i] == Some(
                    ArenaId(count_values(e, i) as usize),
                ),
            forall|i: int|
                0 <= i < n && #[trigger] e[i] is Value ==> transform_idx.requires(
                    (e[i]->Value_0, resolved),
                ),
            start.len() >= count_values(e, n as int),
            new_arena@.len() == start.len(),
            forall|p: int|
                count_values(e, n as int) <= p < start.len() ==> #[trigger] new_arena@[p]
                    == start[p],
            forall|p: int| 0 <= p < count_values(e, j as int) ==> #[trigger] new_arena@[p] is Some,
            forall|i: int|
                0 <= i < j && #[trigger] e[i] is Value ==> transform_idx.ensures(
                    (e[i]->Value_0, resolved),
                    new_arena@[count_values(e, i) as int]->Some_0,
                ),
    {
        let ghost k = j as int;
        proof {
            lemma_count_values_mono(e, k, n as int);
        }
        match entry {
            MaybeOrRef::Value(val) => {
                proof {
                    assert(entries@[k] == MaybeOrRef::Value(val));
                    assert(entries@[k] is Value);
                    assert(e[k] == entries@[k]);
                    lemma_count_values_value(e, k, n as int);
                    assert(transform_idx.requires((e[k]->Value_0, resolved)));
                    lemma_count_values_step(e, k);
                    assert(idx_mapping@[k] == Some(ArenaId(count_values(e, k) as usize)));
                }
                let converted = transform_idx(val, resolved);
                let target = idx_mapping[j].unwrap();
                let ghost before = new_arena@;
                let prev = new_arena.replace(target, Some(converted));
                proof {
                    assert(target.index() == count_values(e, k));
                    assert(new_arena@[count_values(e, k) as int] == Some(converted));
                    assert(transform_idx.ensures((e[k]->Value_0, resolved), converted));
                    assert forall|i: int| 0 <= i < k && #[trigger] e[i] is Value implies count_values(
                        e,
                        i,
                    ) != count_values(e, k) by {
                        lemma_count_values_value(e, i, k);
                    }
                    assert forall|i: int|
                        0 <= i < k + 1 && #[trigger] e[i] is Value implies transform_idx.ensures(
                        (e[i]->Value_0, resolved),
                        new_arena@[count_values(e, i) as int]->Some_0,
                    ) by {
                        if i < k {
                            lemma_count_values_value(e, i, k);
                            assert(new_arena@[count_values(e, i) as int] == before[count_values(
                                e,
                                i,
                            ) as int]);
                        }
                    }
                }
            },
            _ => {
                proof {
                    assert(!(entries@[k] is Value));
                    lemma_count_values_step(e, k);
                }
            },
        }
        j = j + 1;
    }
}

pub proof fn lemma_flat_index_bound<T>(e: Seq<MaybeOrRef<T>>, k: int)
    ensures
        flat_index(e, k) <= count_values(e, e.len() as int) <= e.len(),
{
    reveal(resolution);
    lemma_count_values_le(e, e.len() as int);
    if let Some(t) = resolution(e, k) {
        assert(reaches(e, k, t));
        lemma_count_values_mono(e, t, e.len() as int);
    }
}

pub proof fn lemma_count_values_le<T>(e: Seq<MaybeOrRef<T>>, i: int)
    requires
        0 <= i,
    ensures
        count_values(e, i) <= i,
    decreases i,
{
    reveal(count_values);
    if i > 0 {
        lemma_count_values_le(e, i - 1);
    }
}

fn unwrap_slot<O>(slot: Option<O>) -> (o: O)
    requires
        slot is Some,
    ensures
        slot == Some(o),
{
    slot.unwrap()
}

/// The value held by a value slot.
fn slot_value<T>(slot: &MaybeOrRef<T>) -> (r: Option<&T>)
    ensures
        slot is Value <==> r is Some,
        slot is Value ==> r == Some(&slot->Value_0),
{
    match slot {
        MaybeOrRef::Value(v) => Some(v),
        _ => None,
    }
}

/// A store of values that may be deferred or refer to one another.
pub struct LazyArena<T>(Arena<MaybeOrRef<T>>);

impl<T> View for LazyArena<T> {
    type V = Seq<MaybeOrRef<T>>;

    open spec fn view(&self) -> Seq<MaybeOrRef<T>> {
        self.entries()
    }
}

impl<T> LazyArena<T> {
    /// The slots, in allocation order.
    pub closed spec fn entries(&self) -> Seq<MaybeOrRef<T>> {
        self.0@
    }

    /// Every reference points into the arena.
    pub open spec fn wf(&self) -> bool {
        refs_in_bounds(self@)
    }

    /// Whether `id` refers to a slot of the arena.
    pub open spec fn contains(&self, id: LazyArenaId) -> bool {
        id.0.index() < self@.len()
    }

    /// An empty arena.
    pub fn new() -> (a: Self)
        ensures
            a@ == Seq::<MaybeOrRef<T>>::empty(),
            a.wf(),
    {
        LazyArena(Arena::new())
    }

    /// The number of slots.
    pub fn size(&self) -> (n: usize)
        ensures
            n == self@.len(),
    {
        self.0.size()
    }

    /// Stores the value `t`.
    pub fn allocate(&mut self, t: T) -> (id: LazyArenaId)
        requires
            old(self).wf(),
        ensures
            final(self)@ == old(self)@.push(MaybeOrRef::Value(t)),
            id.0.index() == old(self)@.len(),
            final(self).wf(),
    {
        LazyArenaId(self.0.allocate(MaybeOrRef::Value(t)))
    }

    /// Reserves a slot to be filled later with `fill_deferred`.
    pub fn alloc_deferred(&mut self) -> (id: LazyArenaId)
        requires
            old(self).wf(),
        ensures
            final(self)@ == old(self)@.push(MaybeOrRef::Deferred),
            id.0.index() == old(self)@.len(),
            final(self).wf(),
    {
        LazyArenaId(self.0.allocate(MaybeOrRef::Deferred))
    }

    /// Fills the deferred slot `idx` with a reference to `reference`.
    pub fn fill_deferred(&mut self, idx: LazyArenaId, reference: LazyArenaId)
        requires
            old(self).wf(),
            old(self).contains(idx),
            old(self).contains(reference),
            old(self)@[idx.0.index() as int] is Deferred,
        ensures
            final(self)@ == old(self)@.update(idx.0.index() as int, MaybeOrRef::Ref(reference)),
            final(self).wf(),
    {
        let prev = self.0.replace(idx.0, MaybeOrRef::Ref(reference));
    }


    /// The index of the value slot that slot `id` stands for, following
    /// references; equal for all slots that stand for the same value.
    pub fn canonical_idx(&self, id: LazyArenaId) -> (idx: usize)
        requires
            self.wf(),
            self.contains(id),
            resolution(self@, id.0.index() as int) is Some,
        ensures
            resolution(self@, id.0.index() as int) == Some(idx as int),
    {
        let ghost e = self@;
        let ghost k = id.0.index() as int;
        let ghost t = resolution(e, k)->Some_0;
        proof {
            reveal(resolution);
            assert(reaches(e, k, t));
        }
        let ghost s: nat = choose|s: nat| follow(e, k, s) == t;
        let mut cur = id;
        let ghost mut i: nat = 0;
        loop
            invariant_except_break
                i <= s,
            invariant
                e == self@,
                refs_in_bounds(e),
                0 <= k < e.len(),
                reaches(e, k, t),
                follow(e, k, s) == t,
                resolution(e, k) == Some(t),
                cur.0.index() < e.len(),
                follow(e, k, i) == cur.0.index(),
            ensures
                cur.0.index() < e.len(),
                follow(e, k, i) == cur.0.index(),
                !(e[cur.0.index() as int] is Ref),
                i <= s,
            decreases s - i,
        {
            proof {
                if i == s {
                    assert(e[cur.0.index() as int] is Value);
                }
            }
            match self.0.get(cur.0) {
                MaybeOrRef::Ref(r) => {
                    proof {
                        lemma_follow_add(e, k, i, 1);
                        assert(e[cur.0.index() as int] == MaybeOrRef::<T>::Ref(*r));
                        assert(entry_next(e, cur.0.index() as int) == r.0.index());
                        assert(follow(e, r.0.index() as int, 0) == r.0.index());
                        assert(follow(e, cur.0.index() as int, 1) == r.0.index());
                        i = i + 1;
                    }
                    cur = *r;
                },
                _ => {
                    break;
                },
            }
        }
        proof {
            if !(e[cur.0.index() as int] is Value) {
                lemma_follow_absorb(e, k, i, (s - i) as nat);
            }
            lemma_value_resolves_to_itself(e, cur.0.index() as int);
            assert(reaches(e, k, cur.0.index() as int));
            lemma_reaches_unique(e, k, t, cur.0.index() as int);
        }
        cur.0.idx()
    }

    /// The value that slot `id` stands for, following references.
    pub fn get(&self, id: LazyArenaId) -> (v: &T)
        requires
            self.wf(),
            self.contains(id),
            resolution(self@, id.0.index() as int) is Some,
        ensures
            *v == self@[resolution(self@, id.0.index() as int)->Some_0]->Value_0,
    {
        let idx = self.canonical_idx(id);
        proof {
            reveal(resolution);
            assert(reaches(self@, id.0.index() as int, idx as int));
        }
        slot_value(self.0.get(ArenaId::new(idx))).unwrap()
    }

    /// Flattens the arena into an `Arena`, removing `Ref` indirections.
    ///
    /// Every value slot becomes an element of the result, in slot order;
    /// every reference slot stands for the value it resolves to. All slots
    /// whose references run into a cycle share one element holding
    /// `cycle_placeholder`, placed after all values; it is only allocated if
    /// such a cycle exists.
    ///
    /// `transform_idx` converts each value; it is given the ids that all
    /// slots have in the result (see `flat_ids`), so that it can convert the
    /// `LazyArenaId`s held inside the value. The second result is the id of
    /// `root_node` in the result.
    #[verifier::rlimit(50)]
    pub fn flatten<O, F: Fn(T, &Vec<ArenaId>) -> O>(
        self,
        root_node: LazyArenaId,
        cycle_placeholder: O,
        transform_idx: F,
    ) -> (res: (Arena<O>, ArenaId))
        requires
            self.wf(),
            no_deferred(self@),
            self.contains(root_node),
            forall|k: int, m: Vec<ArenaId>|
                0 <= k < self@.len() && self@[k] is Value && m@ == flat_ids(self@)
                    ==> #[trigger] transform_idx.requires((self@[k]->Value_0, &m)),
        ensures
            res.0@.len() == count_values(self@, self@.len() as int) + if has_cycle(self@) {
                1int
            } else {
                0int
            },
            forall|k: int|
                0 <= k < self@.len() && #[trigger] self@[k] is Value ==> exists|m: Vec<ArenaId>|
                    m@ == flat_ids(self@) && transform_idx.ensures(
                        (self@[k]->Value_0, &m),
                        res.0@[count_values(self@, k) as int],
                    ),
            has_cycle(self@) ==> res.0@[count_values(self@, self@.len() as int) as int]
                == cycle_placeholder,
            res.1.index() == flat_index(self@, root_node.0.index() as int),
    {
        let ghost e0 = self@;
        let n = self.size();
        let ghost m = count_values(e0, n as int);
        let mut this = self;
        // Assign sequential new indices to the value slots.
        let (mut idx_mapping, mut new_arena) = this.value_positions::<O>();
        // Resolve the reference slots; all cycles share one placeholder.
        let cycle = this.resolve_refs(&mut idx_mapping, &mut new_arena, cycle_placeholder);
        // Build the id of every slot in the result.
        let mut resolved: Vec<ArenaId> = Vec::new();
        let mut j: usize = 0;
        while j < n
            invariant
                n == e0.len(),
                j <= n,
                idx_mapping@.len() == n,
                forall|i: int|
                    0 <= i < n ==> #[trigger] idx_mapping@[i] == Some(
                        ArenaId(flat_index(e0, i) as usize),
                    ),
                resolved@.len() == j,
                forall|i: int| 0 <= i < j ==> #[trigger] resolved@[i] == flat_ids(e0)[i],
            decreases n - j,
        {
            resolved.push(idx_mapping[j].unwrap());
            j = j + 1;
        }
        assert(resolved@ =~= flat_ids(e0));
        let new_root = idx_mapping[root_node.0.idx()].unwrap();
        proof {
            lemma_flat_index_bound(e0, root_node.0.index() as int);
        }
        // Convert the values into their new positions.
        let ghost cur = this@;
        let entries = this.0.into_vec();
        proof {
            assert forall|i: int| 0 <= i < n implies (#[trigger] entries@[i] is Value <==> e0[i] is Value)
                && (entries@[i] is Value ==> entries@[i] == e0[i]) by {
                assert(cur[i] is Value <==> e0[i] is Value);
            }
            assert forall|i: int| 0 <= i < n && #[trigger] e0[i] is Value implies idx_mapping@[i]
                == Some(ArenaId(count_values(e0, i) as usize)) by {
                lemma_value_resolves_to_itself(e0, i);
            }
        }
        fill_values(entries, &idx_mapping, &resolved, &mut new_arena, &transform_idx, Ghost(e0));
        let flat = new_arena.map(unwrap_slot::<O>);
        proof {
            if cycle {
                assert(unwrap_slot::<O>.ensures((new_arena@[m as int],), flat@[m as int]));
            }
            assert forall|k: int|
                0 <= k < e0.len() && #[trigger] e0[k] is Value implies exists|mm: Vec<ArenaId>|
                mm@ == flat_ids(e0) && transform_idx.ensures(
                    (e0[k]->Value_0, &mm),
                    flat@[count_values(e0, k) as int],
                ) by {
                lemma_count_values_value(e0, k, n as int);
                assert(unwrap_slot::<O>.ensures(
                    (new_arena@[count_values(e0, k) as int],),
                    flat@[count_values(e0, k) as int],
                ));
            }
        }
        (flat, new_root)
    }

    /// Allocates an empty slot of the result for every value slot, in order.
    fn value_positions<O>(&self) -> (res: (Vec<Option<ArenaId>>, Arena<Option<O>>))
        ensures
            res.0@.len() == self@.len(),
            forall|i: int|
                0 <= i < self@.len() && #[trigger] self@[i] is Value ==> res.0@[i] == Some(
                    ArenaId(count_values(self@, i) as usize),
                ),
            res.1@.len() == count_values(self@, self@.len() as int),
            forall|p: int| 0 <= p < res.1@.len() ==> #[trigger] res.1@[p] is None,
    {
        let ghost e0 = self@;
        let n = self.size();
        let mut new_arena: Arena<Option<O>> = Arena::new();
        let mut idx_mapping: Vec<Option<ArenaId>> = Vec::new();
        let mut idx: usize = 0;
        proof {
            lemma_count_values_step(e0, 0);
        }
        while idx < n
            invariant
                n == e0.len(),
                self@ == e0,
                idx <= n,
                idx_mapping@.len() == idx,
                new_arena@.len() == count_values(e0, idx as int),
                forall|p: int| 0 <= p < new_arena@.len() ==> #[trigger] new_arena@[p] is None,
                forall|i: int|
                    0 <= i < idx && #[trigger] e0[i] is Value ==> idx_mapping@[i] == Some(
                        ArenaId(count_values(e0, i) as usize),
                    ),
            decreases n - idx,
        {
            proof {
                lemma_count_values_le(e0, idx as int);
                lemma_count_values_step(e0, idx as int);
            }
            let is_value = match self.0.get(ArenaId::new(idx)) {
                MaybeOrRef::Value(_) => true,
                _ => false,
            };
            if is_value {
                let id = new_arena.allocate(None);
                idx_mapping.push(Some(id));
            } else {
                idx_mapping.push(None);
            }
            idx = idx + 1;
        }
        (idx_mapping, new_arena)
    }

    /// Sets the result id of every reference slot, resolving it (see
    /// `flatten_ref`); the first slot that runs into a cycle allocates
    /// `placeholder` after the values. Returns whether that happened.
    fn resolve_refs<O>(
        &mut self,
        idx_mapping: &mut Vec<Option<ArenaId>>,
        new_arena: &mut Arena<Option<O>>,
        placeholder: O,
    ) -> (cycle: bool)
        requires
            old(self).wf(),
            no_deferred(old(self)@),
            old(idx_mapping)@.len() == old(self)@.len(),
            forall|i: int|
                0 <= i < old(self)@.len() && #[trigger] old(self)@[i] is Value
                    ==> old(idx_mapping)@[i] == Some(
                    ArenaId(count_values(old(self)@, i) as usize),
                ),
            old(new_arena)@.len() == count_values(old(self)@, old(self)@.len() as int),
            forall|p: int| 0 <= p < old(new_arena)@.len() ==> #[trigger] old(new_arena)@[p] is None,
        ensures
            final(self).wf(),
            no_deferred(final(self)@),
            same_resolution(old(self)@, final(self)@),
            final(idx_mapping)@.len() == old(self)@.len(),
            forall|i: int|
                0 <= i < old(self)@.len() ==> #[trigger] final(idx_mapping)@[i] == Some(
                    ArenaId(flat_index(old(self)@, i) as usize),
                ),
            cycle == has_cycle(old(self)@),
            final(new_arena)@.len() == count_values(old(self)@, old(self)@.len() as int) + if cycle {
                1int
            } else {
                0int
            },
            forall|p: int|
                0 <= p < count_values(old(self)@, old(self)@.len() as int)
                    ==> #[trigger] final(new_arena)@[p] is None,
            cycle ==> final(new_arena)@[count_values(old(self)@, old(self)@.len() as int) as int]
                == Some(placeholder),
    {
        let ghost e0 = self@;
        let n = self.size();
        let ghost m = count_values(e0, n as int);
        proof {
            lemma_count_values_le(e0, n as int);
        }
        let mut cycle_placeholder = Some(placeholder);
        let mut cycle_placeholder_id: Option<ArenaId> = None;
        let mut idx: usize = 0;
        while idx < n
            invariant
                n == e0.len(),
                m == count_values(e0, n as int),
                m <= n,
                idx <= n,
                self.wf(),
                no_deferred(self@),
                same_resolution(e0, self@),
                idx_mapping@.len() == n,
                forall|i: int|
                    0 <= i < n && #[trigger] e0[i] is Value ==> idx_mapping@[i] == Some(
                        ArenaId(count_values(e0, i) as usize),
                    ),
                forall|i: int|
                    0 <= i < idx ==> #[trigger] idx_mapping@[i] == Some(
                        ArenaId(flat_index(e0, i) as usize),
                    ),
                cycle_placeholder_id is Some <==> exists|i: int|
                    0 <= i < idx && #[trigger] resolution(e0, i) is None,
                cycle_placeholder_id is Some ==> cycle_placeholder_id == Some(ArenaId(m as usize)),
                cycle_placeholder is Some <==> cycle_placeholder_id is None,
                cycle_placeholder is Some ==> cycle_placeholder == Some(placeholder),
                new_arena@.len() == m + if cycle_placeholder_id is Some {
                    1int
                } else {
                    0int
                },
                forall|p: int| 0 <= p < m ==> #[trigger] new_arena@[p] is None,
                cycle_placeholder_id is Some ==> new_arena@[m as int] == Some(placeholder),
            decreases n - idx,
        {
            let ghost cur = self@;
            let ghost k = idx as int;
            let entry = self.0.get(ArenaId::new(idx));
            match entry {
                MaybeOrRef::Ref(ref_idx) => {
                    let ref_idx = *ref_idx;
                    let mut visited: BTreeSet<usize> = BTreeSet::new();
                    let target = self.flatten_ref(ref_idx, &mut visited);
                    proof {
                        lemma_same_resolution_trans(e0, cur, self@);
                    }
                    let mapped = match target {
                        Some(t) => {
                            proof {
                                let ti = t.0.index() as int;
                                lemma_reaches_step(cur, k, ti);
                                assert(reaches(e0, k, ti));
                                lemma_resolution_reaches(e0, k, ti);
                                assert(e0[ti] is Value);
                            }
                            idx_mapping[t.0.idx()].unwrap()
                        },
                        None => {
                            proof {
                                assert forall|u: int| !reaches(e0, k, u) by {
                                    lemma_reaches_step(cur, k, u);
                                    assert(!reaches(cur, k, u));
                                }
                                reveal(resolution);
                                assert(resolution(e0, k) is None);
                            }
                            match cycle_placeholder_id {
                                Some(id) => id,
                                None => {
                                    let p = cycle_placeholder.take().unwrap();
                                    let id = new_arena.allocate(Some(p));
                                    cycle_placeholder_id = Some(id);
                                    id
                                },
                            }
                        },
                    };
                    idx_mapping.set(idx, Some(mapped));
                },
                _ => {
                    proof {
                        assert(e0[k] is Value);
                        lemma_value_resolves_to_itself(e0, k);
                    }
                },
            }
            idx = idx + 1;
        }
        cycle_placeholder_id.is_some()
    }

    /// Points every reference slot of the chain starting at `idx` directly at
    /// the value it resolves to, and returns that value's slot; `None` for
    /// reference cycles, leaving the arena as it is. Slots off the chain keep
    /// their entries.
    ///
    /// `visited` holds the slots already walked in this chain; the slots that
    /// this walk passes are added to it (see `walked`).
    fn flatten_ref(&mut self, idx: LazyArenaId, visited: &mut BTreeSet<usize>) -> (res: Option<
        LazyArenaId,
    >)
        requires
            old(self).wf(),
            no_deferred(old(self)@),
            old(self).contains(idx),
            forall|v: usize| #[trigger]
                old(visited)@.contains(v) ==> v < old(self)@.len() && old(self)@[v as int] is Ref
                    && leads_to(old(self)@, v as int, idx.0.index() as int),
        ensures
            final(self).wf(),
            no_deferred(final(self)@),
            same_resolution(old(self)@, final(self)@),
            match res {
                Some(t) => reaches(old(self)@, idx.0.index() as int, t.0.index() as int),
                None => forall|t: int| !reaches(old(self)@, idx.0.index() as int, t),
            },
            res is Some && old(self)@[idx.0.index() as int] is Ref ==> final(self)@[idx.0.index() as int]
                == MaybeOrRef::<T>::Ref(res->Some_0),
            res is Some && !(old(self)@[idx.0.index() as int] is Ref) ==> res->Some_0 == idx && final(self)@
                == old(self)@,
            res is None ==> final(self)@ == old(self)@,
            res is Some ==> forall|s: nat|
                old(self)@[#[trigger] follow(old(self)@, idx.0.index() as int, s)] is Ref
                    ==> final(self)@[follow(old(self)@, idx.0.index() as int, s)]
                    == MaybeOrRef::<T>::Ref(res->Some_0),
            forall|i: int|
                0 <= i < old(self)@.len() && !on_chain(old(self)@, idx.0.index() as int, i)
                    ==> #[trigger] final(self)@[i] == old(self)@[i],
            final(visited)@ == old(visited)@.union(
                walked(old(self)@, old(visited)@, idx.0.index() as int),
            ),
        decreases old(self)@.len() - old(visited)@.len(),
    {
        let size = self.0.size();
        let ghost e = self@;
        let ghost n = self@.len();
        let ghost k = idx.0.index() as int;
        proof {
            lemma_usize_below(n);
            assert(visited@.subset_of(usize_below(n)));
            lemma_set_subset_finite(usize_below(n), visited@);
            lemma_len_subset(visited@, usize_below(n));
        }
        let ghost v0 = visited@;
        if !visited.insert(idx.0.idx()) {
            proof {
                lemma_walked_stop(e, v0, k);
                assert(visited@ =~= v0.union(walked(e, v0, k)));
                let s = choose|s: nat| s >= 1 && follow(e, k, s) == k;
                assert forall|t: int| !reaches(e, k, t) by {
                    lemma_cycle_unresolved(e, k, s, t);
                }
            }
            return None;
        }
        proof {
            assert(visited@.subset_of(usize_below(n)));
            lemma_len_subset(visited@, usize_below(n));
        }
        let entry = self.0.get(idx.0);
        match entry {
            MaybeOrRef::Ref(next) => {
                let next = *next;
                proof {
                    let j = next.0.index() as int;
                    assert(entry_next(e, k) == j);
                    assert(follow(e, j, 0) == j);
                    assert(follow(e, k, 1) == j);
                    assert forall|v: usize| #[trigger] visited@.contains(v) implies v < e.len()
                        && e[v as int] is Ref && leads_to(e, v as int, j) by {
                        if v as int == k {
                            assert(follow(e, k, 1) == j);
                        } else {
                            let s = choose|s: nat| s >= 1 && follow(e, v as int, s) == k;
                            lemma_follow_add(e, v as int, s, 1);
                            assert(follow(e, k, 1) == j);
                        }
                    }
                }
                let ghost v1 = visited@;
                let result = self.flatten_ref(next, visited);
                proof {
                    lemma_walked_step(e, v0, k);
                    assert(v1 == v0.insert(k as usize));
                    assert(visited@ =~= v0.union(walked(e, v0, k)));
                    assert forall|i: int| on_chain(e, next.0.index() as int, i) implies on_chain(e, k, i) by {
                        let s = choose|s: nat| follow(e, next.0.index() as int, s) == i;
                        assert(follow(e, k, s + 1) == i);
                    }
                }
                match result {
                    Some(target) => {
                        proof {
                            let t = target.0.index() as int;
                            lemma_reaches_step(e, k, t);
                            let e1 = self@;
                            assert(reaches(e1, k, t));
                            assert(e1[k] is Ref);
                            lemma_compress(e1, k, t, target);
                        }
                        let ghost e1 = self@;
                        let prev = self.0.replace(idx.0, MaybeOrRef::Ref(target));
                        proof {
                            let e2 = self@;
                            assert(e2 == e1.update(k, MaybeOrRef::Ref(target)));
                            assert forall|j: int| 0 <= j < n implies ((#[trigger] e2[j] is Value)
                                <==> e[j] is Value) && (e2[j] is Ref <==> e[j] is Ref) && (
                            e2[j] is Value ==> e2[j] == e[j]) by {
                                assert(e1[j] is Value <==> e[j] is Value);
                            }
                            assert forall|j: int, u: int| 0 <= j < n implies (#[trigger] reaches(e2, j, u)
                                <==> reaches(e, j, u)) by {
                                assert(reaches(e2, j, u) <==> reaches(e1, j, u));
                                assert(reaches(e1, j, u) <==> reaches(e, j, u));
                            }
                            let jn = next.0.index() as int;
                            assert forall|s: nat| e[#[trigger] follow(e, k, s)] is Ref implies e2[follow(e, k, s)]
                                == MaybeOrRef::<T>::Ref(target) by {
                                lemma_follow_in_bounds(e, k, s);
                                if s > 0 {
                                    let s1 = (s - 1) as nat;
                                    assert(follow(e, k, s) == follow(e, jn, s1));
                                    assert(e[follow(e, jn, s1)] is Ref);
                                }
                            }
                            assert forall|i: int| 0 <= i < n && !on_chain(e, k, i) implies #[trigger] e2[i] == e[i] by {
                                assert(follow(e, k, 0) == k);
                                assert(!on_chain(e, jn, i));
                            }
                        }
                        Some(target)
                    },
                    None => {
                        proof {
                            assert forall|t: int| !reaches(e, k, t) by {
                                lemma_reaches_step(e, k, t);
                            }
                        }
                        None
                    },
                }
            },
            _ => {
                proof {
                    assert(follow(e, k, 0) == k);
                    lemma_walked_stop(e, v0, k);
                    assert(visited@ =~= v0.union(walked(e, v0, k)));
                    assert forall|s: nat| e[#[trigger] follow(e, k, s)] is Ref implies self@[follow(e, k, s)]
                        == MaybeOrRef::<T>::Ref(idx) by {
                        lemma_follow_fixed(e, k, s);
                    }
                }
                Some(idx)
            },
        }
    }
}

} // verus!
