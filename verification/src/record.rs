//! Owned records of runtime values and the hashes that identify them.
//!
//! A record refers to expressions by their `Color` and to the values a
//! lambda closes over by their `ValueHash`, so that it stays meaningful
//! across arenas and thunk stores.
use vstd::prelude::*;

use crate::coloring::{Color, blake3_digest, blake3_hash, le_bytes, push_le_bytes, push_slice};
use crate::value::Number;

verus! {

/// The hash of a value record: identifies a runtime value like `1`.
#[derive(Clone, Copy, PartialEq, Eq, Hash, Debug)]
pub struct ValueHash(pub [u8; 32]);

/// The hash of an evaluation: an expression's color together with the
/// values on the callstack it is evaluated in.
#[derive(Clone, Copy, PartialEq, Eq, Hash, Debug)]
pub struct EvalHash(pub [u8; 32]);

/// The leading byte of a record, telling which kind of value it holds.
#[derive(Clone, Copy, PartialEq, Eq, Debug)]
pub enum TypeDiscriminant {
    RuntimeLambda,
    Integer,
    Float,
    Bool,
}

/// The byte that stands for a discriminant.
pub open spec fn discriminant_byte(d: TypeDiscriminant) -> u8 {
    match d {
        TypeDiscriminant::RuntimeLambda => 0,
        TypeDiscriminant::Integer => 1,
        TypeDiscriminant::Float => 2,
        TypeDiscriminant::Bool => 3,
    }
}

impl TypeDiscriminant {
    /// Appends the discriminant's byte to `out`.
    pub fn apply(self, out: &mut Vec<u8>)
        ensures
            final(out)@ == old(out)@.push(discriminant_byte(self)),
    {
        let b: u8 = match self {
            TypeDiscriminant::RuntimeLambda => 0,
            TypeDiscriminant::Integer => 1,
            TypeDiscriminant::Float => 2,
            TypeDiscriminant::Bool => 3,
        };
        out.push(b);
    }
}

/// The hashes of the values on a callstack, innermost last.
pub struct CallstackRecord(pub Vec<ValueHash>);

/// The record of a lambda: the color of its body and the records of the
/// values it closes over.
pub struct LambdaRecord {
    pub body: Color,
    pub captures: CallstackRecord,
}

/// The record of a runtime value.
pub enum ValueRecord {
    Lambda(LambdaRecord),
    Number(Number),
    Bool(bool),
}

/// The model of a record: hashes and colors are byte sequences.
pub enum RecordModel {
    Lambda(Seq<u8>, Seq<Seq<u8>>),
    Number(Number),
    Bool(bool),
}

/// The byte sequences of a list of hashes.
pub open spec fn hashes_view(hs: Seq<ValueHash>) -> Seq<Seq<u8>> {
    Seq::new(hs.len(), |i: int| hs[i].0@)
}

impl View for CallstackRecord {
    type V = Seq<Seq<u8>>;

    open spec fn view(&self) -> Seq<Seq<u8>> {
        hashes_view(self.0@)
    }
}

impl View for ValueRecord {
    type V = RecordModel;

    open spec fn view(&self) -> RecordModel {
        match self {
            ValueRecord::Lambda(l) => RecordModel::Lambda(l.body.0@, l.captures@),
            ValueRecord::Number(n) => RecordModel::Number(*n),
            ValueRecord::Bool(b) => RecordModel::Bool(*b),
        }
    }
}

/// The concatenation of `hs`.
pub open spec fn concat(hs: Seq<Seq<u8>>) -> Seq<u8>
    decreases hs.len(),
{
    if hs.len() == 0 {
        Seq::empty()
    } else {
        concat(hs.drop_last()) + hs.last()
    }
}

/// The encoding of a list of hashes: its length in eight little-endian
/// bytes, then the hashes.
pub open spec fn hashes_bytes(hs: Seq<Seq<u8>>) -> Seq<u8> {
    le_bytes(hs.len() as u64, 8) + concat(hs)
}

/// The bytes that a record is hashed from.
pub open spec fn record_bytes(r: RecordModel) -> Seq<u8> {
    match r {
        RecordModel::Lambda(body, captures) => seq![discriminant_byte(TypeDiscriminant::RuntimeLambda)]
            + body + hashes_bytes(captures),
        RecordModel::Number(Number::Integer(i)) => seq![discriminant_byte(TypeDiscriminant::Integer)]
            + le_bytes(i as u64, 8),
        RecordModel::Bool(b) => seq![discriminant_byte(TypeDiscriminant::Bool), if b { 1u8 } else { 0u8 }],
    }
}

/// The hash of a record.
pub open spec fn record_hash(r: RecordModel) -> Seq<u8> {
    blake3_digest(record_bytes(r))
}

/// The bytes that an evaluation is hashed from: the expression's color and
/// the hashes of the values on the callstack.
pub open spec fn evaluation_bytes(color: Seq<u8>, callstack: Seq<Seq<u8>>) -> Seq<u8> {
    color + hashes_bytes(callstack)
}

/// The hash of an evaluation.
pub open spec fn evaluation_hash(color: Seq<u8>, callstack: Seq<Seq<u8>>) -> Seq<u8> {
    blake3_digest(evaluation_bytes(color, callstack))
}

/// Every colour and hash in `r` is 32 bytes long.
pub open spec fn record_well_sized(r: RecordModel) -> bool {
    match r {
        RecordModel::Lambda(body, caps) => body.len() == 32 && hashes_well_sized(caps),
        _ => true,
    }
}

/// There are at most `u64::MAX` hashes, each 32 bytes long.
pub open spec fn hashes_well_sized(hs: Seq<Seq<u8>>) -> bool {
    &&& hs.len() <= u64::MAX
    &&& forall|j: int| 0 <= j < hs.len() ==> (#[trigger] hs[j]).len() == 32
}

proof fn lemma_le_bytes_len(x: u64, n: nat)
    ensures
        le_bytes(x, n).len() == n,
    decreases n,
{
    if n > 0 {
        lemma_le_bytes_len(x / 256, (n - 1) as nat);
    }
}

proof fn lemma_u64_from_bytes(x: u64, y: u64)
    by (bit_vector)
    requires
        x % 256 == y % 256,
        (x / 256) % 256 == (y / 256) % 256,
        (x / 256 / 256) % 256 == (y / 256 / 256) % 256,
        (x / 256 / 256 / 256) % 256 == (y / 256 / 256 / 256) % 256,
        (x / 256 / 256 / 256 / 256) % 256 == (y / 256 / 256 / 256 / 256) % 256,
        (x / 256 / 256 / 256 / 256 / 256) % 256 == (y / 256 / 256 / 256 / 256 / 256) % 256,
        (x / 256 / 256 / 256 / 256 / 256 / 256) % 256 == (y / 256 / 256 / 256 / 256 / 256 / 256) % 256,
        (x / 256 / 256 / 256 / 256 / 256 / 256 / 256) % 256 == (y / 256 / 256 / 256 / 256 / 256 / 256
            / 256) % 256,
    ensures
        x == y,
{
}

/// Eight little-endian bytes determine a `u64`.
pub proof fn lemma_le_bytes_injective(x: u64, y: u64)
    requires
        le_bytes(x, 8) == le_bytes(y, 8),
    ensures
        x == y,
{
    reveal_with_fuel(le_bytes, 9);
    let bx = le_bytes(x, 8);
    let by = le_bytes(y, 8);
    assert(bx[0] == by[0]);
    assert(bx[1] == by[1]);
    assert(bx[2] == by[2]);
    assert(bx[3] == by[3]);
    assert(bx[4] == by[4]);
    assert(bx[5] == by[5]);
    assert(bx[6] == by[6]);
    assert(bx[7] == by[7]);
    lemma_u64_from_bytes(x, y);
}

proof fn lemma_i64_cast_injective(a: i64, b: i64)
    requires
        a as u64 == b as u64,
    ensures
        a == b,
{
    assert(a as u64 == b as u64 ==> a == b) by (bit_vector);
}

proof fn lemma_concat(hs: Seq<Seq<u8>>)
    requires
        forall|j: int| 0 <= j < hs.len() ==> (#[trigger] hs[j]).len() == 32,
    ensures
        concat(hs).len() == 32 * hs.len(),
        forall|j: int| 0 <= j < hs.len() ==> #[trigger] concat(hs).subrange(32 * j, 32 * j + 32) == hs[j],
    decreases hs.len(),
{
    if hs.len() > 0 {
        let prefix = hs.drop_last();
        assert forall|j: int| 0 <= j < prefix.len() implies (#[trigger] prefix[j]).len() == 32 by {
            assert(prefix[j] == hs[j]);
        }
        lemma_concat(prefix);
        assert forall|j: int| 0 <= j < hs.len() implies #[trigger] concat(hs).subrange(32 * j, 32 * j + 32)
            == hs[j] by {
            if j < prefix.len() {
                assert(concat(hs).subrange(32 * j, 32 * j + 32) =~= concat(prefix).subrange(32 * j, 32 * j + 32));
                assert(prefix[j] == hs[j]);
            } else {
                assert(concat(hs).subrange(32 * j, 32 * j + 32) =~= hs.last());
            }
        }
    }
}

/// The encoding of a list of well-sized hashes determines the list.
pub proof fn lemma_hashes_bytes_injective(a: Seq<Seq<u8>>, b: Seq<Seq<u8>>)
    requires
        hashes_well_sized(a),
        hashes_well_sized(b),
        hashes_bytes(a) == hashes_bytes(b),
    ensures
        a == b,
{
    lemma_le_bytes_len(a.len() as u64, 8);
    lemma_le_bytes_len(b.len() as u64, 8);
    assert(hashes_bytes(a).subrange(0, 8) =~= le_bytes(a.len() as u64, 8));
    assert(hashes_bytes(b).subrange(0, 8) =~= le_bytes(b.len() as u64, 8));
    lemma_le_bytes_injective(a.len() as u64, b.len() as u64);
    assert(a.len() == b.len());
    lemma_concat(a);
    lemma_concat(b);
    assert(concat(a) =~= hashes_bytes(a).subrange(8, hashes_bytes(a).len() as int));
    assert(concat(b) =~= hashes_bytes(b).subrange(8, hashes_bytes(b).len() as int));
    assert forall|j: int| 0 <= j < a.len() implies a[j] == b[j] by {
        assert(concat(a).subrange(32 * j, 32 * j + 32) == a[j]);
        assert(concat(b).subrange(32 * j, 32 * j + 32) == b[j]);
    }
    assert(a =~= b);
}

/// Distinct well-sized records have distinct encodings, so that a record
/// hash stands for one record unless the hash function collides.
pub proof fn lemma_record_bytes_injective(a: RecordModel, b: RecordModel)
    requires
        record_well_sized(a),
        record_well_sized(b),
        record_bytes(a) == record_bytes(b),
    ensures
        a == b,
{
    let ba = record_bytes(a);
    let bb = record_bytes(b);
    assert(ba[0] == bb[0]);
    match (a, b) {
        (RecordModel::Lambda(x, xs), RecordModel::Lambda(y, ys)) => {
            assert(ba.subrange(1, 33) =~= x);
            assert(bb.subrange(1, 33) =~= y);
            assert(ba.subrange(33, ba.len() as int) =~= hashes_bytes(xs));
            assert(bb.subrange(33, bb.len() as int) =~= hashes_bytes(ys));
            lemma_hashes_bytes_injective(xs, ys);
        },
        (RecordModel::Number(Number::Integer(i)), RecordModel::Number(Number::Integer(j))) => {
            lemma_le_bytes_len(i as u64, 8);
            lemma_le_bytes_len(j as u64, 8);
            assert(ba.subrange(1, 9) =~= le_bytes(i as u64, 8));
            assert(bb.subrange(1, 9) =~= le_bytes(j as u64, 8));
            lemma_le_bytes_injective(i as u64, j as u64);
            lemma_i64_cast_injective(i, j);
        },
        (RecordModel::Bool(x), RecordModel::Bool(y)) => {
            assert(ba[1] == bb[1]);
        },
        (RecordModel::Lambda(..), _) => {},
        (RecordModel::Number(..), _) => {},
        (RecordModel::Bool(..), _) => {},
    }
}

/// The encoding of an evaluation determines the expression's color and the
/// hashes of the callstack.
pub proof fn lemma_evaluation_bytes_injective(c1: Seq<u8>, s1: Seq<Seq<u8>>, c2: Seq<u8>, s2: Seq<Seq<u8>>)
    requires
        c1.len() == 32,
        c2.len() == 32,
        hashes_well_sized(s1),
        hashes_well_sized(s2),
        evaluation_bytes(c1, s1) == evaluation_bytes(c2, s2),
    ensures
        c1 == c2,
        s1 == s2,
{
    let b1 = evaluation_bytes(c1, s1);
    let b2 = evaluation_bytes(c2, s2);
    assert(b1.subrange(0, 32) =~= c1);
    assert(b2.subrange(0, 32) =~= c2);
    assert(b1.subrange(32, b1.len() as int) =~= hashes_bytes(s1));
    assert(b2.subrange(32, b2.len() as int) =~= hashes_bytes(s2));
    lemma_hashes_bytes_injective(s1, s2);
}

fn push_hashes(out: &mut Vec<u8>, hs: &Vec<ValueHash>)
    ensures
        final(out)@ == old(out)@ + hashes_bytes(hashes_view(hs@)),
{
    push_le_bytes(out, hs.len() as u64);
    let ghost start = out@;
    let mut i: usize = 0;
    while i < hs.len()
        invariant
            i <= hs@.len(),
            out@ == start + concat(hashes_view(hs@.take(i as int))),
        decreases hs@.len() - i,
    {
        push_slice(out, hs[i].0.as_slice());
        i = i + 1;
        assert(hashes_view(hs@.take(i as int)).drop_last() =~= hashes_view(hs@.take(i - 1)));
    }
    assert(hs@.take(i as int) =~= hs@);
    assert(old(out)@ + hashes_bytes(hashes_view(hs@)) =~= start + concat(hashes_view(hs@)));
}

impl CallstackRecord {
    /// A copy of the record.
    pub fn duplicate(&self) -> (c: CallstackRecord)
        ensures
            c.0@ == self.0@,
    {
        let mut out: Vec<ValueHash> = Vec::new();
        let mut i: usize = 0;
        while i < self.0.len()
            invariant
                i <= self.0@.len(),
                out@ == self.0@.take(i as int),
            decreases self.0@.len() - i,
        {
            out.push(self.0[i]);
            i = i + 1;
            assert(out@ =~= self.0@.take(i as int));
        }
        assert(self.0@.take(i as int) =~= self.0@);
        CallstackRecord(out)
    }
}

impl ValueRecord {
    /// A copy of the record.
    pub fn duplicate(&self) -> (c: ValueRecord)
        ensures
            c@ == self@,
    {
        match self {
            ValueRecord::Lambda(l) => ValueRecord::Lambda(
                LambdaRecord { body: l.body, captures: l.captures.duplicate() },
            ),
            ValueRecord::Number(n) => ValueRecord::Number(*n),
            ValueRecord::Bool(b) => ValueRecord::Bool(*b),
        }
    }

    /// The bytes that the record is hashed from (see `record_bytes`).
    pub fn to_bytes(&self) -> (b: Vec<u8>)
        ensures
            b@ == record_bytes(self@),
    {
        let mut out: Vec<u8> = Vec::new();
        match self {
            ValueRecord::Lambda(l) => {
                TypeDiscriminant::RuntimeLambda.apply(&mut out);
                push_slice(&mut out, l.body.0.as_slice());
                push_hashes(&mut out, &l.captures.0);
                assert(out@ =~= record_bytes(self@));
            },
            ValueRecord::Number(Number::Integer(i)) => {
                TypeDiscriminant::Integer.apply(&mut out);
                push_le_bytes(&mut out, *i as u64);
                assert(out@ =~= record_bytes(self@));
            },
            ValueRecord::Bool(b) => {
                TypeDiscriminant::Bool.apply(&mut out);
                out.push(if *b { 1u8 } else { 0u8 });
                assert(out@ =~= record_bytes(self@));
            },
        }
        out
    }
}

impl ValueHash {
    /// The hash of `record`.
    pub fn from_record(record: &ValueRecord) -> (h: ValueHash)
        ensures
            h.0@ == record_hash(record@),
    {
        let bytes = record.to_bytes();
        ValueHash(blake3_hash(bytes.as_slice()))
    }
}

impl EvalHash {
    /// The hash of evaluating the expression colored `color` on a callstack
    /// whose values have the hashes `callstack`.
    pub fn of_evaluation(color: &Color, callstack: &CallstackRecord) -> (h: EvalHash)
        ensures
            h.0@ == evaluation_hash(color.0@, callstack@),
    {
        let mut out: Vec<u8> = Vec::new();
        push_slice(&mut out, color.0.as_slice());
        push_hashes(&mut out, &callstack.0);
        assert(out@ =~= evaluation_bytes(color.0@, callstack@));
        EvalHash(blake3_hash(out.as_slice()))
    }
}

} // verus!
