//! Semantic hashes ("colors") of expressions.
//!
//! The color of an expression is the BLAKE3 hash of a byte encoding of its
//! shape in which every sub-expression is replaced by that sub-expression's
//! color.
use vstd::prelude::*;
use vstd::string::StringSliceAdditionalSpecFns;

use crate::arena::{Arena, ArenaId};
use crate::generic_lang::{GenericIntrinsic, Param, intrinsic_index};
use crate::mir::{Literal, MirExpr, arena_closed};

verus! {

/// The BLAKE3 hash of `input`.
pub uninterp spec fn blake3_digest(input: Seq<u8>) -> Seq<u8>;

/// Calls `blake3::hash`: the result is the BLAKE3 hash of `input`, which is
/// a function of `input` alone.
#[verifier::external_body]
pub(crate) fn blake3_hash(input: &[u8]) -> (h: [u8; 32])
    ensures
        h@ == blake3_digest(input@),
{
    *blake3::hash(input).as_bytes()
}

/// Whether two hashes hold the same bytes.
pub(crate) fn bytes_equal(a: &[u8; 32], b: &[u8; 32]) -> (eq: bool)
    ensures
        eq == (a@ == b@),
{
    let mut i: usize = 0;
    while i < 32
        invariant
            i <= 32,
            a@.len() == 32,
            b@.len() == 32,
            forall|j: int| 0 <= j < i ==> a@[j] == b@[j],
        decreases 32 - i,
    {
        if a[i] != b[i] {
            return false;
        }
        i = i + 1;
    }
    assert(a@ =~= b@);
    true
}

/// The semantic hash of an expression; colors are ordered by their bytes.
#[derive(Clone, Copy, PartialEq, Eq, PartialOrd, Ord, Hash, Debug)]
pub struct Color(pub [u8; 32]);

impl Color {
    /// The bytes of the hash.
    pub fn as_bytes(&self) -> (b: &[u8; 32])
        ensures
            b@ == self.0@,
    {
        &self.0
    }

    /// Whether both colors hold the same bytes.
    pub fn same(&self, other: &Color) -> (eq: bool)
        ensures
            eq == (self.0@ == other.0@),
    {
        bytes_equal(&self.0, &other.0)
    }
}

/// The bytes of a color, if there is one.
pub open spec fn color_view(c: Option<Color>) -> Option<Seq<u8>> {
    match c {
        Some(c) => Some(c.0@),
        None => None,
    }
}

/// An expression together with its color, once computed.
#[derive(Clone, Copy, Debug)]
pub struct ColoredExpr {
    pub expr: MirExpr,
    pub color: Option<Color>,
}

/// An arena of colored expressions.
pub type ColoredExprArena = Arena<ColoredExpr>;

/// The expressions of an arena.
pub open spec fn exprs_of(a: Seq<ColoredExpr>) -> Seq<MirExpr> {
    Seq::new(a.len(), |i: int| a[i].expr)
}

/// The colors of an arena.
pub open spec fn colors_of(a: Seq<ColoredExpr>) -> Seq<Option<Seq<u8>>> {
    Seq::new(a.len(), |i: int| color_view(a[i].color))
}

/// Every sub-expression of every expression lies in the arena.
pub open spec fn colored_closed(a: Seq<ColoredExpr>) -> bool {
    arena_closed(exprs_of(a))
}

impl ColoredExpr {
    /// The uncolored expression `prev`, taken from an arena that is appended
    /// after `offset` expressions.
    pub fn from_mir(prev: MirExpr, offset: usize) -> (c: ColoredExpr)
        requires
            forall|i: int|
                0 <= i < prev.children().len() ==> (#[trigger] prev.children()[i]).index() + offset
                    <= usize::MAX,
        ensures
            c.color is None,
            c.expr.children().len() == prev.children().len(),
            forall|i: int|
                0 <= i < prev.children().len() ==> (#[trigger] c.expr.children()[i]).index()
                    == prev.children()[i].index() + offset,
            crate::mir::same_shape(prev, c.expr),
    {
        ColoredExpr { expr: prev.shifted(offset), color: None }
    }

    /// The same colored expression, taken from an arena that is appended
    /// after `offset` expressions.
    pub fn convert_inner_idx(self, offset: usize) -> (c: ColoredExpr)
        requires
            forall|i: int|
                0 <= i < self.expr.children().len() ==> (#[trigger] self.expr.children()[i]).index()
                    + offset <= usize::MAX,
        ensures
            c.color == self.color,
            c.expr.children().len() == self.expr.children().len(),
            forall|i: int|
                0 <= i < self.expr.children().len() ==> (#[trigger] c.expr.children()[i]).index()
                    == self.expr.children()[i].index() + offset,
            crate::mir::same_shape(self.expr, c.expr),
    {
        ColoredExpr { expr: self.expr.shifted(offset), color: self.color }
    }

    /// The expression.
    pub fn expr(&self) -> (e: &MirExpr)
        ensures
            *e == self.expr,
    {
        &self.expr
    }

    /// The color, if computed.
    pub fn color(&self) -> (c: Option<Color>)
        ensures
            c == self.color,
    {
        self.color
    }
}

/// What a sub-expression contributes to the color input: its color, or a
/// single zero byte while it has none.
pub open spec fn dep_bytes(colors: Seq<Option<Seq<u8>>>, id: ArenaId) -> Seq<u8> {
    match colors[id.index() as int] {
        Some(c) => c,
        None => seq![0u8],
    }
}

/// The `n` lowest bytes of `x`, least significant first.
pub open spec fn le_bytes(x: u64, n: nat) -> Seq<u8>
    decreases n,
{
    if n == 0 {
        Seq::empty()
    } else {
        seq![(x % 256) as u8] + le_bytes(x / 256, (n - 1) as nat)
    }
}

/// The encoding of a parameter.
pub open spec fn param_input(p: Param) -> Seq<u8> {
    seq![3u8] + le_bytes(p.depth as u64, 8)
}

/// The encoding of the operands of an intrinsic.
pub open spec fn intrinsic_operands_input(
    colors: Seq<Option<Seq<u8>>>,
    i: GenericIntrinsic<ArenaId>,
) -> Seq<u8> {
    match i {
        GenericIntrinsic::LambdaCall(a, b) => dep_bytes(colors, a) + "lambda".spec_bytes()
            + dep_bytes(colors, b) + "arg".spec_bytes(),
        GenericIntrinsic::LessOrEq(a, b) => dep_bytes(colors, a) + "l".spec_bytes() + dep_bytes(
            colors,
            b,
        ) + "r".spec_bytes(),
        GenericIntrinsic::Add(a, b) => dep_bytes(colors, a) + "l".spec_bytes() + dep_bytes(
            colors,
            b,
        ) + "r".spec_bytes(),
        GenericIntrinsic::Subtract(a, b) => dep_bytes(colors, a) + "l".spec_bytes() + dep_bytes(
            colors,
            b,
        ) + "r".spec_bytes(),
        GenericIntrinsic::IfElse(a, b, c) => dep_bytes(colors, a) + "condition".spec_bytes()
            + dep_bytes(colors, b) + "then".spec_bytes() + dep_bytes(colors, c)
            + "else".spec_bytes(),
    }
}

/// The bytes that are hashed to color `e`, given the colors of the arena.
pub open spec fn color_input(colors: Seq<Option<Seq<u8>>>, e: MirExpr) -> Seq<u8> {
    match e {
        MirExpr::LambdaCall(c) => seq![1u8] + dep_bytes(colors, c.lambda) + "lambda".spec_bytes()
            + dep_bytes(colors, c.argument) + "argument".spec_bytes(),
        MirExpr::Lambda(l) => seq![2u8] + param_input(l.param) + dep_bytes(colors, l.body)
            + "body".spec_bytes(),
        MirExpr::Param(p) => param_input(p),
        MirExpr::Intrinsic(i) => seq![4u8, intrinsic_index(i)] + intrinsic_operands_input(
            colors,
            i,
        ),
        MirExpr::Literal(Literal::Integer(n)) => seq![5u8] + le_bytes(n as u64, 8),
    }
}

/// The color that `e` gets, given the colors of the arena.
pub open spec fn color_of(colors: Seq<Option<Seq<u8>>>, e: MirExpr) -> Seq<u8> {
    blake3_digest(color_input(colors, e))
}

pub(crate) fn push_slice(out: &mut Vec<u8>, bytes: &[u8])
    ensures
        final(out)@ == old(out)@ + bytes@,
{
    let mut i: usize = 0;
    while i < bytes.len()
        invariant
            i <= bytes@.len(),
            out@ == old(out)@ + bytes@.subrange(0, i as int),
        decreases bytes@.len() - i,
    {
        out.push(bytes[i]);
        i = i + 1;
        assert(out@ =~= old(out)@ + bytes@.subrange(0, i as int));
    }
    assert(bytes@.subrange(0, bytes@.len() as int) =~= bytes@);
}

pub(crate) fn push_le_bytes(out: &mut Vec<u8>, x: u64)
    ensures
        final(out)@ == old(out)@ + le_bytes(x, 8),
{
    let mut cur = x;
    let mut i: usize = 0;
    while i < 8
        invariant
            i <= 8,
            out@ + le_bytes(cur, (8 - i) as nat) == old(out)@ + le_bytes(x, 8),
        decreases 8 - i,
    {
        let ghost before = out@;
        proof {
            assert(le_bytes(cur, (8 - i) as nat) == seq![(cur % 256) as u8] + le_bytes(
                cur / 256,
                (8 - i - 1) as nat,
            ));
        }
        out.push((cur % 256) as u8);
        cur = cur / 256;
        i = i + 1;
        assert(out@ + le_bytes(cur, (8 - i) as nat) =~= before + (seq![out@.last()] + le_bytes(
            cur,
            (8 - i) as nat,
        )));
    }
    assert(le_bytes(cur, 0) =~= Seq::<u8>::empty());
    assert(out@ =~= out@ + le_bytes(cur, 0));
}

fn push_dep(out: &mut Vec<u8>, arena: &ColoredExprArena, id: ArenaId)
    requires
        arena.contains(id),
    ensures
        final(out)@ == old(out)@ + dep_bytes(colors_of(arena@), id),
{
    match arena.get(id).color {
        Some(c) => {
            let mut i: usize = 0;
            while i < 32
                invariant
                    i <= 32,
                    out@ == old(out)@ + c.0@.subrange(0, i as int),
                decreases 32 - i,
            {
                out.push(c.0[i]);
                i = i + 1;
                assert(out@ =~= old(out)@ + c.0@.subrange(0, i as int));
            }
            assert(c.0@.subrange(0, 32) =~= c.0@);
        },
        None => {
            out.push(0);
        },
    }
}

#[verifier::spinoff_prover]
#[verifier::rlimit(40)]
fn push_intrinsic_operands(out: &mut Vec<u8>, arena: &ColoredExprArena, i: GenericIntrinsic<ArenaId>)
    requires
        forall|k: int| 0 <= k < i.spec_edges().len() ==> (#[trigger] i.spec_edges()[k]).index() < arena@.len(),
    ensures
        final(out)@ == old(out)@ + intrinsic_operands_input(colors_of(arena@), i),
{
    let ghost start = out@;
    let ghost colors = colors_of(arena@);
    match i {
        GenericIntrinsic::LambdaCall(a, b) => {
            assert(i.spec_edges()[0] == a && i.spec_edges()[1] == b);
            push_dep(out, arena, a);
            push_slice(out, "lambda".as_bytes());
            push_dep(out, arena, b);
            push_slice(out, "arg".as_bytes());
        },
        GenericIntrinsic::LessOrEq(a, b) | GenericIntrinsic::Add(a, b) | GenericIntrinsic::Subtract(
            a,
            b,
        ) => {
            assert(i.spec_edges()[0] == a && i.spec_edges()[1] == b);
            push_dep(out, arena, a);
            push_slice(out, "l".as_bytes());
            push_dep(out, arena, b);
            push_slice(out, "r".as_bytes());
        },
        GenericIntrinsic::IfElse(a, b, c) => {
            assert(i.spec_edges()[0] == a && i.spec_edges()[1] == b && i.spec_edges()[2] == c);
            push_dep(out, arena, a);
            push_slice(out, "condition".as_bytes());
            push_dep(out, arena, b);
            push_slice(out, "then".as_bytes());
            push_dep(out, arena, c);
            push_slice(out, "else".as_bytes());
        },
    }
    assert(out@ =~= start + intrinsic_operands_input(colors, i));
}

/// The bytes hashed to color `expr` in `arena` (see `color_input`).
pub fn color_input_bytes(arena: &ColoredExprArena, expr: &MirExpr) -> (b: Vec<u8>)
    requires
        expr.children_below(arena@.len()),
    ensures
        b@ == color_input(colors_of(arena@), *expr),
{
    let ghost colors = colors_of(arena@);
    let mut out: Vec<u8> = Vec::new();
    match *expr {
        MirExpr::LambdaCall(c) => {
            assert(expr.children()[0] == c.lambda);
            assert(expr.children()[1] == c.argument);
            out.push(1);
            push_dep(&mut out, arena, c.lambda);
            push_slice(&mut out, "lambda".as_bytes());
            push_dep(&mut out, arena, c.argument);
            push_slice(&mut out, "argument".as_bytes());
            assert(out@ =~= color_input(colors, *expr));
        },
        MirExpr::Lambda(l) => {
            assert(expr.children()[0] == l.body);
            out.push(2);
            out.push(3);
            push_le_bytes(&mut out, l.param.depth as u64);
            push_dep(&mut out, arena, l.body);
            push_slice(&mut out, "body".as_bytes());
            assert(out@ =~= color_input(colors, *expr));
        },
        MirExpr::Param(p) => {
            out.push(3);
            push_le_bytes(&mut out, p.depth as u64);
            assert(out@ =~= color_input(colors, *expr));
        },
        MirExpr::Intrinsic(i) => {
            assert forall|k: int| 0 <= k < i.spec_edges().len() implies (#[trigger] i.spec_edges()[k]).index() < arena@.len() by {
                assert(expr.children()[k] == i.spec_edges()[k]);
            }
            out.push(4);
            out.push(i.index());
            push_intrinsic_operands(&mut out, arena, i);
            assert(out@ =~= color_input(colors, *expr));
        },
        MirExpr::Literal(Literal::Integer(n)) => {
            out.push(5);
            push_le_bytes(&mut out, n as u64);
            assert(out@ =~= color_input(colors, *expr));
        },
    }
    out
}

/// The color of `expr`, given the colors currently in `arena`.
pub fn compute_color(arena: &ColoredExprArena, expr: &MirExpr) -> (c: Color)
    requires
        expr.children_below(arena@.len()),
    ensures
        c.0@ == color_of(colors_of(arena@), *expr),
{
    let input = color_input_bytes(arena, expr);
    Color(blake3_hash(input.as_slice()))
}

} // verus!
