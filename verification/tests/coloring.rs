use memnix::arena::{Arena, ArenaId};
use memnix::colorable_root::ColorableRootExpr;
use memnix::coloring::{Color, ColoredExpr, ColoredExprArena};
use memnix::generic_lang::{GenericIntrinsic, GenericLambda, GenericLambdaCall, Param};
use memnix::lower::{Ast, BinOp, Bindings, lower};
use memnix::mir::{Literal, MirExpr, RootExpr};
use memnix::nix_syntax::parse_nix;

fn num(n: i64) -> Box<Ast> {
    Box::new(Ast::Integer(n))
}

fn var(n: u64) -> Box<Ast> {
    Box::new(Ast::Ident(n))
}

fn plus(a: Box<Ast>, b: Box<Ast>) -> Box<Ast> {
    Box::new(Ast::BinOp(BinOp::Add, a, b))
}

fn let_in(bindings: Vec<(u64, Box<Ast>)>, body: Box<Ast>) -> Box<Ast> {
    let mut list = Bindings::Nil;
    for (name, value) in bindings.into_iter().rev() {
        list = Bindings::Cons(name, value, Box::new(list));
    }
    Box::new(Ast::LetIn(Box::new(list), body))
}

fn color_of_ast(ast: &Ast) -> Option<Color> {
    let mir = lower(ast).unwrap();
    let arena: ColoredExprArena = Arena::new();
    let mut colored = ColorableRootExpr::from_mir_root(arena, mir);
    colored.color_all();
    colored.root_node().color()
}

fn color_of_mir(exprs: Vec<MirExpr>, root: usize) -> Option<Color> {
    let mir = RootExpr::new(Arena::from_vec(exprs), ArenaId(root));
    let arena: ColoredExprArena = Arena::new();
    let mut colored = ColorableRootExpr::from_mir_root(arena, mir);
    colored.color_all();
    colored.root_node().color()
}

fn color(expr: &str) -> Option<Color> {
    color_of_ast(&parse_nix(expr).unwrap())
}

#[test]
fn basic_coloring() {
    assert_eq!(color("1 + 1"), color("let x = 1; in x + x"));
    assert_ne!(color("1 + 1"), color("1 + 2"));
}

#[test]
fn coloring_of_built_trees() {
    // `1 + 1` and `let x = 1; in x + x`
    let one_plus_one = plus(num(1), num(1));
    let shared = let_in(vec![(0, num(1))], plus(var(0), var(0)));
    let one_plus_two = plus(num(1), num(2));
    assert_eq!(color_of_ast(&one_plus_one), color_of_ast(&shared));
    assert_ne!(color_of_ast(&one_plus_one), color_of_ast(&one_plus_two));
}

#[test]
fn coloring_ignores_sharing_of_subexpressions() {
    let lit = MirExpr::Literal(Literal::Integer(1));
    let separate = vec![lit, lit, MirExpr::Intrinsic(GenericIntrinsic::Add(ArenaId(0), ArenaId(1)))];
    let shared = vec![lit, MirExpr::Intrinsic(GenericIntrinsic::Add(ArenaId(0), ArenaId(0)))];
    assert_eq!(color_of_mir(separate, 2), color_of_mir(shared, 1));
}

#[test]
fn coloring_tells_operators_apart() {
    let lit = MirExpr::Literal(Literal::Integer(3));
    let add = vec![lit, MirExpr::Intrinsic(GenericIntrinsic::Add(ArenaId(0), ArenaId(0)))];
    let sub = vec![lit, MirExpr::Intrinsic(GenericIntrinsic::Subtract(ArenaId(0), ArenaId(0)))];
    assert_ne!(color_of_mir(add, 1), color_of_mir(sub, 1));
}

#[test]
fn coloring_colors_every_expression() {
    // `x: x 5` applied to itself, a lambda with an application in its body
    let exprs = vec![
        MirExpr::Param(Param::new(0)),
        MirExpr::Literal(Literal::Integer(5)),
        MirExpr::LambdaCall(GenericLambdaCall::new(ArenaId(0), ArenaId(1))),
        MirExpr::Lambda(GenericLambda::new(Param::new(0), ArenaId(2))),
    ];
    let mir = RootExpr::new(Arena::from_vec(exprs), ArenaId(3));
    let mut colored = ColorableRootExpr::from_mir_root(Arena::new(), mir);
    colored.color_all();
    let arena = colored.into_arena();
    for id in arena.iter_indices() {
        assert!(arena.get(id).color().is_some());
    }
}

#[test]
fn coloring_is_independent_of_arena_position() {
    let exprs = || vec![
        MirExpr::Literal(Literal::Integer(4)),
        MirExpr::Literal(Literal::Integer(2)),
        MirExpr::Intrinsic(GenericIntrinsic::LessOrEq(ArenaId(0), ArenaId(1))),
    ];
    let alone = color_of_mir(exprs(), 2);
    // the same expression appended after another one
    let mut first = ColorableRootExpr::from_mir_root(
        Arena::new(),
        RootExpr::new(Arena::from_vec(vec![MirExpr::Literal(Literal::Integer(9))]), ArenaId(0)),
    );
    first.color_all();
    let mut second = ColorableRootExpr::from_mir_root(first.into_arena(), RootExpr::new(Arena::from_vec(exprs()), ArenaId(2)));
    assert_eq!(second.root_node_id(), ArenaId(3));
    second.color_all();
    assert_eq!(second.root_node().color(), alone);
}

#[test]
fn cyclic_expressions_get_colors() {
    // `let f = x: f x; in f` lowers to a cycle
    let ast = let_in(
        vec![(0, Box::new(Ast::Lambda(1, Box::new(Ast::Apply(var(0), var(1))))))],
        var(0),
    );
    assert!(color_of_ast(&ast).is_some());
}

#[test]
fn colored_expr_from_mir_shifts_children() {
    let e = ColoredExpr::from_mir(MirExpr::Intrinsic(GenericIntrinsic::Add(ArenaId(0), ArenaId(2))), 5);
    assert!(e.color().is_none());
    match e.expr() {
        MirExpr::Intrinsic(i) => assert_eq!(i.edges(), vec![ArenaId(5), ArenaId(7)]),
        _ => panic!("the shape must stay"),
    }
}
