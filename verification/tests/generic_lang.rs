use memnix::arena::ArenaId;
use memnix::generic_lang::{GenericIntrinsic, GenericLambda, GenericLambdaCall, Param};

fn plus_ten(x: u32) -> u64 {
    x as u64 + 10
}

#[test]
fn lambda_new_depth_and_children() {
    let l = GenericLambda::new(Param::new(3), ArenaId(7));
    assert_eq!(l.depth(), 3);
    assert_eq!(l.param().nesting_depth(), 3);
    assert_eq!(*l.body(), ArenaId(7));
    assert_eq!(l.children(), vec![(ArenaId(7), "body")]);
}

#[test]
fn lambda_convert_inner_maps_body() {
    let l = GenericLambda::new(Param::new(1), 5u32);
    let c = l.convert_inner(plus_ten);
    assert_eq!(c.depth(), 1);
    assert_eq!(*c.body(), 15u64);
}

#[test]
fn lambda_call_edges_in_field_order() {
    let c = GenericLambdaCall::new(ArenaId(1), ArenaId(2));
    assert_eq!(*c.lambda(), ArenaId(1));
    assert_eq!(*c.argument(), ArenaId(2));
    assert_eq!(c.edges(), vec![ArenaId(1), ArenaId(2)]);
    assert_eq!(c.edges_labeled(), vec![(ArenaId(1), "lambda"), (ArenaId(2), "argument")]);
}

#[test]
fn lambda_call_convert_inner_maps_both() {
    let c = GenericLambdaCall::new(1u32, 2u32).convert_inner(plus_ten);
    assert_eq!(*c.lambda(), 11u64);
    assert_eq!(*c.argument(), 12u64);
}

#[test]
fn intrinsic_names_indices_and_labels() {
    let add = GenericIntrinsic::Add(ArenaId(0), ArenaId(1));
    assert_eq!(add.name(), "Add");
    assert_eq!(add.index(), 2);
    assert_eq!(add.edges(), vec![ArenaId(0), ArenaId(1)]);
    assert_eq!(add.edges_labeled(), vec![(ArenaId(0), "l"), (ArenaId(1), "r")]);

    let if_else = GenericIntrinsic::IfElse(ArenaId(3), ArenaId(4), ArenaId(5));
    assert_eq!(if_else.name(), "IfElse");
    assert_eq!(if_else.index(), 4);
    assert_eq!(
        if_else.edges_labeled(),
        vec![(ArenaId(3), "condition"), (ArenaId(4), "then"), (ArenaId(5), "else")]
    );

    let call = GenericIntrinsic::LambdaCall(ArenaId(6), ArenaId(7));
    assert_eq!(call.name(), "LambdaCall");
    assert_eq!(call.index(), 0);
    assert_eq!(call.edges_labeled(), vec![(ArenaId(6), "lambda"), (ArenaId(7), "arg")]);

    assert_eq!(GenericIntrinsic::LessOrEq(0u8, 1u8).index(), 1);
    assert_eq!(GenericIntrinsic::Subtract(0u8, 1u8).name(), "Subtract");
}

#[test]
fn intrinsic_convert_inner_keeps_kind() {
    let c = GenericIntrinsic::Subtract(1u32, 2u32).convert_inner(plus_ten);
    assert_eq!(c.index(), 3);
    assert_eq!(c.edges(), vec![11u64, 12u64]);
}
