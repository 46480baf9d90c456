use memnix::api::{EmptyError, Env, EnvSettings, Number, ValueKind};
use memnix::lower::{Ast, BinOp, Bindings};
use memnix::nix_syntax::{
    NODE_APPLY, NODE_ATTRPATH, NODE_ATTRPATH_VALUE, NODE_BIN_OP, NODE_IDENT, NODE_IDENT_PARAM, NODE_IF_ELSE,
    NODE_LAMBDA, NODE_LET_IN, NODE_LITERAL, NODE_PAREN, NODE_ROOT, TOKEN_ADD, TOKEN_ASSIGN, TOKEN_COLON,
    TOKEN_COMMENT, TOKEN_ELSE, TOKEN_IDENT, TOKEN_IF, TOKEN_IN, TOKEN_INTEGER, TOKEN_LESS_OR_EQ, TOKEN_LET,
    TOKEN_L_PAREN, TOKEN_R_PAREN, TOKEN_SEMICOLON, TOKEN_SUB, TOKEN_THEN, TOKEN_WHITESPACE, parse_nix,
};
use rnix::SyntaxKind;

#[test]
fn syntax_kinds_match_rnix() {
    let kinds = [
        (SyntaxKind::TOKEN_ADD, TOKEN_ADD),
        (SyntaxKind::TOKEN_ASSIGN, TOKEN_ASSIGN),
        (SyntaxKind::TOKEN_COLON, TOKEN_COLON),
        (SyntaxKind::TOKEN_COMMENT, TOKEN_COMMENT),
        (SyntaxKind::TOKEN_ELSE, TOKEN_ELSE),
        (SyntaxKind::TOKEN_IDENT, TOKEN_IDENT),
        (SyntaxKind::TOKEN_IF, TOKEN_IF),
        (SyntaxKind::TOKEN_IN, TOKEN_IN),
        (SyntaxKind::TOKEN_INTEGER, TOKEN_INTEGER),
        (SyntaxKind::TOKEN_L_PAREN, TOKEN_L_PAREN),
        (SyntaxKind::TOKEN_LESS_OR_EQ, TOKEN_LESS_OR_EQ),
        (SyntaxKind::TOKEN_LET, TOKEN_LET),
        (SyntaxKind::TOKEN_R_PAREN, TOKEN_R_PAREN),
        (SyntaxKind::TOKEN_SEMICOLON, TOKEN_SEMICOLON),
        (SyntaxKind::TOKEN_SUB, TOKEN_SUB),
        (SyntaxKind::TOKEN_THEN, TOKEN_THEN),
        (SyntaxKind::TOKEN_WHITESPACE, TOKEN_WHITESPACE),
        (SyntaxKind::NODE_APPLY, NODE_APPLY),
        (SyntaxKind::NODE_ATTRPATH, NODE_ATTRPATH),
        (SyntaxKind::NODE_ATTRPATH_VALUE, NODE_ATTRPATH_VALUE),
        (SyntaxKind::NODE_BIN_OP, NODE_BIN_OP),
        (SyntaxKind::NODE_IDENT, NODE_IDENT),
        (SyntaxKind::NODE_IDENT_PARAM, NODE_IDENT_PARAM),
        (SyntaxKind::NODE_IF_ELSE, NODE_IF_ELSE),
        (SyntaxKind::NODE_LAMBDA, NODE_LAMBDA),
        (SyntaxKind::NODE_LET_IN, NODE_LET_IN),
        (SyntaxKind::NODE_LITERAL, NODE_LITERAL),
        (SyntaxKind::NODE_PAREN, NODE_PAREN),
        (SyntaxKind::NODE_ROOT, NODE_ROOT),
    ];
    for (kind, number) in kinds {
        assert_eq!(kind as u16, number);
    }
}

#[test]
fn parse_nix_reads_arithmetic() {
    match parse_nix("1 + 2 - 3") {
        Some(Ast::BinOp(BinOp::Subtract, l, r)) => {
            assert!(matches!(*l, Ast::BinOp(BinOp::Add, _, _)));
            assert!(matches!(*r, Ast::Integer(3)));
        },
        _ => panic!("expected a subtraction"),
    }
}

#[test]
fn parse_nix_reads_lambdas_and_lets() {
    match parse_nix("let f = x: x; in f 4") {
        Some(Ast::LetIn(bs, body)) => {
            match *bs {
                Bindings::Cons(f, value, rest) => {
                    assert!(matches!(*rest, Bindings::Nil));
                    match *value {
                        Ast::Lambda(x, b) => assert!(matches!(*b, Ast::Ident(y) if y == x)),
                        _ => panic!("expected a lambda"),
                    }
                    match *body {
                        Ast::Apply(g, a) => {
                            assert!(matches!(*g, Ast::Ident(h) if h == f));
                            assert!(matches!(*a, Ast::Integer(4)));
                        },
                        _ => panic!("expected an application"),
                    }
                },
                _ => panic!("expected a binding"),
            }
        },
        _ => panic!("expected a let"),
    }
}

#[test]
fn parse_nix_refuses_other_syntax() {
    assert!(parse_nix("\"a string\"").is_none());
    assert!(parse_nix("1 +").is_none());
    assert!(parse_nix("99999999999999999999").is_none());
}

#[test]
fn env_eval_raw_adds() {
    let mut env = Env::new(EnvSettings::new());
    let res = env.eval_raw("1 + 1").unwrap();
    assert_eq!(res.kind(), ValueKind::Number(Number::Integer(2)));
}

#[test]
fn env_eval_raw_evaluates_programs() {
    let mut env = Env::new(EnvSettings::new());
    let kind = |env: &mut Env, text: &str| env.eval_raw(text).unwrap().kind();
    assert_eq!(kind(&mut env, "let x = 1; in x + x"), ValueKind::Number(Number::Integer(2)));
    assert_eq!(kind(&mut env, "(x: x - 1) 5"), ValueKind::Number(Number::Integer(4)));
    assert_eq!(kind(&mut env, "if 1 <= 2 then 10 else 20"), ValueKind::Number(Number::Integer(10)));
    assert_eq!(
        kind(&mut env, "let fib = x: if x <= 1 then x else fib (x - 1) + fib (x - 2); in fib 10"),
        ValueKind::Number(Number::Integer(55))
    );
}

#[test]
fn env_eval_raw_fails_on_bad_text() {
    let mut env = Env::new(EnvSettings::new());
    assert!(matches!(env.eval_raw("1 +"), Err(EmptyError)));
    assert!(matches!(env.eval_raw("y"), Err(EmptyError)));
    assert_eq!(env.arena().size(), 0);
}
