//! Reading nix source text: rnix parses it, and the syntax tree it builds,
//! walked as a sequence of events, is turned into an `Ast`.
use vstd::prelude::*;

use rnix::{NodeOrToken, WalkEvent};

use crate::lower::{Ast, BinOp, Bindings};

verus! {

/// The kinds of rnix's syntax tree that the syntax tree of `Ast` uses, by
/// their `u16` discriminants in `rnix::SyntaxKind`.
pub const TOKEN_ADD: u16 = 0;
pub const TOKEN_ASSIGN: u16 = 2;
pub const TOKEN_COLON: u16 = 5;
pub const TOKEN_COMMENT: u16 = 7;
pub const TOKEN_ELSE: u16 = 13;
pub const TOKEN_IDENT: u16 = 17;
pub const TOKEN_IF: u16 = 18;
pub const TOKEN_IN: u16 = 20;
pub const TOKEN_INTEGER: u16 = 22;
pub const TOKEN_L_PAREN: u16 = 28;
pub const TOKEN_LESS_OR_EQ: u16 = 30;
pub const TOKEN_LET: u16 = 31;
pub const TOKEN_R_PAREN: u16 = 47;
pub const TOKEN_SEMICOLON: u16 = 49;
pub const TOKEN_SUB: u16 = 53;
pub const TOKEN_THEN: u16 = 54;
pub const TOKEN_WHITESPACE: u16 = 57;
pub const NODE_APPLY: u16 = 59;
pub const NODE_ATTRPATH: u16 = 62;
pub const NODE_ATTRPATH_VALUE: u16 = 63;
pub const NODE_BIN_OP: u16 = 64;
pub const NODE_IDENT: u16 = 69;
pub const NODE_IDENT_PARAM: u16 = 70;
pub const NODE_IF_ELSE: u16 = 71;
pub const NODE_LAMBDA: u16 = 75;
pub const NODE_LET_IN: u16 = 77;
pub const NODE_LITERAL: u16 = 79;
pub const NODE_PAREN: u16 = 80;
pub const NODE_ROOT: u16 = 88;

/// An event of a walk of a syntax tree, in document order.
#[derive(Clone, Debug)]
pub enum SyntaxEvent {
    /// Entering a node of this kind.
    Enter(u16),
    /// Leaving the node entered last.
    Leave,
    /// A token of this kind, with its text.
    Token(u16, Vec<u8>),
    /// The end of a token.
    TokenEnd,
}

/// The events of the syntax tree that rnix's parser builds for `input`, or
/// `None` where it reports a parse error.
pub uninterp spec fn nix_events(input: Seq<char>) -> Option<Seq<SyntaxEvent>>;

/// Calls `rnix::Root::parse`: `None` where rnix reports an error, else the
/// events of a preorder walk of the syntax tree (`preorder_with_tokens`),
/// each kind by its discriminant and each token with its text. The result
/// is `nix_events` of the input.
#[verifier::external_body]
fn parse_events(input: &str) -> (r: Option<Vec<SyntaxEvent>>)
    ensures
        match r {
            Some(v) => nix_events(input@) == Some(v@),
            None => nix_events(input@) is None,
        },
{
    let parse = rnix::Root::parse(input);
    if !parse.errors().is_empty() {
        return None;
    }
    Some(parse.syntax().preorder_with_tokens().map(|event| match event {
        WalkEvent::Enter(NodeOrToken::Node(n)) => SyntaxEvent::Enter(n.kind() as u16),
        WalkEvent::Leave(NodeOrToken::Node(_)) => SyntaxEvent::Leave,
        WalkEvent::Enter(NodeOrToken::Token(t)) => SyntaxEvent::Token(t.kind() as u16, t.text().as_bytes().to_vec()),
        WalkEvent::Leave(NodeOrToken::Token(_)) => SyntaxEvent::TokenEnd,
    }).collect())
}

/// `e` is a token of kind `k`.
pub open spec fn is_token(e: SyntaxEvent, k: u16) -> bool {
    match e {
        SyntaxEvent::Token(k2, _) => k2 == k,
        _ => false,
    }
}

/// Whitespace, comments and token ends, which the syntax of `Ast` ignores.
pub open spec fn is_trivia(e: SyntaxEvent) -> bool {
    match e {
        SyntaxEvent::Token(k, _) => k == TOKEN_WHITESPACE || k == TOKEN_COMMENT,
        SyntaxEvent::TokenEnd => true,
        _ => false,
    }
}

/// The first position from `p` on that is not trivia.
pub open spec fn skip(ev: Seq<SyntaxEvent>, p: int) -> int
    decreases ev.len() - p,
{
    if 0 <= p < ev.len() && is_trivia(ev[p]) {
        skip(ev, p + 1)
    } else {
        p
    }
}

/// Skipping trivia, a token of kind `k` follows `p`: the position after it.
pub open spec fn token_after(ev: Seq<SyntaxEvent>, p: int, k: u16) -> Option<int> {
    let q = skip(ev, p);
    if 0 <= q < ev.len() && is_token(ev[q], k) {
        Some(q + 1)
    } else {
        None
    }
}

/// Skipping trivia, a node of kind `k` is entered after `p`: its position.
pub open spec fn enter_after(ev: Seq<SyntaxEvent>, p: int, k: u16) -> Option<int> {
    let q = skip(ev, p);
    if 0 <= q < ev.len() && ev[q] == SyntaxEvent::Enter(k) {
        Some(q)
    } else {
        None
    }
}

/// Skipping trivia, a node is left after `p`: the position after that.
pub open spec fn leave_after(ev: Seq<SyntaxEvent>, p: int) -> Option<int> {
    let q = skip(ev, p);
    if 0 <= q < ev.len() && ev[q] is Leave {
        Some(q + 1)
    } else {
        None
    }
}

/// An identifier node after `p`: its name and the position after it.
pub open spec fn ident_after(ev: Seq<SyntaxEvent>, p: int) -> Option<(Seq<u8>, int)> {
    match enter_after(ev, p, NODE_IDENT) {
        Some(q) => {
            let t = skip(ev, q + 1);
            if 0 <= t < ev.len() && is_token(ev[t], TOKEN_IDENT) {
                match leave_after(ev, t + 1) {
                    Some(e) => Some((ev[t]->Token_1@, e)),
                    None => None,
                }
            } else {
                None
            }
        },
        None => None,
    }
}

/// The number that a name stands for: the position of the first
/// identifier token of the events with that text.
pub open spec fn name_id(ev: Seq<SyntaxEvent>, name: Seq<u8>) -> int
    decreases ev.len(),
{
    if ev.len() == 0 {
        0
    } else if name_id(ev.drop_last(), name) < ev.len() - 1 {
        name_id(ev.drop_last(), name)
    } else if is_token(ev.last(), TOKEN_IDENT) && ev.last()->Token_1@ == name {
        ev.len() - 1
    } else {
        ev.len() as int
    }
}

/// `e` is an identifier token with text `name`.
pub open spec fn ident_named(e: SyntaxEvent, name: Seq<u8>) -> bool {
    e matches SyntaxEvent::Token(k, text) && k == TOKEN_IDENT && text@ == name
}

/// A name's number is the position of the first identifier token with
/// exactly that text, or the number of events where no identifier has it.
pub proof fn lemma_name_id_first(ev: Seq<SyntaxEvent>, name: Seq<u8>)
    ensures
        0 <= name_id(ev, name) <= ev.len(),
        name_id(ev, name) < ev.len() ==> ident_named(ev[name_id(ev, name)], name),
        forall|j: int| 0 <= j < ev.len() && ident_named(#[trigger] ev[j], name) ==> name_id(ev, name) <= j,
    decreases ev.len(),
{
    if ev.len() > 0 {
        let prev = ev.drop_last();
        lemma_name_id_first(prev, name);
        assert forall|j: int| 0 <= j < ev.len() && ident_named(#[trigger] ev[j], name) implies name_id(
            ev,
            name,
        ) <= j by {
            if j < ev.len() - 1 {
                assert(prev[j] == ev[j]);
            }
        }
        if name_id(prev, name) < prev.len() {
            assert(prev[name_id(prev, name)] == ev[name_id(prev, name)]);
        }
    }
}

/// Identifiers name by their whole text: two names get the same number
/// only where they are the same text, so distinct identifiers stand for
/// distinct variables.
pub proof fn lemma_name_id_distinct(ev: Seq<SyntaxEvent>, a: Seq<u8>, b: Seq<u8>)
    requires
        name_id(ev, a) < ev.len(),
        name_id(ev, a) == name_id(ev, b),
    ensures
        a == b,
{
    lemma_name_id_first(ev, a);
    lemma_name_id_first(ev, b);
}

/// An identifier token whose text no earlier identifier has gets its own
/// position as its number.
pub proof fn lemma_name_id_fresh(ev: Seq<SyntaxEvent>, t: int)
    requires
        0 <= t < ev.len(),
        ev[t] matches SyntaxEvent::Token(k, _) && k == TOKEN_IDENT,
        forall|j: int| 0 <= j < t ==> !ident_named(#[trigger] ev[j], ev[t]->Token_1@),
    ensures
        name_id(ev, ev[t]->Token_1@) == t,
{
    let name = ev[t]->Token_1@;
    lemma_name_id_first(ev, name);
    assert(ident_named(ev[t], name));
    if name_id(ev, name) < t {
        assert(ident_named(ev[name_id(ev, name)], name));
    }
}

/// The value of the decimal digits `s`.
pub open spec fn digits_value(s: Seq<u8>) -> int
    decreases s.len(),
{
    if s.len() == 0 {
        0
    } else {
        digits_value(s.drop_last()) * 10 + (s.last() - 48)
    }
}

/// `s` is a decimal number that fits in an `i64`.
pub open spec fn is_integer(s: Seq<u8>) -> bool {
    &&& s.len() > 0
    &&& forall|i: int| 0 <= i < s.len() ==> 48 <= #[trigger] s[i] <= 57
    &&& digits_value(s) <= i64::MAX
}

/// The binary operator of a token kind.
pub open spec fn binop_of(k: u16) -> Option<BinOp> {
    if k == TOKEN_ADD {
        Some(BinOp::Add)
    } else if k == TOKEN_SUB {
        Some(BinOp::Subtract)
    } else if k == TOKEN_LESS_OR_EQ {
        Some(BinOp::LessOrEq)
    } else {
        None
    }
}

/// The expression whose node starts after `from`, skipping trivia, within
/// the node entered at `parent`: its `Ast` and the position after it.
pub open spec fn child(ev: Seq<SyntaxEvent>, parent: int, from: int) -> Option<(Ast, int)>
    decreases ev.len() - parent, 1nat, 0nat,
{
    let q = skip(ev, from);
    if parent < q <= ev.len() {
        expr_at(ev, q)
    } else {
        None
    }
}

/// The `Ast` of the node entered at `p` and the position after it, or
/// `None` where the node is not one of the syntax of `Ast`: the root and
/// parentheses stand for what they hold, an integer literal for its number,
/// an identifier for its name (see `name_id`), and lambdas with a plain
/// parameter, applications, `+`, `-` and `<=`, conditionals and `let`
/// expressions for themselves.
pub open spec fn expr_at(ev: Seq<SyntaxEvent>, p: int) -> Option<(Ast, int)>
    decreases ev.len() - p, 2nat, 0nat,
{
    if !(0 <= p < ev.len()) {
        None
    } else {
        match ev[p] {
            SyntaxEvent::Enter(k) => {
                if k == NODE_ROOT {
                    match child(ev, p, p + 1) {
                        Some((a, q)) => match leave_after(ev, q) {
                            Some(e) => Some((a, e)),
                            None => None,
                        },
                        None => None,
                    }
                } else if k == NODE_PAREN {
                    match token_after(ev, p + 1, TOKEN_L_PAREN) {
                        Some(q1) => match child(ev, p, q1) {
                            Some((a, q2)) => match token_after(ev, q2, TOKEN_R_PAREN) {
                                Some(q3) => match leave_after(ev, q3) {
                                    Some(e) => Some((a, e)),
                                    None => None,
                                },
                                None => None,
                            },
                            None => None,
                        },
                        None => None,
                    }
                } else if k == NODE_LITERAL {
                    let t = skip(ev, p + 1);
                    if 0 <= t < ev.len() && is_token(ev[t], TOKEN_INTEGER) && is_integer(ev[t]->Token_1@) {
                        match leave_after(ev, t + 1) {
                            Some(e) => Some((Ast::Integer(digits_value(ev[t]->Token_1@) as i64), e)),
                            None => None,
                        }
                    } else {
                        None
                    }
                } else if k == NODE_IDENT {
                    match ident_after(ev, p) {
                        Some((name, e)) => Some((Ast::Ident(name_id(ev, name) as u64), e)),
                        None => None,
                    }
                } else if k == NODE_LAMBDA {
                    match enter_after(ev, p + 1, NODE_IDENT_PARAM) {
                        Some(q0) => match ident_after(ev, q0 + 1) {
                            Some((name, q1)) => match leave_after(ev, q1) {
                                Some(q2) => match token_after(ev, q2, TOKEN_COLON) {
                                    Some(q3) => match child(ev, p, q3) {
                                        Some((body, q4)) => match leave_after(ev, q4) {
                                            Some(e) => Some((Ast::Lambda(name_id(ev, name) as u64, Box::new(body)), e)),
                                            None => None,
                                        },
                                        None => None,
                                    },
                                    None => None,
                                },
                                None => None,
                            },
                            None => None,
                        },
                        None => None,
                    }
                } else if k == NODE_APPLY {
                    match child(ev, p, p + 1) {
                        Some((f, q1)) => match child(ev, p, q1) {
                            Some((a, q2)) => match leave_after(ev, q2) {
                                Some(e) => Some((Ast::Apply(Box::new(f), Box::new(a)), e)),
                                None => None,
                            },
                            None => None,
                        },
                        None => None,
                    }
                } else if k == NODE_BIN_OP {
                    match child(ev, p, p + 1) {
                        Some((l, q1)) => {
                            let t = skip(ev, q1);
                            if 0 <= t < ev.len() && ev[t] is Token && binop_of(ev[t]->Token_0) is Some {
                                match child(ev, p, t + 1) {
                                    Some((r, q2)) => match leave_after(ev, q2) {
                                        Some(e) => Some(
                                            (
                                                Ast::BinOp(binop_of(ev[t]->Token_0)->Some_0, Box::new(l), Box::new(r)),
                                                e,
                                            ),
                                        ),
                                        None => None,
                                    },
                                    None => None,
                                }
                            } else {
                                None
                            }
                        },
                        None => None,
                    }
                } else if k == NODE_IF_ELSE {
                    match token_after(ev, p + 1, TOKEN_IF) {
                        Some(q0) => match child(ev, p, q0) {
                            Some((c, q1)) => match token_after(ev, q1, TOKEN_THEN) {
                                Some(q2) => match child(ev, p, q2) {
                                    Some((t, q3)) => match token_after(ev, q3, TOKEN_ELSE) {
                                        Some(q4) => match child(ev, p, q4) {
                                            Some((f, q5)) => match leave_after(ev, q5) {
                                                Some(e) => Some(
                                                    (Ast::IfElse(Box::new(c), Box::new(t), Box::new(f)), e),
                                                ),
                                                None => None,
                                            },
                                            None => None,
                                        },
                                        None => None,
                                    },
                                    None => None,
                                },
                                None => None,
                            },
                            None => None,
                        },
                        None => None,
                    }
                } else if k == NODE_LET_IN {
                    match token_after(ev, p + 1, TOKEN_LET) {
                        Some(q0) => match bindings_at(ev, p, q0) {
                            Some((bs, q1)) => match child(ev, p, q1) {
                                Some((body, q2)) => match leave_after(ev, q2) {
                                    Some(e) => Some((Ast::LetIn(Box::new(bs), Box::new(body)), e)),
                                    None => None,
                                },
                                None => None,
                            },
                            None => None,
                        },
                        None => None,
                    }
                } else {
                    None
                }
            },
            _ => None,
        }
    }
}

/// The bindings of the `let` entered at `parent`, from `from` up to its
/// `in` token, and the position after that token.
pub open spec fn bindings_at(ev: Seq<SyntaxEvent>, parent: int, from: int) -> Option<(Bindings, int)>
    decreases ev.len() - parent, 1nat, ev.len() - from,
{
    match token_after(ev, from, TOKEN_IN) {
        Some(e) => Some((Bindings::Nil, e)),
        None => match enter_after(ev, from, NODE_ATTRPATH_VALUE) {
            Some(a) => if parent < a <= ev.len() {
                match enter_after(ev, a + 1, NODE_ATTRPATH) {
                    Some(q0) => match ident_after(ev, q0 + 1) {
                        Some((name, q1)) => match leave_after(ev, q1) {
                            Some(q2) => match token_after(ev, q2, TOKEN_ASSIGN) {
                                Some(q3) => match child(ev, a, q3) {
                                    Some((x, q4)) => match token_after(ev, q4, TOKEN_SEMICOLON) {
                                        Some(q5) => match leave_after(ev, q5) {
                                            Some(q6) => if from < q6 <= ev.len() {
                                                match bindings_at(ev, parent, q6) {
                                                    Some((rest, e)) => Some(
                                                        (
                                                            Bindings::Cons(
                                                                name_id(ev, name) as u64,
                                                                Box::new(x),
                                                                Box::new(rest),
                                                            ),
                                                            e,
                                                        ),
                                                    ),
                                                    None => None,
                                                }
                                            } else {
                                                None
                                            },
                                            None => None,
                                        },
                                        None => None,
                                    },
                                    None => None,
                                },
                                None => None,
                            },
                            None => None,
                        },
                        None => None,
                    },
                    None => None,
                }
            } else {
                None
            },
            None => None,
        },
    }
}

/// The `Ast` of nix source text `input`: the root node of the syntax tree
/// that rnix builds for it, where rnix reports no error and the tree is of
/// the syntax of `Ast` (see `expr_at`).
pub open spec fn nix_syntax(input: Seq<char>) -> Option<Ast> {
    match nix_events(input) {
        Some(ev) => match expr_at(ev, 0) {
            Some((a, e)) => if ev.len() > 0 && ev[0] == SyntaxEvent::Enter(NODE_ROOT) && e == ev.len() {
                Some(a)
            } else {
                None
            },
            None => None,
        },
        None => None,
    }
}

/// `v` is a token of kind `k`.
fn token_is(v: &SyntaxEvent, k: u16) -> (b: bool)
    ensures
        b == is_token(*v, k),
{
    match v {
        SyntaxEvent::Token(k2, _) => *k2 == k,
        _ => false,
    }
}

fn skip_trivia(ev: &Vec<SyntaxEvent>, p: usize) -> (q: usize)
    requires
        p <= ev@.len(),
    ensures
        q == skip(ev@, p as int),
        p <= q <= ev@.len(),
{
    let mut i = p;
    while i < ev.len()
        invariant
            p <= i <= ev@.len(),
            skip(ev@, i as int) == skip(ev@, p as int),
        decreases ev@.len() - i,
    {
        let trivia = match &ev[i] {
            SyntaxEvent::Token(k, _) => *k == TOKEN_WHITESPACE || *k == TOKEN_COMMENT,
            SyntaxEvent::TokenEnd => true,
            _ => false,
        };
        if !trivia {
            return i;
        }
        i = i + 1;
    }
    i
}

fn token_after_e(ev: &Vec<SyntaxEvent>, p: usize, k: u16) -> (r: Option<usize>)
    requires
        p <= ev@.len(),
    ensures
        match r {
            Some(q) => token_after(ev@, p as int, k) == Some(q as int) && q <= ev@.len(),
            None => token_after(ev@, p as int, k) is None,
        },
{
    let q = skip_trivia(ev, p);
    if q < ev.len() && token_is(&ev[q], k) {
        Some(q + 1)
    } else {
        None
    }
}

fn enter_after_e(ev: &Vec<SyntaxEvent>, p: usize, k: u16) -> (r: Option<usize>)
    requires
        p <= ev@.len(),
    ensures
        match r {
            Some(q) => enter_after(ev@, p as int, k) == Some(q as int) && q < ev@.len(),
            None => enter_after(ev@, p as int, k) is None,
        },
{
    let q = skip_trivia(ev, p);
    if q < ev.len() {
        match &ev[q] {
            SyntaxEvent::Enter(k2) => {
                if *k2 == k {
                    return Some(q);
                }
            },
            _ => {},
        }
    }
    None
}

fn leave_after_e(ev: &Vec<SyntaxEvent>, p: usize) -> (r: Option<usize>)
    requires
        p <= ev@.len(),
    ensures
        match r {
            Some(q) => leave_after(ev@, p as int) == Some(q as int) && q <= ev@.len(),
            None => leave_after(ev@, p as int) is None,
        },
{
    let q = skip_trivia(ev, p);
    if q < ev.len() {
        match &ev[q] {
            SyntaxEvent::Leave => {
                return Some(q + 1);
            },
            _ => {},
        }
    }
    None
}

/// An identifier node after `p`: the position of its token and the
/// position after the node.
fn ident_after_e(ev: &Vec<SyntaxEvent>, p: usize) -> (r: Option<(usize, usize)>)
    requires
        p <= ev@.len(),
    ensures
        match r {
            Some((t, e)) => t < ev@.len() && ev@[t as int] is Token && ident_after(ev@, p as int) == Some(
                (ev@[t as int]->Token_1@, e as int),
            ) && e <= ev@.len(),
            None => ident_after(ev@, p as int) is None,
        },
{
    let n = ev.len();
    let q = match enter_after_e(ev, p, NODE_IDENT) {
        Some(q) => q,
        None => return None,
    };
    let t = skip_trivia(ev, q + 1);
    if t < ev.len() && token_is(&ev[t], TOKEN_IDENT) {
        match leave_after_e(ev, t + 1) {
            Some(e) => Some((t, e)),
            None => None,
        }
    } else {
        None
    }
}

fn bytes_eq(a: &Vec<u8>, b: &Vec<u8>) -> (r: bool)
    ensures
        r == (a@ == b@),
{
    if a.len() != b.len() {
        return false;
    }
    let mut i: usize = 0;
    while i < a.len()
        invariant
            a@.len() == b@.len(),
            i <= a@.len(),
            forall|j: int| 0 <= j < i ==> a@[j] == b@[j],
        decreases a@.len() - i,
    {
        if a[i] != b[i] {
            return false;
        }
        i = i + 1;
    }
    assert(a@ =~= b@);
    true
}

proof fn lemma_name_id_found(ev: Seq<SyntaxEvent>, name: Seq<u8>, k: int, m: int)
    requires
        0 <= k < m <= ev.len(),
        name_id(ev.take(k + 1), name) == k,
    ensures
        name_id(ev.take(m), name) == k,
    decreases m - k,
{
    if m > k + 1 {
        lemma_name_id_found(ev, name, k, m - 1);
        assert(ev.take(m).drop_last() =~= ev.take(m - 1));
    }
}

/// The number of the name of the identifier token at `t` (see `name_id`).
fn name_id_e(ev: &Vec<SyntaxEvent>, t: usize) -> (r: u64)
    requires
        t < ev@.len(),
        ev@[t as int] is Token,
    ensures
        r == name_id(ev@, ev@[t as int]->Token_1@) as u64,
{
    let name = match &ev[t] {
        SyntaxEvent::Token(_, text) => text,
        _ => {
            proof {
                assert(false);
            }
            return 0;
        },
    };
    let ghost nm = name@;
    let mut i: usize = 0;
    assert(ev@.take(0) =~= Seq::<SyntaxEvent>::empty());
    while i < ev.len()
        invariant
            i <= ev@.len(),
            nm == ev@[t as int]->Token_1@,
            name@ == nm,
            name_id(ev@.take(i as int), nm) == i,
        decreases ev@.len() - i,
    {
        assert(ev@.take(i + 1).drop_last() =~= ev@.take(i as int));
        assert(ev@.take(i + 1).last() == ev@[i as int]);
        let hit = match &ev[i] {
            SyntaxEvent::Token(k, text) => *k == TOKEN_IDENT && bytes_eq(text, name),
            _ => false,
        };
        if hit {
            proof {
                lemma_name_id_found(ev@, nm, i as int, ev@.len() as int);
                assert(ev@.take(ev@.len() as int) =~= ev@);
            }
            return i as u64;
        }
        i = i + 1;
    }
    assert(ev@.take(i as int) =~= ev@);
    i as u64
}

proof fn lemma_digits_grow(s: Seq<u8>, i: int, j: int)
    requires
        0 <= i <= j <= s.len(),
        forall|k: int| 0 <= k < s.len() ==> 48 <= #[trigger] s[k] <= 57,
    ensures
        digits_value(s.take(i)) <= digits_value(s.take(j)),
        0 <= digits_value(s.take(i)),
    decreases j,
{
    if j > 0 {
        assert(s.take(j).drop_last() =~= s.take(j - 1));
        if i < j {
            lemma_digits_grow(s, i, j - 1);
        }
        lemma_digits_grow(s, 0, j - 1);
        assert(s.take(j).last() == s[j - 1]);
    } else {
        assert(s.take(0) =~= Seq::<u8>::empty());
    }
    if i > 0 {
        lemma_digits_grow(s, 0, i - 1);
        assert(s.take(i).drop_last() =~= s.take(i - 1));
        assert(s.take(i).last() == s[i - 1]);
    } else {
        assert(s.take(0) =~= Seq::<u8>::empty());
    }
}

/// The number that the decimal digits `text` stand for, where they are a
/// decimal number that fits in an `i64`.
fn integer_value(text: &Vec<u8>) -> (r: Option<i64>)
    ensures
        match r {
            Some(v) => is_integer(text@) && v == digits_value(text@),
            None => !is_integer(text@),
        },
{
    if text.len() == 0 {
        return None;
    }
    let mut v: i64 = 0;
    let mut i: usize = 0;
    assert(text@.take(0) =~= Seq::<u8>::empty());
    while i < text.len()
        invariant
            0 < text@.len(),
            i <= text@.len(),
            forall|k: int| 0 <= k < i ==> 48 <= #[trigger] text@[k] <= 57,
            v == digits_value(text@.take(i as int)),
            0 <= v <= i64::MAX,
        decreases text@.len() - i,
    {
        let c = text[i];
        if c < 48 || c > 57 {
            return None;
        }
        let d = (c - 48) as i64;
        assert(text@.take(i + 1).drop_last() =~= text@.take(i as int));
        assert(text@.take(i + 1).last() == c);
        if v > (i64::MAX - d) / 10 {
            proof {
                assert(v * 10 + d > i64::MAX) by (nonlinear_arith)
                    requires
                        v > (i64::MAX - d) / 10,
                        0 <= d <= 9,
                ;
                if forall|k: int| 0 <= k < text@.len() ==> 48 <= #[trigger] text@[k] <= 57 {
                    lemma_digits_grow(text@, i + 1, text@.len() as int);
                    assert(text@.take(text@.len() as int) =~= text@);
                }
            }
            return None;
        }
        proof {
            assert(v * 10 + d <= i64::MAX) by (nonlinear_arith)
                requires
                    v <= (i64::MAX - d) / 10,
                    0 <= d <= 9,
                    0 <= v,
            ;
        }
        v = v * 10 + d;
        i = i + 1;
    }
    assert(text@.take(i as int) =~= text@);
    Some(v)
}

fn binop_e(k: u16) -> (r: Option<BinOp>)
    ensures
        r == binop_of(k),
{
    if k == TOKEN_ADD {
        Some(BinOp::Add)
    } else if k == TOKEN_SUB {
        Some(BinOp::Subtract)
    } else if k == TOKEN_LESS_OR_EQ {
        Some(BinOp::LessOrEq)
    } else {
        None
    }
}

fn child_e(ev: &Vec<SyntaxEvent>, parent: usize, from: usize) -> (r: Option<(Ast, usize)>)
    requires
        from <= ev@.len(),
    ensures
        match r {
            Some((a, e)) => child(ev@, parent as int, from as int) == Some((a, e as int)) && e <= ev@.len(),
            None => child(ev@, parent as int, from as int) is None,
        },
    decreases ev@.len() - parent, 1nat, 0nat,
{
    let q = skip_trivia(ev, from);
    if parent < q && q <= ev.len() {
        expr_at_e(ev, q)
    } else {
        None
    }
}

/// The `Ast` of the node entered at `p` (see `expr_at`).
fn expr_at_e(ev: &Vec<SyntaxEvent>, p: usize) -> (r: Option<(Ast, usize)>)
    ensures
        match r {
            Some((a, e)) => expr_at(ev@, p as int) == Some((a, e as int)) && e <= ev@.len(),
            None => expr_at(ev@, p as int) is None,
        },
    decreases ev@.len() - p, 2nat, 0nat,
{
    let n = ev.len();
    if p >= n {
        return None;
    }
    let k = match &ev[p] {
        SyntaxEvent::Enter(k) => *k,
        _ => return None,
    };
    if k == NODE_ROOT {
        let (a, q) = match child_e(ev, p, p + 1) {
            Some(x) => x,
            None => return None,
        };
        match leave_after_e(ev, q) {
            Some(e) => Some((a, e)),
            None => None,
        }
    } else if k == NODE_PAREN {
        let q1 = match token_after_e(ev, p + 1, TOKEN_L_PAREN) {
            Some(q) => q,
            None => return None,
        };
        let (a, q2) = match child_e(ev, p, q1) {
            Some(x) => x,
            None => return None,
        };
        let q3 = match token_after_e(ev, q2, TOKEN_R_PAREN) {
            Some(q) => q,
            None => return None,
        };
        match leave_after_e(ev, q3) {
            Some(e) => Some((a, e)),
            None => None,
        }
    } else if k == NODE_LITERAL {
        let t = skip_trivia(ev, p + 1);
        if t < n && token_is(&ev[t], TOKEN_INTEGER) {
            let v = match &ev[t] {
                SyntaxEvent::Token(_, text) => integer_value(text),
                _ => None,
            };
            match v {
                Some(v) => match leave_after_e(ev, t + 1) {
                    Some(e) => Some((Ast::Integer(v), e)),
                    None => None,
                },
                None => None,
            }
        } else {
            None
        }
    } else if k == NODE_IDENT {
        match ident_after_e(ev, p) {
            Some((t, e)) => Some((Ast::Ident(name_id_e(ev, t)), e)),
            None => None,
        }
    } else if k == NODE_LAMBDA {
        let q0 = match enter_after_e(ev, p + 1, NODE_IDENT_PARAM) {
            Some(q) => q,
            None => return None,
        };
        let (t, q1) = match ident_after_e(ev, q0 + 1) {
            Some(x) => x,
            None => return None,
        };
        let q2 = match leave_after_e(ev, q1) {
            Some(q) => q,
            None => return None,
        };
        let q3 = match token_after_e(ev, q2, TOKEN_COLON) {
            Some(q) => q,
            None => return None,
        };
        let (body, q4) = match child_e(ev, p, q3) {
            Some(x) => x,
            None => return None,
        };
        match leave_after_e(ev, q4) {
            Some(e) => Some((Ast::Lambda(name_id_e(ev, t), Box::new(body)), e)),
            None => None,
        }
    } else if k == NODE_APPLY {
        let (f, q1) = match child_e(ev, p, p + 1) {
            Some(x) => x,
            None => return None,
        };
        let (a, q2) = match child_e(ev, p, q1) {
            Some(x) => x,
            None => return None,
        };
        match leave_after_e(ev, q2) {
            Some(e) => Some((Ast::Apply(Box::new(f), Box::new(a)), e)),
            None => None,
        }
    } else if k == NODE_BIN_OP {
        let (l, q1) = match child_e(ev, p, p + 1) {
            Some(x) => x,
            None => return None,
        };
        let t = skip_trivia(ev, q1);
        if t >= n {
            return None;
        }
        let op = match &ev[t] {
            SyntaxEvent::Token(tk, _) => binop_e(*tk),
            _ => None,
        };
        let op = match op {
            Some(op) => op,
            None => return None,
        };
        let (r, q2) = match child_e(ev, p, t + 1) {
            Some(x) => x,
            None => return None,
        };
        match leave_after_e(ev, q2) {
            Some(e) => Some((Ast::BinOp(op, Box::new(l), Box::new(r)), e)),
            None => None,
        }
    } else if k == NODE_IF_ELSE {
        let q0 = match token_after_e(ev, p + 1, TOKEN_IF) {
            Some(q) => q,
            None => return None,
        };
        let (c, q1) = match child_e(ev, p, q0) {
            Some(x) => x,
            None => return None,
        };
        let q2 = match token_after_e(ev, q1, TOKEN_THEN) {
            Some(q) => q,
            None => return None,
        };
        let (t, q3) = match child_e(ev, p, q2) {
            Some(x) => x,
            None => return None,
        };
        let q4 = match token_after_e(ev, q3, TOKEN_ELSE) {
            Some(q) => q,
            None => return None,
        };
        let (f, q5) = match child_e(ev, p, q4) {
            Some(x) => x,
            None => return None,
        };
        match leave_after_e(ev, q5) {
            Some(e) => Some((Ast::IfElse(Box::new(c), Box::new(t), Box::new(f)), e)),
            None => None,
        }
    } else if k == NODE_LET_IN {
        let q0 = match token_after_e(ev, p + 1, TOKEN_LET) {
            Some(q) => q,
            None => return None,
        };
        let (bs, q1) = match bindings_at_e(ev, p, q0) {
            Some(x) => x,
            None => return None,
        };
        let (body, q2) = match child_e(ev, p, q1) {
            Some(x) => x,
            None => return None,
        };
        match leave_after_e(ev, q2) {
            Some(e) => Some((Ast::LetIn(Box::new(bs), Box::new(body)), e)),
            None => None,
        }
    } else {
        None
    }
}

/// The bindings of the `let` entered at `parent` (see `bindings_at`).
fn bindings_at_e(ev: &Vec<SyntaxEvent>, parent: usize, from: usize) -> (r: Option<(Bindings, usize)>)
    requires
        from <= ev@.len(),
    ensures
        match r {
            Some((b, e)) => bindings_at(ev@, parent as int, from as int) == Some((b, e as int)) && e <= ev@.len(),
            None => bindings_at(ev@, parent as int, from as int) is None,
        },
    decreases ev@.len() - parent, 1nat, ev@.len() - from,
{
    let n = ev.len();
    match token_after_e(ev, from, TOKEN_IN) {
        Some(e) => {
            return Some((Bindings::Nil, e));
        },
        None => {},
    }
    let a = match enter_after_e(ev, from, NODE_ATTRPATH_VALUE) {
        Some(a) => a,
        None => return None,
    };
    if !(parent < a) {
        return None;
    }
    let q0 = match enter_after_e(ev, a + 1, NODE_ATTRPATH) {
        Some(q) => q,
        None => return None,
    };
    let (t, q1) = match ident_after_e(ev, q0 + 1) {
        Some(x) => x,
        None => return None,
    };
    let q2 = match leave_after_e(ev, q1) {
        Some(q) => q,
        None => return None,
    };
    let q3 = match token_after_e(ev, q2, TOKEN_ASSIGN) {
        Some(q) => q,
        None => return None,
    };
    let (x, q4) = match child_e(ev, a, q3) {
        Some(y) => y,
        None => return None,
    };
    let q5 = match token_after_e(ev, q4, TOKEN_SEMICOLON) {
        Some(q) => q,
        None => return None,
    };
    let q6 = match leave_after_e(ev, q5) {
        Some(q) => q,
        None => return None,
    };
    if !(from < q6) {
        return None;
    }
    match bindings_at_e(ev, parent, q6) {
        Some((rest, e)) => Some((Bindings::Cons(name_id_e(ev, t), Box::new(x), Box::new(rest)), e)),
        None => None,
    }
}

/// Parses nix source text into an `Ast` (see `nix_syntax`): `None` where
/// rnix reports an error or the text uses syntax that `Ast` does not have.
pub fn parse_nix(input: &str) -> (r: Option<Ast>)
    ensures
        r == nix_syntax(input@),
{
    let ev = match parse_events(input) {
        Some(ev) => ev,
        None => return None,
    };
    if ev.len() == 0 {
        return None;
    }
    let root = match &ev[0] {
        SyntaxEvent::Enter(k) => *k == NODE_ROOT,
        _ => false,
    };
    if !root {
        return None;
    }
    match expr_at_e(&ev, 0) {
        Some((a, e)) => {
            if e == ev.len() {
                Some(a)
            } else {
                None
            }
        },
        None => None,
    }
}

} // verus!
