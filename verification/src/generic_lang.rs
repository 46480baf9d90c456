//! Language items that are generic over the type of their sub-expressions.
use vstd::prelude::*;

verus! {

/// The parameter of a lambda, identified by how many lambdas enclose it.
#[derive(Clone, Copy, PartialEq, Eq, Hash, Debug)]
pub struct Param {
    pub depth: usize,
}

impl Param {
    /// The parameter bound by a lambda with `nesting_depth` enclosing lambdas.
    pub fn new(nesting_depth: usize) -> (p: Param)
        ensures
            p.depth == nesting_depth,
    {
        Param { depth: nesting_depth }
    }

    /// The number of lambdas that enclose the lambda binding this parameter;
    /// it is also the position of the parameter's value on the callstack.
    pub fn nesting_depth(&self) -> (d: usize)
        ensures
            d == self.depth,
    {
        self.depth
    }
}

/// A lambda `param: body`.
#[derive(Clone, Copy, Debug)]
pub struct GenericLambda<E> {
    pub param: Param,
    pub body: E,
}

impl<E> GenericLambda<E> {
    /// A lambda binding `param` with the given `body`.
    pub fn new(param: Param, body: E) -> (l: Self)
        ensures
            l.param == param,
            l.body == body,
    {
        GenericLambda { param, body }
    }

    /// The nesting depth of the bound parameter.
    pub fn depth(&self) -> (d: usize)
        ensures
            d == self.param.depth,
    {
        self.param.nesting_depth()
    }

    /// The bound parameter.
    pub fn param(&self) -> (p: &Param)
        ensures
            *p == self.param,
    {
        &self.param
    }

    /// The body.
    pub fn body(&self) -> (b: &E)
        ensures
            *b == self.body,
    {
        &self.body
    }

    /// Converts the body with `map`, keeping the parameter.
    pub fn convert_inner<To, F: Fn(E) -> To>(self, map: F) -> (l: GenericLambda<To>)
        requires
            map.requires((self.body,)),
        ensures
            l.param == self.param,
            map.ensures((self.body,), l.body),
    {
        GenericLambda { param: self.param, body: map(self.body) }
    }
}

impl<E: Copy> GenericLambda<E> {
    /// The sub-expressions, with the name of the field that holds each.
    pub fn children(&self) -> (c: Vec<(E, &'static str)>)
        ensures
            c@.len() == 1,
            c@[0].0 == self.body,
            c@[0].1@ == "body"@,
    {
        let mut c: Vec<(E, &'static str)> = Vec::new();
        c.push((self.body, "body"));
        proof {
            reveal_strlit("body");
        }
        c
    }
}

/// An application `lambda argument`.
#[derive(Clone, Copy, Debug)]
pub struct GenericLambdaCall<E> {
    pub lambda: E,
    pub argument: E,
}

impl<E> GenericLambdaCall<E> {
    /// The application of `lambda` to `argument`.
    pub fn new(lambda: E, argument: E) -> (c: Self)
        ensures
            c.lambda == lambda,
            c.argument == argument,
    {
        GenericLambdaCall { lambda, argument }
    }

    /// The applied expression.
    pub fn lambda(&self) -> (l: &E)
        ensures
            *l == self.lambda,
    {
        &self.lambda
    }

    /// The argument.
    pub fn argument(&self) -> (a: &E)
        ensures
            *a == self.argument,
    {
        &self.argument
    }

    /// Converts both sub-expressions with `map`.
    pub fn convert_inner<To, F: Fn(E) -> To>(self, map: F) -> (c: GenericLambdaCall<To>)
        requires
            map.requires((self.lambda,)),
            map.requires((self.argument,)),
        ensures
            map.ensures((self.lambda,), c.lambda),
            map.ensures((self.argument,), c.argument),
    {
        let lambda = map(self.lambda);
        let argument = map(self.argument);
        GenericLambdaCall { lambda, argument }
    }

    /// The sub-expressions in field order.
    pub open spec fn spec_edges(self) -> Seq<E> {
        seq![self.lambda, self.argument]
    }
}

impl<E: Copy> GenericLambdaCall<E> {
    /// The sub-expressions in field order: the lambda, then the argument.
    pub fn edges(&self) -> (e: Vec<E>)
        ensures
            e@ == self.spec_edges(),
    {
        let mut e: Vec<E> = Vec::new();
        e.push(self.lambda);
        e.push(self.argument);
        e
    }

    /// The sub-expressions in field order, each with its field's name.
    pub fn edges_labeled(&self) -> (e: Vec<(E, &'static str)>)
        ensures
            e@.len() == 2,
            e@[0].0 == self.lambda,
            e@[0].1@ == "lambda"@,
            e@[1].0 == self.argument,
            e@[1].1@ == "argument"@,
    {
        let mut e: Vec<(E, &'static str)> = Vec::new();
        e.push((self.lambda, "lambda"));
        e.push((self.argument, "argument"));
        e
    }
}

/// A built-in operation together with its operands.
#[derive(Clone, Copy, Debug)]
pub enum GenericIntrinsic<E> {
    /// Applies `lambda` to `arg`.
    LambdaCall(E, E),
    /// `l <= r` on numbers.
    LessOrEq(E, E),
    /// `l + r` on numbers.
    Add(E, E),
    /// `l - r` on numbers.
    Subtract(E, E),
    /// `if condition then then else else`.
    IfElse(E, E, E),
}

/// The position of each intrinsic in the declaration of `GenericIntrinsic`.
pub open spec fn intrinsic_index<E>(i: GenericIntrinsic<E>) -> u8 {
    match i {
        GenericIntrinsic::LambdaCall(..) => 0,
        GenericIntrinsic::LessOrEq(..) => 1,
        GenericIntrinsic::Add(..) => 2,
        GenericIntrinsic::Subtract(..) => 3,
        GenericIntrinsic::IfElse(..) => 4,
    }
}

impl<E> GenericIntrinsic<E> {
    /// The operands in declaration order.
    pub open spec fn spec_edges(self) -> Seq<E> {
        match self {
            GenericIntrinsic::LambdaCall(a, b) => seq![a, b],
            GenericIntrinsic::LessOrEq(a, b) => seq![a, b],
            GenericIntrinsic::Add(a, b) => seq![a, b],
            GenericIntrinsic::Subtract(a, b) => seq![a, b],
            GenericIntrinsic::IfElse(a, b, c) => seq![a, b, c],
        }
    }

    /// The names of the operands, in declaration order.
    pub open spec fn spec_labels(self) -> Seq<Seq<char>> {
        match self {
            GenericIntrinsic::LambdaCall(..) => seq!["lambda"@, "arg"@],
            GenericIntrinsic::LessOrEq(..) => seq!["l"@, "r"@],
            GenericIntrinsic::Add(..) => seq!["l"@, "r"@],
            GenericIntrinsic::Subtract(..) => seq!["l"@, "r"@],
            GenericIntrinsic::IfElse(..) => seq!["condition"@, "then"@, "else"@],
        }
    }

    /// The name of the intrinsic.
    pub fn name(&self) -> (n: &'static str)
        ensures
            n@ == match *self {
                GenericIntrinsic::LambdaCall(..) => "LambdaCall"@,
                GenericIntrinsic::LessOrEq(..) => "LessOrEq"@,
                GenericIntrinsic::Add(..) => "Add"@,
                GenericIntrinsic::Subtract(..) => "Subtract"@,
                GenericIntrinsic::IfElse(..) => "IfElse"@,
            },
    {
        match self {
            GenericIntrinsic::LambdaCall(..) => "LambdaCall",
            GenericIntrinsic::LessOrEq(..) => "LessOrEq",
            GenericIntrinsic::Add(..) => "Add",
            GenericIntrinsic::Subtract(..) => "Subtract",
            GenericIntrinsic::IfElse(..) => "IfElse",
        }
    }

    /// The position of the intrinsic in the declaration of `GenericIntrinsic`.
    pub fn index(&self) -> (i: u8)
        ensures
            i == intrinsic_index(*self),
    {
        match self {
            GenericIntrinsic::LambdaCall(..) => 0,
            GenericIntrinsic::LessOrEq(..) => 1,
            GenericIntrinsic::Add(..) => 2,
            GenericIntrinsic::Subtract(..) => 3,
            GenericIntrinsic::IfElse(..) => 4,
        }
    }

    /// Converts every operand with `map`, keeping the intrinsic.
    pub fn convert_inner<To, F: Fn(E) -> To>(self, map: F) -> (c: GenericIntrinsic<To>)
        requires
            forall|i: int| 0 <= i < self.spec_edges().len() ==> #[trigger] map.requires(
                (self.spec_edges()[i],),
            ),
        ensures
            intrinsic_index(c) == intrinsic_index(self),
            c.spec_edges().len() == self.spec_edges().len(),
            forall|i: int|
                0 <= i < self.spec_edges().len() ==> #[trigger] map.ensures(
                    (self.spec_edges()[i],),
                    c.spec_edges()[i],
                ),
    {
        proof {
            let e = self.spec_edges();
            assert(map.requires((e[0],)));
            assert(map.requires((e[1],)));
            if e.len() == 3 {
                assert(map.requires((e[2],)));
            }
        }
        let c = match self {
            GenericIntrinsic::LambdaCall(a, b) => {
                let x = map(a);
                let y = map(b);
                GenericIntrinsic::LambdaCall(x, y)
            },
            GenericIntrinsic::LessOrEq(a, b) => {
                let x = map(a);
                let y = map(b);
                GenericIntrinsic::LessOrEq(x, y)
            },
            GenericIntrinsic::Add(a, b) => {
                let x = map(a);
                let y = map(b);
                GenericIntrinsic::Add(x, y)
            },
            GenericIntrinsic::Subtract(a, b) => {
                let x = map(a);
                let y = map(b);
                GenericIntrinsic::Subtract(x, y)
            },
            GenericIntrinsic::IfElse(a, b, d) => {
                let x = map(a);
                let y = map(b);
                let z = map(d);
                GenericIntrinsic::IfElse(x, y, z)
            },
        };
        c
    }
}

impl<E: Copy> GenericIntrinsic<E> {
    /// The operands in declaration order.
    pub fn edges(&self) -> (e: Vec<E>)
        ensures
            e@ == self.spec_edges(),
    {
        let mut e: Vec<E> = Vec::new();
        match *self {
            GenericIntrinsic::LambdaCall(a, b) | GenericIntrinsic::LessOrEq(a, b)
            | GenericIntrinsic::Add(a, b) | GenericIntrinsic::Subtract(a, b) => {
                e.push(a);
                e.push(b);
            },
            GenericIntrinsic::IfElse(a, b, c) => {
                e.push(a);
                e.push(b);
                e.push(c);
            },
        }
        e
    }

    /// The operands in declaration order, each with its name.
    pub fn edges_labeled(&self) -> (e: Vec<(E, &'static str)>)
        ensures
            e@.len() == self.spec_edges().len(),
            forall|i: int|
                0 <= i < e@.len() ==> (#[trigger] e@[i]).0 == self.spec_edges()[i] && e@[i].1@
                    == self.spec_labels()[i],
    {
        let mut e: Vec<(E, &'static str)> = Vec::new();
        match *self {
            GenericIntrinsic::LambdaCall(a, b) => {
                e.push((a, "lambda"));
                e.push((b, "arg"));
            },
            GenericIntrinsic::LessOrEq(a, b) | GenericIntrinsic::Add(a, b)
            | GenericIntrinsic::Subtract(a, b) => {
                e.push((a, "l"));
                e.push((b, "r"));
            },
            GenericIntrinsic::IfElse(a, b, c) => {
                e.push((a, "condition"));
                e.push((b, "then"));
                e.push((c, "else"));
            },
        }
        e
    }
}

} // verus!
