//! What a recorded gradient is made of.
//!
//! A gradient that was computed while recording is on can be differentiated again,
//! because the graph holds the operations that it came from. A [`Term`] writes those
//! operations down.

use vstd::prelude::*;

use crate::engine::elementwise::positive_mask_spec;
use crate::engine::function::{applied, Op};
use crate::engine::graph::{Graph, Variable};
use crate::engine::rule::{bias_axes, spread_shape, third, Rule};
use crate::scalar::Scalar;
use crate::tensor::{scalar_spec, Array};

verus! {

/// How a variable came about.
pub ghost enum Term<T, R> {
    /// It is this variable.
    Given(Variable),
    /// It holds this array and came from nothing.
    Constant(Array<T>),
    /// It is the output of a built-in operation on these.
    Basic { rule: Rule, args: Seq<Term<T, R>> },
    /// It is the output of another operation on these.
    Own { rule: R, args: Seq<Term<T, R>> },
}

/// What was put into the function that created a variable.
pub open spec fn sources<T, O>(g: Graph<T, O>, v: Variable) -> Seq<Variable> {
    g.call(g.node(v).creator->0).inputs@
}

/// Whether a variable is recorded as the output of an operation with `n` inputs.
pub open spec fn created<T: Scalar, O: Op<T>>(
    g: Graph<T, O>,
    v: Variable,
    rule: O::Rule,
    n: nat,
) -> bool {
    &&& g.has(v)
    &&& g.node(v).creator matches Some(f) && {
        &&& g.knows(f)
        &&& (*g.call(f).op).rule() == rule
        &&& g.call(f).outputs@ == seq![v]
    }
    &&& sources(g, v).len() == n
}

/// Whether the graph records that `v` came about as `t` says.
#[verifier::opaque]
pub open spec fn stands<T: Scalar, O: Op<T>>(
    g: Graph<T, O>,
    v: Variable,
    t: Term<T, O::Rule>,
) -> bool
    decreases t,
{
    match t {
        Term::Given(u) => v == u,
        Term::Constant(a) => g.has(v) && g.array(v) == Some(a) && g.node(v).creator is None,
        Term::Basic { rule, args } => {
            &&& created(g, v, O::embed(rule), args.len())
            &&& forall|i: int|
                0 <= i < args.len() ==> stands(g, #[trigger] sources(g, v)[i], args[i])
        },
        Term::Own { rule, args } => {
            &&& created(g, v, rule, args.len())
            &&& forall|i: int|
                0 <= i < args.len() ==> stands(g, #[trigger] sources(g, v)[i], args[i])
        },
    }
}

/// [`stands`], with what is given taken for granted.
pub open spec fn means<T: Scalar, O: Op<T>>(
    g: Graph<T, O>,
    v: Variable,
    t: Term<T, O::Rule>,
) -> bool {
    t == Term::<T, O::Rule>::Given(v) || stands(g, v, t)
}

/// Whether, while recording is on, the listed variables came about as the terms say.
pub open spec fn written<T: Scalar, O: Op<T>>(
    before: Graph<T, O>,
    after: Graph<T, O>,
    vs: Seq<Variable>,
    terms: Seq<Term<T, O::Rule>>,
) -> bool {
    before.config.enable_backprop ==> vs.len() == terms.len() && (forall|i: int|
        0 <= i < vs.len() ==> means(after, #[trigger] vs[i], terms[i]))
}

/// Whether everything that makes up `before` is in `after`, gradients aside.
pub open spec fn remembers<T, O>(before: Graph<T, O>, after: Graph<T, O>) -> bool {
    &&& before.nodes@.len() <= after.nodes@.len()
    &&& before.calls@.len() <= after.calls@.len()
    &&& forall|i: int|
        0 <= i < before.nodes@.len() ==> {
            &&& (#[trigger] after.nodes@[i]).data == before.nodes@[i].data
            &&& after.nodes@[i].creator == before.nodes@[i].creator
        }
    &&& forall|i: int|
        0 <= i < before.calls@.len() ==> #[trigger] after.calls@[i] == before.calls@[i]
}

/// What is recorded stays recorded.
pub proof fn lemma_stands_kept<T: Scalar, O: Op<T>>(
    before: Graph<T, O>,
    after: Graph<T, O>,
    v: Variable,
    t: Term<T, O::Rule>,
)
    requires
        remembers(before, after),
        stands(before, v, t),
    ensures
        stands(after, v, t),
    decreases t,
{
    reveal_with_fuel(stands, 2);
    match t {
        Term::Given(_) => {},
        Term::Constant(_) => {
            assert(after.nodes@[v.id as int].data == before.nodes@[v.id as int].data);
        },
        Term::Basic { rule, args } => {
            assert(after.nodes@[v.id as int].creator == before.nodes@[v.id as int].creator);
            assert forall|i: int| 0 <= i < args.len() implies stands(
                after,
                #[trigger] sources(after, v)[i],
                args[i],
            ) by {
                assert(stands(before, sources(before, v)[i], args[i]));
                lemma_stands_kept(before, after, sources(before, v)[i], args[i]);
            }
        },
        Term::Own { rule, args } => {
            assert(after.nodes@[v.id as int].creator == before.nodes@[v.id as int].creator);
            assert forall|i: int| 0 <= i < args.len() implies stands(
                after,
                #[trigger] sources(after, v)[i],
                args[i],
            ) by {
                assert(stands(before, sources(before, v)[i], args[i]));
                lemma_stands_kept(before, after, sources(before, v)[i], args[i]);
            }
        },
    }
}

/// What is recorded stays recorded, whatever it is.
pub proof fn lemma_all_kept<T: Scalar, O: Op<T>>(before: Graph<T, O>, after: Graph<T, O>)
    requires
        remembers(before, after),
    ensures
        forall|v: Variable, t: Term<T, O::Rule>| #[trigger]
            stands(before, v, t) ==> stands(after, v, t),
{
    assert forall|v: Variable, t: Term<T, O::Rule>| #[trigger] stands(before, v, t) implies stands(
        after,
        v,
        t,
    ) by {
        lemma_stands_kept(before, after, v, t);
    }
}

/// An extension remembers what it extends.
pub proof fn lemma_remembers<T, O>(before: Graph<T, O>, after: Graph<T, O>)
    requires
        after.extends(before),
    ensures
        remembers(before, after),
{
    assert forall|i: int| 0 <= i < before.nodes@.len() implies {
        &&& (#[trigger] after.nodes@[i]).data == before.nodes@[i].data
        &&& after.nodes@[i].creator == before.nodes@[i].creator
    } by {
        assert(after.nodes@[i] == before.nodes@[i]);
    }
}

/// A variable that was added by itself is a constant.
pub proof fn lemma_constant<T: Scalar, O: Op<T>>(
    before: Graph<T, O>,
    after: Graph<T, O>,
    v: Variable,
    a: Array<T>,
)
    requires
        after.extends(before),
        after.has(v),
        after.array(v) == Some(a),
        after.node(v).creator is None,
    ensures
        stands(after, v, Term::Constant(a)),
        forall|u: Variable, t: Term<T, O::Rule>| #[trigger]
            stands(before, u, t) ==> stands(after, u, t),
{
    reveal(stands);
    lemma_remembers(before, after);
    lemma_all_kept(before, after);
}

proof fn lemma_recorded<T: Scalar, O: Op<T>>(
    before: Graph<T, O>,
    after: Graph<T, O>,
    rule: Rule,
    inputs: Seq<Variable>,
    r: Variable,
    args: Seq<Term<T, O::Rule>>,
)
    requires
        before.config.enable_backprop,
        applied(before, after, O::embed(rule), inputs, seq![r]),
        !(rule is Pooling),
        inputs.len() == args.len(),
        forall|i: int| 0 <= i < inputs.len() ==> means(before, #[trigger] inputs[i], args[i]),
    ensures
        stands(after, r, Term::Basic { rule, args }),
{
    O::embedding(rule);
    let xs = before.arrays(inputs);
    assert(O::value(O::embed(rule), xs) == seq![rule.value(xs)]);
    assert(O::recorded(O::embed(rule), xs) == O::embed(rule.recorded(xs)));
    assert(rule.recorded(xs) == rule);
    lemma_remembers(before, after);
    reveal_with_fuel(stands, 2);
    assert(seq![r][0] == r);
    let f = after.node(r).creator->0;
    assert(after.call(f).inputs@ == inputs);
    assert(sources(after, r) == inputs);
    assert forall|i: int| 0 <= i < args.len() implies stands(
        after,
        #[trigger] sources(after, r)[i],
        args[i],
    ) by {
        assert(means(before, inputs[i], args[i]));
        if args[i] != Term::<T, O::Rule>::Given(inputs[i]) {
            lemma_stands_kept(before, after, inputs[i], args[i]);
        }
    }
}

/// An operation on one variable, applied while recording is on, is recorded.
pub proof fn lemma_unary<T: Scalar, O: Op<T>>(
    before: Graph<T, O>,
    after: Graph<T, O>,
    rule: Rule,
    x: Variable,
    r: Variable,
    tx: Term<T, O::Rule>,
)
    requires
        applied(before, after, O::embed(rule), seq![x], seq![r]),
        !(rule is Pooling),
        before.config.enable_backprop ==> means(before, x, tx),
    ensures
        r.id >= before.nodes@.len(),
        before.config.enable_backprop ==> stands(after, r, unary(rule, tx)),
        forall|u: Variable, t: Term<T, O::Rule>| #[trigger]
            stands(before, u, t) ==> stands(after, u, t),
{
    assert(seq![r][0] == r);
    if before.config.enable_backprop {
        assert(seq![x][0] == x && seq![tx][0] == tx);
        lemma_recorded(before, after, rule, seq![x], r, seq![tx]);
    }
    lemma_remembers(before, after);
    lemma_all_kept(before, after);
}

/// An operation on two variables, applied while recording is on, is recorded.
pub proof fn lemma_binary<T: Scalar, O: Op<T>>(
    before: Graph<T, O>,
    after: Graph<T, O>,
    rule: Rule,
    x: Variable,
    y: Variable,
    r: Variable,
    tx: Term<T, O::Rule>,
    ty: Term<T, O::Rule>,
)
    requires
        applied(before, after, O::embed(rule), seq![x, y], seq![r]),
        !(rule is Pooling),
        before.config.enable_backprop ==> means(before, x, tx),
        before.config.enable_backprop ==> means(before, y, ty),
    ensures
        r.id >= before.nodes@.len(),
        before.config.enable_backprop ==> stands(after, r, binary(rule, tx, ty)),
        forall|u: Variable, t: Term<T, O::Rule>| #[trigger]
            stands(before, u, t) ==> stands(after, u, t),
{
    assert(seq![r][0] == r);
    if before.config.enable_backprop {
        assert(seq![x, y][0] == x && seq![x, y][1] == y);
        assert(seq![tx, ty][0] == tx && seq![tx, ty][1] == ty);
        lemma_recorded(before, after, rule, seq![x, y], r, seq![tx, ty]);
    }
    lemma_remembers(before, after);
    lemma_all_kept(before, after);
}

/// An operation that is left out where the shape is right already.
pub proof fn lemma_unless_same<T: Scalar, O: Op<T>>(
    before: Graph<T, O>,
    after: Graph<T, O>,
    rule: Rule,
    x: Variable,
    r: Variable,
    from: Seq<usize>,
    to: Seq<usize>,
    t: Term<T, O::Rule>,
)
    requires
        from == to ==> r == x && after == before,
        from != to ==> applied(before, after, O::embed(rule), seq![x], seq![r]),
        !(rule is Pooling),
        before.config.enable_backprop ==> means(before, x, t),
    ensures
        r == x || r.id >= before.nodes@.len(),
        before.config.enable_backprop ==> means(
            after,
            r,
            if from == to {
                t
            } else {
                unary(rule, t)
            },
        ),
        forall|u: Variable, w: Term<T, O::Rule>| #[trigger]
            stands(before, u, w) ==> stands(after, u, w),
{
    if from != to {
        lemma_unary(before, after, rule, x, r, t);
    }
}

/// What is recorded as the output of an operation has a creator, so that a further pass
/// goes on through it.
pub proof fn what_is_recorded_can_be_differentiated<T: Scalar, O: Op<T>>(
    g: Graph<T, O>,
    v: Variable,
    rule: Rule,
    args: Seq<Term<T, O::Rule>>,
)
    requires
        stands(g, v, Term::Basic { rule, args }),
    ensures
        g.has(v),
        g.node(v).creator matches Some(f) && g.knows(f) && (*g.call(f).op).rule() == O::embed(rule),
        sources(g, v).len() == args.len(),
        forall|i: int|
            0 <= i < args.len() ==> stands(g, #[trigger] sources(g, v)[i], args[i]),
{
    reveal_with_fuel(stands, 2);
}

/// A built-in operation on one term.
pub open spec fn unary<T, R>(rule: Rule, a: Term<T, R>) -> Term<T, R> {
    Term::Basic { rule, args: seq![a] }
}

/// A built-in operation on two terms.
pub open spec fn binary<T, R>(rule: Rule, a: Term<T, R>, b: Term<T, R>) -> Term<T, R> {
    Term::Basic { rule, args: seq![a, b] }
}

/// A term reshaped, where the shape is another one.
pub open spec fn reshaped<T, R>(t: Term<T, R>, from: Seq<usize>, to: Seq<usize>) -> Term<T, R> {
    if from == to {
        t
    } else {
        unary(Rule::Reshape { shape: to }, t)
    }
}

/// A term summed down, where the shape is another one.
pub open spec fn folded<T, R>(t: Term<T, R>, from: Seq<usize>, to: Seq<usize>) -> Term<T, R> {
    if from == to {
        t
    } else {
        unary(Rule::SumTo { shape: to }, t)
    }
}

/// A term broadcast, where the shape is another one.
pub open spec fn spread<T, R>(t: Term<T, R>, from: Seq<usize>, to: Seq<usize>) -> Term<T, R> {
    if from == to {
        t
    } else {
        unary(Rule::BroadcastTo { shape: to }, t)
    }
}

impl Rule {
    /// The operations that make up the gradients of the inputs `ins`, which hold `xs`,
    /// given the variable `g` that holds the gradient `gy` of the output.
    #[verifier::opaque]
    pub open spec fn expressions<T: Scalar, R>(
        self,
        xs: Seq<Array<T>>,
        gy: Array<T>,
        ins: Seq<Variable>,
        g: Variable,
    ) -> Seq<Term<T, R>> {
        let d = Term::Given(g);
        let a = Term::Given(ins[0]);
        let b = Term::Given(ins[1]);
        match self {
            Rule::Add => seq![
                folded(d, gy.shape, xs[0].shape),
                folded(d, gy.shape, xs[1].shape),
            ],
            Rule::Sub => seq![
                folded(d, gy.shape, xs[0].shape),
                folded(unary(Rule::Neg, d), gy.shape, xs[1].shape),
            ],
            Rule::Mul => seq![
                folded(binary(Rule::Mul, d, b), gy.shape, xs[0].shape),
                folded(binary(Rule::Mul, d, a), gy.shape, xs[1].shape),
            ],
            Rule::Div => seq![
                folded(binary(Rule::Div, d, b), gy.shape, xs[0].shape),
                folded(
                    binary(
                        Rule::Mul,
                        d,
                        unary(Rule::Neg, binary(Rule::Div, a, unary(Rule::Square, b))),
                    ),
                    gy.shape,
                    xs[1].shape,
                ),
            ],
            Rule::Neg => seq![unary(Rule::Neg, d)],
            Rule::Square => seq![
                binary(
                    Rule::Mul,
                    binary(Rule::Mul, Term::Constant(scalar_spec(T::count_spec(2))), a),
                    d,
                ),
            ],
            Rule::ReLU => seq![binary(Rule::Mul, d, Term::Constant(positive_mask_spec(xs[0])))],
            Rule::Reshape { shape: _ } => seq![reshaped(d, gy.shape, xs[0].shape)],
            Rule::Transpose => seq![unary(Rule::Transpose, d)],
            Rule::Sum { axes, keepdims } => {
                let aligned = spread_shape(gy.shape, xs[0].shape, axes, keepdims);
                seq![spread(reshaped(d, gy.shape, aligned), aligned, xs[0].shape)]
            },
            Rule::SumTo { shape: _ } => seq![spread(d, gy.shape, xs[0].shape)],
            Rule::BroadcastTo { shape: _ } => seq![folded(d, gy.shape, xs[0].shape)],
            Rule::MatMul => seq![
                binary(Rule::MatMul, d, unary(Rule::Transpose, b)),
                binary(Rule::MatMul, unary(Rule::Transpose, a), d),
            ],
            Rule::Linear => {
                let gx = binary(Rule::MatMul, d, unary(Rule::Transpose, b));
                let gw = binary(Rule::MatMul, unary(Rule::Transpose, a), d);
                match third(xs) {
                    Some(bias) => seq![gx, gw, folded(d, gy.shape, bias.shape)],
                    None => seq![gx, gw],
                }
            },
            Rule::MeanSquaredError => {
                let gx = binary(
                    Rule::Mul,
                    binary(Rule::Mul, d, binary(Rule::Sub, a, b)),
                    Term::Constant(
                        scalar_spec(T::count_spec(2).over(T::count_spec(xs[0].shape[0]))),
                    ),
                );
                seq![gx, unary(Rule::Neg, gx)]
            },
            Rule::Im2col { kernel, stride, pad, to_matrix } => seq![
                unary(
                    Rule::Col2im { input_shape: xs[0].shape, kernel, stride, pad, to_matrix },
                    d,
                ),
            ],
            Rule::Col2im { input_shape: _, kernel, stride, pad, to_matrix } => seq![
                unary(Rule::Im2col { kernel, stride, pad, to_matrix }, d),
            ],
            Rule::Conv2d { stride, pad } => {
                let (x, w) = (xs[0].shape, xs[1].shape);
                let gx = binary(Rule::Deconv2d { stride, pad, outsize: Some((x[2], x[3])) }, d, b);
                let gw = binary(Rule::Conv2dGradW { kernel: (w[2], w[3]), stride, pad }, a, d);
                if xs.len() == 3 {
                    seq![gx, gw, unary(Rule::Sum { axes: bias_axes(), keepdims: false }, d)]
                } else {
                    seq![gx, gw]
                }
            },
            Rule::Deconv2d { stride, pad, outsize: _ } => {
                let w = xs[1].shape;
                let gx = binary(Rule::Conv2d { stride, pad }, d, b);
                let gw = binary(Rule::Conv2dGradW { kernel: (w[2], w[3]), stride, pad }, d, a);
                if xs.len() == 3 {
                    seq![gx, gw, unary(Rule::Sum { axes: bias_axes(), keepdims: false }, d)]
                } else {
                    seq![gx, gw]
                }
            },
            Rule::Conv2dGradW { kernel: _, stride, pad } => {
                let x = xs[0].shape;
                seq![
                    binary(Rule::Deconv2d { stride, pad, outsize: Some((x[2], x[3])) }, b, d),
                    binary(Rule::Conv2d { stride, pad }, a, d),
                ]
            },
            Rule::Pooling { kernel, stride, pad, winners } => seq![
                unary(
                    Rule::Pooling2dGrad { kernel, stride, pad, input_shape: xs[0].shape, winners },
                    d,
                ),
            ],
            Rule::Pooling2dGrad { kernel, stride, pad, input_shape: _, winners } => seq![
                unary(Rule::Pooling2dWithIndexes { kernel, stride, pad, winners }, d),
            ],
            Rule::Pooling2dWithIndexes { kernel, stride, pad, winners } => seq![
                unary(
                    Rule::Pooling2dGrad { kernel, stride, pad, input_shape: xs[0].shape, winners },
                    d,
                ),
            ],
        }
    }
}

} // verus!
