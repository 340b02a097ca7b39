//! The gradients of the built-in operations, as operations on variables.
//!
//! Each gradient is computed by further operations, so that it can be differentiated
//! again.
use crate::engine::builtin::{apply_binary, apply_unary, held, holds, operands, Builtin};
use crate::engine::elementwise::{
    lemma_joint_absorbs, lemma_joint_with_itself, lemma_scalar_broadcasts, positive_mask,
    positive_mask_spec, zips,
};
use crate::engine::function::{Backprop, Op};
use crate::engine::graph::{Graph, Variable};
use crate::engine::ops::{div, neg, scalar};
use crate::engine::rule::{bias_axes, fold_spec, shapes, spread_shape, Rule};
use crate::engine::term::{
    binary, folded, lemma_binary, lemma_constant, lemma_unary, lemma_unless_same, means, reshaped,
    unary, written, Term,
};
use crate::functions::basic_math::square;
use crate::functions::conv::{
    apply_col2im, apply_conv, apply_deconv, apply_im2col, conv2d_fits, conv2d_grad_w_fits,
    conv2d_grad_w_spec, conv2d_shape, conv2d_spec, conv_patches, deconv2d_fits, deconv2d_shape,
    deconv2d_spec,
    lemma_transposed_matrix, pooled_shape, pooling_fits, pooling_grad_spec, winners_fit, Col2im,
    Conv2d, Conv2dGradW, Deconv2d, Im2col, Pooling, Pooling2dGrad, Pooling2dWithIndexes,
};
use crate::functions::matmul::{matmul, matmul_spec, multiplies};
use crate::functions::reduce::{
    broadcast_to, lemma_dropped_volume, lemma_kept_shape, lemma_shapes_by_membership,
    lemma_sorting_without_duplicates, listed, sum_fits, sum_over, sum_shape, sum_spec, sum_to, Axes,
    Sum,
};
use crate::functions::shape::{reshape, transpose};
use crate::index::volume;
use crate::scalar::Scalar;
use crate::tensor::{copy_of, scalar_spec, transpose_spec, Array, Tensor};
use crate::utils::conv::{
    col_shape, im2col_array_spec, lemma_shape4, lemma_volume2, lemma_volume4, patches_spec,
};
use crate::utils::shape::{
    broadcasts_to, dropped_shape, insertable, is_sorting, joint_shape, joint_shape_receives_both,
    kept_shape, reinserting_dropped_axes_keeps_the_rest, reshape_sum_backward, resolved_axes,
    with_ones,
};
use vstd::prelude::*;

verus! {

/// Whether `after` is `before` with more in it, and the listed variables hold the
/// listed arrays there.
pub open spec fn gives<T, O>(
    before: Graph<T, O>,
    after: Graph<T, O>,
    vs: Seq<Variable>,
    want: Seq<Array<T>>,
) -> bool {
    &&& after.wf()
    &&& after.extends(before)
    &&& after.all_hold(vs)
    &&& after.arrays(vs) == want
}

/// Whether each of the listed variables is `gy` or came after `before`.
#[verifier::opaque]
pub open spec fn made_or_handed<T, O>(
    before: Graph<T, O>,
    vs: Seq<Variable>,
    gy: Variable,
) -> bool {
    forall|k: int|
        0 <= k < vs.len() ==> (#[trigger] vs[k]).id >= before.nodes@.len() || vs[k] == gy
}

/// Three variables as terms.
pub open spec fn leaves<T: Scalar, O: Op<T>>(d: Variable, a: Variable, b: Variable) -> (
    Term<T, O::Rule>,
    Term<T, O::Rule>,
    Term<T, O::Rule>,
) {
    (Term::Given(d), Term::Given(a), Term::Given(b))
}

/// The shape of the data of a variable that holds some.
pub fn shape_held<T, O>(g: &Graph<T, O>, x: &Variable) -> (r: Vec<usize>)
    requires
        holds(*g, *x),
    ensures
        r@ == held(*g, *x).shape,
{
    match &g.nodes[x.id].data {
        Some(t) => copy_of(t.shape.as_slice()),
        None => Vec::new(),
    }
}

/// The array of a variable of a well-formed graph is whole.
proof fn lemma_held<T, O>(g: Graph<T, O>, x: Variable)
    requires
        g.wf(),
        holds(g, x),
    ensures
        held(g, x).wf(),
        held(g, x).shape.len() <= usize::MAX,
{
    assert(g.node_ok(x.id as int));
    let t = g.node(x).data->0;
    assert(t.shape.len() == t.shape@.len());
}

fn single<T, O>(
    g: &Graph<T, O>,
    Ghost(before): Ghost<Graph<T, O>>,
    v: Variable,
    Ghost(gy): Ghost<Variable>,
) -> (r: Vec<Variable>)
    requires
        v == gy || v.id >= before.nodes@.len(),
        g.wf(),
        g.extends(before),
        holds(*g, v),
    ensures
        gives(before, *g, r@, seq![held(*g, v)]),
        r@ == seq![v],
        made_or_handed(before, r@, gy),
{
    let mut r: Vec<Variable> = Vec::new();
    r.push(v);
    proof {
        reveal(made_or_handed);
        assert(r@ =~= seq![v]);
        assert(g.arrays(r@) =~= seq![held(*g, v)]);
    }
    r
}

fn twin<T, O>(
    g: &Graph<T, O>,
    Ghost(before): Ghost<Graph<T, O>>,
    u: Variable,
    v: Variable,
    Ghost(gy): Ghost<Variable>,
) -> (r: Vec<Variable>)
    requires
        u == gy || u.id >= before.nodes@.len(),
        v == gy || v.id >= before.nodes@.len(),
        g.wf(),
        g.extends(before),
        holds(*g, u),
        holds(*g, v),
    ensures
        gives(before, *g, r@, seq![held(*g, u), held(*g, v)]),
        r@ == seq![u, v],
        made_or_handed(before, r@, gy),
{
    let mut r: Vec<Variable> = Vec::new();
    r.push(u);
    r.push(v);
    proof {
        reveal(made_or_handed);
        assert(r@ =~= seq![u, v]);
        assert(g.arrays(r@) =~= seq![held(*g, u), held(*g, v)]);
    }
    r
}

fn triple<T, O>(
    g: &Graph<T, O>,
    Ghost(before): Ghost<Graph<T, O>>,
    u: Variable,
    v: Variable,
    w: Variable,
    Ghost(gy): Ghost<Variable>,
) -> (r: Vec<Variable>)
    requires
        u == gy || u.id >= before.nodes@.len(),
        v == gy || v.id >= before.nodes@.len(),
        w == gy || w.id >= before.nodes@.len(),
        g.wf(),
        g.extends(before),
        holds(*g, u),
        holds(*g, v),
        holds(*g, w),
    ensures
        gives(before, *g, r@, seq![held(*g, u), held(*g, v), held(*g, w)]),
        r@ == seq![u, v, w],
        made_or_handed(before, r@, gy),
{
    let mut r: Vec<Variable> = Vec::new();
    r.push(u);
    r.push(v);
    r.push(w);
    proof {
        reveal(made_or_handed);
        assert(r@ =~= seq![u, v, w]);
        assert(g.arrays(r@) =~= seq![held(*g, u), held(*g, v), held(*g, w)]);
    }
    r
}

/// Sums the gradients of two operands down to the shapes that they were broadcast
/// from.
#[verifier::spinoff_prover]
fn fold_broadcast<T: Scalar, O: Op<T>>(
    g: &mut Graph<T, O>,
    x0: &Variable,
    x1: &Variable,
    gx0: &Variable,
    gx1: &Variable,
    Ghost(t0): Ghost<Term<T, O::Rule>>,
    Ghost(t1): Ghost<Term<T, O::Rule>>,
) -> (r: Vec<Variable>)
    requires
        old(g).wf(),
        holds(*old(g), *x0),
        holds(*old(g), *x1),
        holds(*old(g), *gx0),
        holds(*old(g), *gx1),
        broadcasts_to(held(*old(g), *x0).shape, held(*old(g), *gx0).shape),
        broadcasts_to(held(*old(g), *x1).shape, held(*old(g), *gx1).shape),
        old(g).config.enable_backprop ==> means(*old(g), *gx0, t0) && means(*old(g), *gx1, t1),
    ensures
        r@.len() == 2,
        r@[0] == *gx0 || r@[0].id >= old(g).nodes@.len(),
        r@[1] == *gx1 || r@[1].id >= old(g).nodes@.len(),
        gives(
            *old(g),
            *final(g),
            r@,
            seq![
                fold_spec(held(*old(g), *gx0), held(*old(g), *x0).shape),
                fold_spec(held(*old(g), *gx1), held(*old(g), *x1).shape),
            ],
        ),
        written(
            *old(g),
            *final(g),
            r@,
            seq![
                folded(t0, held(*old(g), *gx0).shape, held(*old(g), *x0).shape),
                folded(t1, held(*old(g), *gx1).shape, held(*old(g), *x1).shape),
            ],
        ),
{
    let ghost before = *g;
    proof {
        lemma_held(*g, *x0);
        lemma_held(*g, *x1);
    }
    let shape0 = shape_held(g, x0);
    let shape1 = shape_held(g, x1);
    let u = sum_to(g, gx0, shape0.as_slice());
    let ghost mid = *g;
    let v = sum_to(g, gx1, shape1.as_slice());
    proof {
        let (s0, s1) = (held(before, *gx0).shape, held(before, *gx1).shape);
        let (to0, to1) = (Rule::SumTo { shape: shape0@ }, Rule::SumTo { shape: shape1@ });
        lemma_unless_same(before, mid, to0, *gx0, u, s0, shape0@, t0);
        lemma_unless_same(mid, *g, to1, *gx1, v, s1, shape1@, t1);
    }
    let mut r: Vec<Variable> = Vec::new();
    r.push(u);
    r.push(v);
    proof {
        assert(r@ =~= seq![u, v]);
        assert(g.arrays(r@) =~= seq![held(*g, u), held(*g, v)]);
    }
    r
}

#[verifier::spinoff_prover]
#[verifier::rlimit(40)]
fn add_backward<T: Scalar, O: Op<T>>(
    g: &mut Graph<T, O>,
    x0: &Variable,
    x1: &Variable,
    gy: &Variable,
) -> (r: Vec<Variable>)
    requires
        old(g).wf(),
        holds(*old(g), *x0),
        holds(*old(g), *x1),
        holds(*old(g), *gy),
        zips(held(*old(g), *x0).shape, held(*old(g), *x1).shape),
        held(*old(g), *gy).shape == joint_shape(held(*old(g), *x0).shape, held(*old(g), *x1).shape),
    ensures
        made_or_handed(*old(g), r@, *gy),
        gives(
            *old(g),
            *final(g),
            r@,
            Rule::Add.gradient(seq![held(*old(g), *x0), held(*old(g), *x1)], held(*old(g), *gy)),
        ),
        written(
            *old(g),
            *final(g),
            r@,
            Rule::Add.expressions(
                seq![held(*old(g), *x0), held(*old(g), *x1)],
                held(*old(g), *gy),
                seq![*x0, *x1],
                *gy,
            ),
        ),
{
    proof {
        reveal(made_or_handed);
        reveal(Rule::expressions);
        joint_shape_receives_both(held(*g, *x0).shape, held(*g, *x1).shape);
    }
    let ghost d = Term::<T, O::Rule>::Given(*gy);
    fold_broadcast(g, x0, x1, gy, gy, Ghost(d), Ghost(d))
}

#[verifier::spinoff_prover]
#[verifier::rlimit(40)]
fn sub_backward<T: Scalar, O: Op<T>>(
    g: &mut Graph<T, O>,
    x0: &Variable,
    x1: &Variable,
    gy: &Variable,
) -> (r: Vec<Variable>)
    requires
        old(g).wf(),
        holds(*old(g), *x0),
        holds(*old(g), *x1),
        holds(*old(g), *gy),
        zips(held(*old(g), *x0).shape, held(*old(g), *x1).shape),
        held(*old(g), *gy).shape == joint_shape(held(*old(g), *x0).shape, held(*old(g), *x1).shape),
    ensures
        made_or_handed(*old(g), r@, *gy),
        gives(
            *old(g),
            *final(g),
            r@,
            Rule::Sub.gradient(seq![held(*old(g), *x0), held(*old(g), *x1)], held(*old(g), *gy)),
        ),
        written(
            *old(g),
            *final(g),
            r@,
            Rule::Sub.expressions(
                seq![held(*old(g), *x0), held(*old(g), *x1)],
                held(*old(g), *gy),
                seq![*x0, *x1],
                *gy,
            ),
        ),
{
    proof {
        reveal(made_or_handed);
        reveal(Rule::expressions);
        joint_shape_receives_both(held(*g, *x0).shape, held(*g, *x1).shape);
    }
    let ghost before = *g;
    let ghost d = Term::<T, O::Rule>::Given(*gy);
    let ngy = neg(g, gy);
    proof {
        lemma_unary(before, *g, Rule::Neg, *gy, ngy, d);
    }
    fold_broadcast(g, x0, x1, gy, &ngy, Ghost(d), Ghost(unary(Rule::Neg, d)))
}

#[verifier::spinoff_prover]
#[verifier::rlimit(40)]
fn mul_backward<T: Scalar, O: Op<T>>(
    g: &mut Graph<T, O>,
    x0: &Variable,
    x1: &Variable,
    gy: &Variable,
) -> (r: Vec<Variable>)
    requires
        old(g).wf(),
        holds(*old(g), *x0),
        holds(*old(g), *x1),
        holds(*old(g), *gy),
        zips(held(*old(g), *x0).shape, held(*old(g), *x1).shape),
        held(*old(g), *gy).shape == joint_shape(held(*old(g), *x0).shape, held(*old(g), *x1).shape),
    ensures
        made_or_handed(*old(g), r@, *gy),
        gives(
            *old(g),
            *final(g),
            r@,
            Rule::Mul.gradient(seq![held(*old(g), *x0), held(*old(g), *x1)], held(*old(g), *gy)),
        ),
        written(
            *old(g),
            *final(g),
            r@,
            Rule::Mul.expressions(
                seq![held(*old(g), *x0), held(*old(g), *x1)],
                held(*old(g), *gy),
                seq![*x0, *x1],
                *gy,
            ),
        ),
{
    proof {
        reveal(made_or_handed);
        reveal(Rule::expressions);
        let s = held(*g, *gy).shape;
        joint_shape_receives_both(held(*g, *x0).shape, held(*g, *x1).shape);
        lemma_joint_absorbs(s, held(*g, *x0).shape);
        lemma_joint_absorbs(s, held(*g, *x1).shape);
    }
    let ghost before = *g;
    let ghost (d, a, b) = leaves::<T, O>(*gy, *x0, *x1);
    let gx0 = crate::engine::ops::mul(g, gy, x1);
    let ghost mid = *g;
    let gx1 = crate::engine::ops::mul(g, gy, x0);
    proof {
        lemma_binary(before, mid, Rule::Mul, *gy, *x1, gx0, d, b);
        lemma_binary(mid, *g, Rule::Mul, *gy, *x0, gx1, d, a);
    }
    fold_broadcast(
        g,
        x0,
        x1,
        &gx0,
        &gx1,
        Ghost(binary(Rule::Mul, d, b)),
        Ghost(binary(Rule::Mul, d, a)),
    )
}

#[verifier::spinoff_prover]
#[verifier::rlimit(40)]
fn div_backward<T: Scalar, O: Op<T>>(
    g: &mut Graph<T, O>,
    x0: &Variable,
    x1: &Variable,
    gy: &Variable,
) -> (r: Vec<Variable>)
    requires
        old(g).wf(),
        holds(*old(g), *x0),
        holds(*old(g), *x1),
        holds(*old(g), *gy),
        zips(held(*old(g), *x0).shape, held(*old(g), *x1).shape),
        held(*old(g), *gy).shape == joint_shape(held(*old(g), *x0).shape, held(*old(g), *x1).shape),
    ensures
        made_or_handed(*old(g), r@, *gy),
        gives(
            *old(g),
            *final(g),
            r@,
            Rule::Div.gradient(seq![held(*old(g), *x0), held(*old(g), *x1)], held(*old(g), *gy)),
        ),
        written(
            *old(g),
            *final(g),
            r@,
            Rule::Div.expressions(
                seq![held(*old(g), *x0), held(*old(g), *x1)],
                held(*old(g), *gy),
                seq![*x0, *x1],
                *gy,
            ),
        ),
{
    proof {
        reveal(made_or_handed);
        reveal(Rule::expressions);
        let s = held(*g, *gy).shape;
        joint_shape_receives_both(held(*g, *x0).shape, held(*g, *x1).shape);
        lemma_joint_absorbs(s, held(*g, *x0).shape);
        lemma_joint_absorbs(s, held(*g, *x1).shape);
        lemma_joint_with_itself(s);
    }
    let ghost g0 = *g;
    let ghost (d, a, b) = leaves::<T, O>(*gy, *x0, *x1);
    let ghost ts = unary(Rule::Square, b);
    let ghost tr = binary(Rule::Div, a, ts);
    let ghost tn = unary(Rule::Neg, tr);
    let gx0 = div(g, gy, x1);
    let ghost g1 = *g;
    let squared = square(g, x1);
    let ghost g2 = *g;
    let ratio = div(g, x0, &squared);
    let ghost g3 = *g;
    let slope = neg(g, &ratio);
    let ghost g4 = *g;
    let gx1 = crate::engine::ops::mul(g, gy, &slope);
    proof {
        lemma_binary(g0, g1, Rule::Div, *gy, *x1, gx0, d, b);
        lemma_unary(g1, g2, Rule::Square, *x1, squared, b);
        lemma_binary(g2, g3, Rule::Div, *x0, squared, ratio, a, ts);
        lemma_unary(g3, g4, Rule::Neg, ratio, slope, tr);
        lemma_binary(g4, *g, Rule::Mul, *gy, slope, gx1, d, tn);
    }
    fold_broadcast(
        g,
        x0,
        x1,
        &gx0,
        &gx1,
        Ghost(binary(Rule::Div, d, b)),
        Ghost(binary(Rule::Mul, d, tn)),
    )
}

#[verifier::spinoff_prover]
#[verifier::rlimit(40)]
fn square_backward<T: Scalar, O: Op<T>>(g: &mut Graph<T, O>, x: &Variable, gy: &Variable) -> (r:
    Vec<Variable>)
    requires
        old(g).wf(),
        holds(*old(g), *x),
        holds(*old(g), *gy),
        held(*old(g), *gy).shape == held(*old(g), *x).shape,
    ensures
        made_or_handed(*old(g), r@, *gy),
        gives(
            *old(g),
            *final(g),
            r@,
            Rule::Square.gradient(seq![held(*old(g), *x)], held(*old(g), *gy)),
        ),
        written(
            *old(g),
            *final(g),
            r@,
            Rule::Square.expressions(
                seq![held(*old(g), *x)],
                held(*old(g), *gy),
                seq![*x],
                *gy,
            ),
        ),
{
    proof {
        reveal(Rule::expressions);
    }
    let ghost before = *g;
    proof {
        let s = held(*g, *x).shape;
        lemma_held(*g, *x);
        lemma_scalar_broadcasts(s);
        lemma_joint_absorbs(s, Seq::<usize>::empty());
        lemma_joint_with_itself(s);
    }
    let ghost (d, a, _) = leaves::<T, O>(*gy, *x, *x);
    let two = scalar(g, T::from_count(2));
    let ghost g1 = *g;
    let doubled = crate::engine::ops::mul(g, &two, x);
    let ghost g2 = *g;
    let gx = crate::engine::ops::mul(g, &doubled, gy);
    proof {
        let c = scalar_spec(T::count_spec(2));
        lemma_constant(before, g1, two, c);
        lemma_binary(g1, g2, Rule::Mul, two, *x, doubled, Term::Constant(c), a);
        lemma_binary(
            g2,
            *g,
            Rule::Mul,
            doubled,
            *gy,
            gx,
            binary(Rule::Mul, Term::Constant(c), a),
            d,
        );
    }
    single(g, Ghost(before), gx, Ghost(*gy))
}

#[verifier::spinoff_prover]
#[verifier::rlimit(40)]
fn relu_backward<T: Scalar, O: Op<T>>(g: &mut Graph<T, O>, x: &Variable, gy: &Variable) -> (r: Vec<
    Variable,
>)
    requires
        old(g).wf(),
        holds(*old(g), *x),
        holds(*old(g), *gy),
        held(*old(g), *gy).shape == held(*old(g), *x).shape,
    ensures
        made_or_handed(*old(g), r@, *gy),
        gives(
            *old(g),
            *final(g),
            r@,
            Rule::ReLU.gradient(seq![held(*old(g), *x)], held(*old(g), *gy)),
        ),
        written(
            *old(g),
            *final(g),
            r@,
            Rule::ReLU.expressions(
                seq![held(*old(g), *x)],
                held(*old(g), *gy),
                seq![*x],
                *gy,
            ),
        ),
{
    proof {
        reveal(Rule::expressions);
    }
    let ghost before = *g;
    proof {
        lemma_held(*g, *x);
        lemma_joint_with_itself(held(*g, *x).shape);
    }
    let mask_data: Tensor<T> = match &g.nodes[x.id].data {
        Some(t) => positive_mask(t),
        None => Tensor::scalar(T::zero()),
    };
    let mask = Variable::new(g, mask_data);
    let ghost mid = *g;
    let gx = crate::engine::ops::mul(g, gy, &mask);
    proof {
        let m = positive_mask_spec(held(before, *x));
        lemma_constant(before, mid, mask, m);
        lemma_binary(
            mid,
            *g,
            Rule::Mul,
            *gy,
            mask,
            gx,
            Term::Given(*gy),
            Term::Constant(m),
        );
    }
    single(g, Ghost(before), gx, Ghost(*gy))
}

#[verifier::spinoff_prover]
#[verifier::rlimit(40)]
fn mse_backward<T: Scalar, O: Op<T>>(
    g: &mut Graph<T, O>,
    x0: &Variable,
    x1: &Variable,
    gy: &Variable,
) -> (r: Vec<Variable>)
    requires
        old(g).wf(),
        holds(*old(g), *x0),
        holds(*old(g), *x1),
        holds(*old(g), *gy),
        held(*old(g), *x0).shape == held(*old(g), *x1).shape,
        held(*old(g), *x0).shape.len() > 0,
        held(*old(g), *gy).shape == Seq::<usize>::empty(),
    ensures
        made_or_handed(*old(g), r@, *gy),
        gives(
            *old(g),
            *final(g),
            r@,
            Rule::MeanSquaredError.gradient(
                seq![held(*old(g), *x0), held(*old(g), *x1)],
                held(*old(g), *gy),
            ),
        ),
        written(
            *old(g),
            *final(g),
            r@,
            Rule::MeanSquaredError.expressions(
                seq![held(*old(g), *x0), held(*old(g), *x1)],
                held(*old(g), *gy),
                seq![*x0, *x1],
                *gy,
            ),
        ),
{
    proof {
        reveal(Rule::expressions);
    }
    let ghost before = *g;
    proof {
        let s = held(*g, *x0).shape;
        lemma_held(*g, *x0);
        lemma_scalar_broadcasts(s);
        lemma_joint_absorbs(s, Seq::<usize>::empty());
        lemma_joint_with_itself(s);
    }
    let shape = shape_held(g, x0);
    let rows: usize = shape[0];
    let ghost (d, a, b) = leaves::<T, O>(*gy, *x0, *x1);
    let diff = crate::engine::ops::sub(g, x0, x1);
    let ghost g1 = *g;
    let slope = crate::engine::ops::mul(g, gy, &diff);
    let ghost g2 = *g;
    let factor = scalar(g, T::from_count(2).div(T::from_count(rows)));
    let ghost g3 = *g;
    let gx0 = crate::engine::ops::mul(g, &slope, &factor);
    let ghost g4 = *g;
    let gx1 = neg(g, &gx0);
    proof {
        let td = binary(Rule::Sub, a, b);
        let ts = binary(Rule::Mul, d, td);
        let c = scalar_spec(T::count_spec(2).over(T::count_spec(rows)));
        lemma_binary(before, g1, Rule::Sub, *x0, *x1, diff, a, b);
        lemma_binary(g1, g2, Rule::Mul, *gy, diff, slope, d, td);
        lemma_constant(g2, g3, factor, c);
        lemma_binary(g3, g4, Rule::Mul, slope, factor, gx0, ts, Term::Constant(c));
        lemma_unary(g4, *g, Rule::Neg, gx0, gx1, binary(Rule::Mul, ts, Term::Constant(c)));
    }
    twin(g, Ghost(before), gx0, gx1, Ghost(*gy))
}

#[verifier::spinoff_prover]
#[verifier::rlimit(40)]
fn matmul_backward<T: Scalar, O: Op<T>>(
    g: &mut Graph<T, O>,
    x: &Variable,
    w: &Variable,
    gy: &Variable,
) -> (r: (Variable, Variable))
    requires
        old(g).wf(),
        holds(*old(g), *x),
        holds(*old(g), *w),
        holds(*old(g), *gy),
        multiplies(held(*old(g), *x).shape, held(*old(g), *w).shape),
        held(*old(g), *gy).shape == seq![held(*old(g), *x).shape[0], held(*old(g), *w).shape[1]],
    ensures
        r.0.id >= old(g).nodes@.len(),
        r.1.id >= old(g).nodes@.len(),
        final(g).wf(),
        final(g).extends(*old(g)),
        holds(*final(g), r.0),
        holds(*final(g), r.1),
        held(*final(g), r.0) == matmul_spec(
            held(*old(g), *gy),
            transpose_spec(held(*old(g), *w)),
        ),
        held(*final(g), r.1) == matmul_spec(
            transpose_spec(held(*old(g), *x)),
            held(*old(g), *gy),
        ),
        held(*final(g), r.0).shape == held(*old(g), *x).shape,
        held(*final(g), r.1).shape == held(*old(g), *w).shape,
        old(g).config.enable_backprop ==> {
            let (d, a, b) = leaves::<T, O>(*gy, *x, *w);
            &&& means(*final(g), r.0, binary(Rule::MatMul, d, unary(Rule::Transpose, b)))
            &&& means(*final(g), r.1, binary(Rule::MatMul, unary(Rule::Transpose, a), d))
        },
{
    proof {
        let xa = held(*g, *x);
        let wa = held(*g, *w);
        lemma_held(*g, *x);
        lemma_held(*g, *w);
        lemma_transposed_matrix(xa);
        lemma_transposed_matrix(wa);
        assert(xa.shape =~= seq![xa.shape[0], xa.shape[1]]);
        assert(wa.shape =~= seq![wa.shape[0], wa.shape[1]]);
        lemma_volume2(xa.shape[0], xa.shape[1]);
        lemma_volume2(wa.shape[0], wa.shape[1]);
    }
    let ghost g0 = *g;
    let wt = transpose(g, w);
    let ghost g1 = *g;
    let gx = matmul(g, gy, &wt);
    let ghost g2 = *g;
    let xt = transpose(g, x);
    let ghost g3 = *g;
    let gw = matmul(g, &xt, gy);
    proof {
        let (d, a, b) = leaves::<T, O>(*gy, *x, *w);
        lemma_unary(g0, g1, Rule::Transpose, *w, wt, b);
        lemma_binary(g1, g2, Rule::MatMul, *gy, wt, gx, d, unary(Rule::Transpose, b));
        lemma_unary(g2, g3, Rule::Transpose, *x, xt, a);
        lemma_binary(g3, *g, Rule::MatMul, xt, *gy, gw, unary(Rule::Transpose, a), d);
    }
    (gx, gw)
}

/// The axes that a sum dropped come back where the gradient is spread.
proof fn lemma_spread(
    gy: Seq<usize>,
    x: Seq<usize>,
    axes: Option<Seq<isize>>,
    keepdims: bool,
)
    requires
        x.len() <= usize::MAX,
        sum_fits(x, axes),
        gy == sum_shape(x, axes, keepdims),
    ensures
        volume(spread_shape(gy, x, axes, keepdims)) == volume(gy),
        broadcasts_to(spread_shape(gy, x, axes, keepdims), x),
        !keepdims && x.len() != 0 ==> (axes matches Some(list) ==> forall|order: Seq<usize>|
            #[trigger] is_sorting(order, resolved_axes(list, x.len())) ==> insertable(gy.len(), order)
                && with_ones(gy, order) == kept_shape(x, listed(axes, x.len()))),
{
    let over = listed(axes, x.len());
    lemma_kept_shape(x, over);
    lemma_dropped_volume(x, over);
    if axes is None {
        if !keepdims {
            crate::functions::reduce::lemma_all_kept(x);
        }
    } else {
        let list = axes->0;
        if x.len() == 0 {
            assert(kept_shape(x, over) =~= x);
        }
        assert forall|order: Seq<usize>|
            !keepdims && x.len() != 0 && #[trigger] is_sorting(
                order,
                resolved_axes(list, x.len()),
            ) implies insertable(gy.len(), order) && with_ones(gy, order) == kept_shape(
            x,
            over,
        ) by {
            lemma_sorting_without_duplicates(order, over);
            lemma_shapes_by_membership(x, order, over);
            assert forall|i: int| 0 <= i < order.len() implies #[trigger] order[i] < x.len() by {
                assert(order.contains(order[i]));
                let j = over.index_of(order[i]);
                assert(over[j] == order[i]);
                assert(crate::utils::shape::valid_axis(list[j], x.len()));
            }
            reinserting_dropped_axes_keeps_the_rest(x, order);
        }
    }
}

#[verifier::spinoff_prover]
#[verifier::rlimit(40)]
fn sum_backward<T: Scalar, O: Op<T>>(
    g: &mut Graph<T, O>,
    axis: &Axes,
    keepdims: bool,
    x: &Variable,
    gy: &Variable,
) -> (r: Vec<Variable>)
    requires
        old(g).wf(),
        holds(*old(g), *x),
        holds(*old(g), *gy),
        sum_fits(held(*old(g), *x).shape, axis@),
        held(*old(g), *gy).shape == sum_shape(held(*old(g), *x).shape, axis@, keepdims),
    ensures
        made_or_handed(*old(g), r@, *gy),
        gives(
            *old(g),
            *final(g),
            r@,
            (Rule::Sum { axes: axis@, keepdims }).gradient(
                seq![held(*old(g), *x)],
                held(*old(g), *gy),
            ),
        ),
        written(
            *old(g),
            *final(g),
            r@,
            (Rule::Sum { axes: axis@, keepdims }).expressions(
                seq![held(*old(g), *x)],
                held(*old(g), *gy),
                seq![*x],
                *gy,
            ),
        ),
{
    proof {
        reveal(Rule::expressions);
    }
    let ghost before = *g;
    proof {
        lemma_held(*g, *x);
        lemma_spread(held(*g, *gy).shape, held(*g, *x).shape, axis@, keepdims);
    }
    let x_shape = shape_held(g, x);
    let gy_shape = shape_held(g, gy);
    let aligned = reshape_sum_backward(
        gy_shape.as_slice(),
        x_shape.as_slice(),
        axis.as_slice(),
        keepdims,
    );
    proof {
        assert(aligned@ == spread_shape(gy_shape@, x_shape@, axis@, keepdims));
    }
    let flat = reshape(g, gy, aligned.as_slice());
    let ghost mid = *g;
    let gx = broadcast_to(g, &flat, x_shape.as_slice());
    proof {
        let d = Term::<T, O::Rule>::Given(*gy);
        let (to0, to1) = (Rule::Reshape { shape: aligned@ }, Rule::BroadcastTo { shape: x_shape@ });
        lemma_unless_same(before, mid, to0, *gy, flat, gy_shape@, aligned@, d);
        lemma_unless_same(
            mid,
            *g,
            to1,
            flat,
            gx,
            aligned@,
            x_shape@,
            reshaped(d, gy_shape@, aligned@),
        );
    }
    single(g, Ghost(before), gx, Ghost(*gy))
}

/// What a convolution of these shapes needs of its gradient.
pub proof fn lemma_conv_gradient(
    x: Seq<usize>,
    w: Seq<usize>,
    stride: (usize, usize),
    pad: (usize, usize),
)
    requires
        conv2d_fits(x, w, None, stride, pad),
    ensures
        ({
            let gy = conv2d_shape(x, w, stride, pad);
            let size = Some((x[2], x[3]));
            &&& deconv2d_fits(gy, w, None, stride, pad, size)
            &&& deconv2d_shape(gy, w, stride, pad, size) == x
            &&& conv2d_grad_w_fits(x, gy, (w[2], w[3]), stride, pad)
            &&& w == seq![gy[1], x[1], w[2], w[3]]
            &&& sum_fits(gy, bias_axes())
            &&& sum_shape(gy, bias_axes(), false) == seq![w[0]]
        }),
{
    let gy = conv2d_shape(x, w, stride, pad);
    lemma_shape4(x);
    lemma_shape4(w);
    assert(deconv2d_shape(gy, w, stride, pad, Some((x[2], x[3]))) =~= x);
    lemma_bias_axes(gy);
}

/// Summing a batch of images over everything but the channels leaves one element per
/// channel.
pub proof fn lemma_bias_axes(s: Seq<usize>)
    requires
        s.len() == 4,
    ensures
        sum_fits(s, bias_axes()),
        sum_shape(s, bias_axes(), false) == seq![s[1]],
        kept_shape(s, listed(bias_axes(), 4)) == seq![1, s[1], 1, 1],
{
    let over = listed(bias_axes(), 4);
    assert(over =~= seq![0usize, 2, 3]);
    assert(over[0] == 0 && over[1] == 2 && over[2] == 3);
    assert(over.contains(0) && over.contains(2) && over.contains(3));
    assert(!over.contains(1));
    reveal_with_fuel(dropped_shape, 5);
    let s3 = s.drop_last();
    let s2 = s3.drop_last();
    let s1 = s2.drop_last();
    assert(s1.drop_last().len() == 0);
    assert(dropped_shape(s1, over) =~= Seq::<usize>::empty());
    assert(dropped_shape(s2, over) =~= seq![s[1]]);
    assert(dropped_shape(s3, over) =~= seq![s[1]]);
    assert(dropped_shape(s, over) =~= seq![s[1]]);
    let kept = kept_shape(s, over);
    assert(kept =~= seq![1usize, s[1], 1, 1]);
    lemma_volume4(1, s[1], 1, 1);
    let c = s[1] as nat;
    assert(1 * c * 1 * 1 == c) by (nonlinear_arith);
    let list = bias_axes()->0;
    assert forall|i: int| 0 <= i < list.len() implies crate::utils::shape::valid_axis(
        #[trigger] list[i],
        4,
    ) by {}
}

/// The axes of [`bias_axes`].
fn image_axes() -> (r: Axes)
    ensures
        r@ == bias_axes(),
{
    let mut axes: Vec<isize> = Vec::new();
    axes.push(0);
    axes.push(2);
    axes.push(3);
    proof {
        assert(axes@ =~= seq![0isize, 2, 3]);
    }
    Axes::Only(axes)
}

#[verifier::spinoff_prover]
#[verifier::rlimit(40)]
fn conv2d_backward<T: Scalar, O: Op<T>>(
    g: &mut Graph<T, O>,
    stride: (usize, usize),
    pad: (usize, usize),
    x: &Variable,
    w: &Variable,
    biased: bool,
    gy: &Variable,
) -> (r: Vec<Variable>)
    requires
        old(g).wf(),
        holds(*old(g), *x),
        holds(*old(g), *w),
        holds(*old(g), *gy),
        conv2d_fits(held(*old(g), *x).shape, held(*old(g), *w).shape, None, stride, pad),
        held(*old(g), *gy).shape == conv2d_shape(
            held(*old(g), *x).shape,
            held(*old(g), *w).shape,
            stride,
            pad,
        ),
    ensures
        made_or_handed(*old(g), r@, *gy),
        old(g).config.enable_backprop ==> ({
            let (xs, ws) = (held(*old(g), *x).shape, held(*old(g), *w).shape);
            let (d, a, b) = leaves::<T, O>(*gy, *x, *w);
            let size = Some((xs[2], xs[3]));
            &&& means(*final(g), r@[0], binary(Rule::Deconv2d { stride, pad, outsize: size }, d, b))
            &&& means(
                *final(g),
                r@[1],
                binary(Rule::Conv2dGradW { kernel: (ws[2], ws[3]), stride, pad }, a, d),
            )
            &&& biased ==> means(
                *final(g),
                r@[2],
                unary(Rule::Sum { axes: bias_axes(), keepdims: false }, d),
            )
        }),
        ({
            let xa = held(*old(g), *x);
            let wa = held(*old(g), *w);
            let gya = held(*old(g), *gy);
            let gx = deconv2d_spec(gya, wa, None, stride, pad, Some((xa.shape[2], xa.shape[3])));
            let gw = conv2d_grad_w_spec(xa, gya, (wa.shape[2], wa.shape[3]), stride, pad);
            gives(
                *old(g),
                *final(g),
                r@,
                if biased {
                    seq![gx, gw, sum_spec(gya, bias_axes(), false)]
                } else {
                    seq![gx, gw]
                },
            )
        }),
{
    let ghost before = *g;
    proof {
        lemma_conv_gradient(held(*g, *x).shape, held(*g, *w).shape, stride, pad);
    }
    let xs = shape_held(g, x);
    let ws = shape_held(g, w);
    let size: (usize, usize) = (xs[2], xs[3]);
    let ghost (d, a, b) = leaves::<T, O>(*gy, *x, *w);
    let back = Deconv2d { stride, pad, outsize: Some(size) };
    let gx = apply_deconv(g, back, gy, w, None);
    let ghost g1 = *g;
    let op = Conv2dGradW { kernel: (ws[2], ws[3]), stride, pad };
    let gw = apply_binary(g, Builtin::Conv2dGradW(op), x, gy);
    let ghost g2 = *g;
    proof {
        let back = Rule::Deconv2d { stride, pad, outsize: Some(size) };
        let filters = Rule::Conv2dGradW { kernel: (ws[2], ws[3]), stride, pad };
        assert(operands(*gy, *w, None) =~= seq![*gy, *w]);
        lemma_binary(before, g1, back, *gy, *w, gx, d, b);
        lemma_binary(g1, g2, filters, *x, *gy, gw, a, d);
    }
    if biased {
        let gb = sum_over(g, gy, image_axes(), false);
        proof {
            let over = Rule::Sum { axes: bias_axes(), keepdims: false };
            lemma_unary(g2, *g, over, *gy, gb, d);
        }
        triple(g, Ghost(before), gx, gw, gb, Ghost(*gy))
    } else {
        twin(g, Ghost(before), gx, gw, Ghost(*gy))
    }
}

/// What a transposed convolution of these shapes needs of its gradient.
pub proof fn lemma_deconv_gradient(
    x: Seq<usize>,
    w: Seq<usize>,
    stride: (usize, usize),
    pad: (usize, usize),
    outsize: Option<(usize, usize)>,
)
    requires
        deconv2d_fits(x, w, None, stride, pad, outsize),
        volume(x) <= usize::MAX,
        ({
            let out = deconv2d_shape(x, w, stride, pad, outsize);
            let p = patches_spec(out, (w[2], w[3]), stride, pad);
            p.out_h == x[2] && p.out_w == x[3]
        }),
    ensures
        ({
            let gy = deconv2d_shape(x, w, stride, pad, outsize);
            &&& conv2d_fits(gy, w, None, stride, pad)
            &&& conv2d_shape(gy, w, stride, pad) == x
            &&& conv2d_grad_w_fits(gy, x, (w[2], w[3]), stride, pad)
            &&& w == seq![x[1], gy[1], w[2], w[3]]
            &&& sum_fits(gy, bias_axes())
            &&& sum_shape(gy, bias_axes(), false) == seq![w[1]]
        }),
{
    let gy = deconv2d_shape(x, w, stride, pad, outsize);
    lemma_shape4(x);
    lemma_shape4(w);
    lemma_volume4(x[0], x[1], x[2], x[3]);
    let (a, b, c, d) = (x[0] as nat, x[1] as nat, x[2] as nat, x[3] as nat);
    assert(a * c * d * b == a * b * c * d) by (nonlinear_arith);
    assert(conv2d_shape(gy, w, stride, pad) =~= x);
    lemma_bias_axes(gy);
}

#[verifier::spinoff_prover]
#[verifier::rlimit(40)]
fn deconv2d_backward<T: Scalar, O: Op<T>>(
    g: &mut Graph<T, O>,
    op: &Deconv2d,
    x: &Variable,
    w: &Variable,
    biased: bool,
    gy: &Variable,
) -> (r: Vec<Variable>)
    requires
        old(g).wf(),
        holds(*old(g), *x),
        holds(*old(g), *w),
        holds(*old(g), *gy),
        deconv2d_fits(
            held(*old(g), *x).shape,
            held(*old(g), *w).shape,
            None,
            op.stride,
            op.pad,
            op.outsize,
        ),
        held(*old(g), *gy).shape == deconv2d_shape(
            held(*old(g), *x).shape,
            held(*old(g), *w).shape,
            op.stride,
            op.pad,
            op.outsize,
        ),
        ({
            let ws = held(*old(g), *w).shape;
            let p = patches_spec(held(*old(g), *gy).shape, (ws[2], ws[3]), op.stride, op.pad);
            p.out_h == held(*old(g), *x).shape[2] && p.out_w == held(*old(g), *x).shape[3]
        }),
    ensures
        made_or_handed(*old(g), r@, *gy),
        old(g).config.enable_backprop ==> ({
            let ws = held(*old(g), *w).shape;
            let (stride, pad) = (op.stride, op.pad);
            let (d, a, b) = leaves::<T, O>(*gy, *x, *w);
            &&& means(*final(g), r@[0], binary(Rule::Conv2d { stride, pad }, d, b))
            &&& means(
                *final(g),
                r@[1],
                binary(Rule::Conv2dGradW { kernel: (ws[2], ws[3]), stride, pad }, d, a),
            )
            &&& biased ==> means(
                *final(g),
                r@[2],
                unary(Rule::Sum { axes: bias_axes(), keepdims: false }, d),
            )
        }),
        ({
            let xa = held(*old(g), *x);
            let wa = held(*old(g), *w);
            let gya = held(*old(g), *gy);
            let gx = conv2d_spec(gya, wa, None, op.stride, op.pad);
            let gw = conv2d_grad_w_spec(gya, xa, (wa.shape[2], wa.shape[3]), op.stride, op.pad);
            gives(
                *old(g),
                *final(g),
                r@,
                if biased {
                    seq![gx, gw, sum_spec(gya, bias_axes(), false)]
                } else {
                    seq![gx, gw]
                },
            )
        }),
{
    let ghost before = *g;
    proof {
        lemma_held(*g, *x);
        lemma_deconv_gradient(
            held(*g, *x).shape,
            held(*g, *w).shape,
            op.stride,
            op.pad,
            op.outsize,
        );
    }
    let ws = shape_held(g, w);
    let ghost (d, a, b) = leaves::<T, O>(*gy, *x, *w);
    let again = Conv2d { stride: op.stride, pad: op.pad };
    let gx = apply_conv(g, again, gy, w, None);
    let ghost g1 = *g;
    let grad = Conv2dGradW { kernel: (ws[2], ws[3]), stride: op.stride, pad: op.pad };
    let gw = apply_binary(g, Builtin::Conv2dGradW(grad), gy, x);
    let ghost g2 = *g;
    proof {
        let (stride, pad) = (op.stride, op.pad);
        let filters = Rule::Conv2dGradW { kernel: (ws[2], ws[3]), stride, pad };
        assert(operands(*gy, *w, None) =~= seq![*gy, *w]);
        lemma_binary(before, g1, Rule::Conv2d { stride, pad }, *gy, *w, gx, d, b);
        lemma_binary(g1, g2, filters, *gy, *x, gw, d, a);
    }
    if biased {
        let gb = sum_over(g, gy, image_axes(), false);
        proof {
            let over = Rule::Sum { axes: bias_axes(), keepdims: false };
            lemma_unary(g2, *g, over, *gy, gb, d);
        }
        triple(g, Ghost(before), gx, gw, gb, Ghost(*gy))
    } else {
        twin(g, Ghost(before), gx, gw, Ghost(*gy))
    }
}

/// What the gradient of the filters needs of its own gradient.
pub proof fn lemma_grad_w_gradient(
    x: Seq<usize>,
    gy: Seq<usize>,
    kernel: (usize, usize),
    stride: (usize, usize),
    pad: (usize, usize),
)
    requires
        conv2d_grad_w_fits(x, gy, kernel, stride, pad),
        volume(gy) <= usize::MAX,
        patches_spec(x, kernel, stride, pad).out_h == gy[2],
        patches_spec(x, kernel, stride, pad).out_w == gy[3],
    ensures
        ({
            let w = seq![gy[1], x[1], kernel.0, kernel.1];
            let size = Some((x[2], x[3]));
            &&& deconv2d_fits(gy, w, None, stride, pad, size)
            &&& deconv2d_shape(gy, w, stride, pad, size) == x
            &&& conv2d_fits(x, w, None, stride, pad)
            &&& conv2d_shape(x, w, stride, pad) == gy
        }),
{
    let w = seq![gy[1], x[1], kernel.0, kernel.1];
    lemma_shape4(x);
    lemma_shape4(gy);
    lemma_volume4(gy[0], gy[1], gy[2], gy[3]);
    let (a, b, c, d) = (gy[0] as nat, gy[1] as nat, gy[2] as nat, gy[3] as nat);
    assert(a * c * d * b == a * b * c * d) by (nonlinear_arith);
    assert(deconv2d_shape(gy, w, stride, pad, Some((x[2], x[3]))) =~= x);
    assert(conv2d_shape(x, w, stride, pad) =~= gy);
}

#[verifier::spinoff_prover]
#[verifier::rlimit(40)]
fn grad_w_backward<T: Scalar, O: Op<T>>(
    g: &mut Graph<T, O>,
    op: &Conv2dGradW,
    x: &Variable,
    gy: &Variable,
    ggw: &Variable,
) -> (r: Vec<Variable>)
    requires
        old(g).wf(),
        holds(*old(g), *x),
        holds(*old(g), *gy),
        holds(*old(g), *ggw),
        (Rule::Conv2dGradW { kernel: op.kernel, stride: op.stride, pad: op.pad }).differentiable(
            seq![held(*old(g), *x).shape, held(*old(g), *gy).shape],
        ),
        held(*old(g), *ggw).shape == seq![
            held(*old(g), *gy).shape[1],
            held(*old(g), *x).shape[1],
            op.kernel.0,
            op.kernel.1,
        ],
    ensures
        made_or_handed(*old(g), r@, *ggw),
        gives(
            *old(g),
            *final(g),
            r@,
            (Rule::Conv2dGradW { kernel: op.kernel, stride: op.stride, pad: op.pad }).gradient(
                seq![held(*old(g), *x), held(*old(g), *gy)],
                held(*old(g), *ggw),
            ),
        ),
        written(
            *old(g),
            *final(g),
            r@,
            (Rule::Conv2dGradW { kernel: op.kernel, stride: op.stride, pad: op.pad }).expressions(
                seq![held(*old(g), *x), held(*old(g), *gy)],
                held(*old(g), *ggw),
                seq![*x, *gy],
                *ggw,
            ),
        ),
{
    proof {
        reveal(Rule::expressions);
    }
    let ghost before = *g;
    proof {
        lemma_held(*g, *gy);
        lemma_grad_w_gradient(
            held(*g, *x).shape,
            held(*g, *gy).shape,
            op.kernel,
            op.stride,
            op.pad,
        );
    }
    let xs = shape_held(g, x);
    let size: (usize, usize) = (xs[2], xs[3]);
    let fold = Deconv2d { stride: op.stride, pad: op.pad, outsize: Some(size) };
    let gx = apply_deconv(g, fold, gy, ggw, None);
    let ghost mid = *g;
    let again = Conv2d { stride: op.stride, pad: op.pad };
    let ggy = apply_conv(g, again, x, ggw, None);
    proof {
        let (d, a, b) = leaves::<T, O>(*ggw, *x, *gy);
        let (stride, pad) = (op.stride, op.pad);
        let back = Rule::Deconv2d { stride, pad, outsize: Some(size) };
        assert(operands(*gy, *ggw, None) =~= seq![*gy, *ggw]);
        assert(operands(*x, *ggw, None) =~= seq![*x, *ggw]);
        lemma_binary(before, mid, back, *gy, *ggw, gx, b, d);
        lemma_binary(mid, *g, Rule::Conv2d { stride, pad }, *x, *ggw, ggy, a, d);
    }
    twin(g, Ghost(before), gx, ggy, Ghost(*ggw))
}

/// The gradient of a pooled variable, given the winners.
#[verifier::spinoff_prover]
#[verifier::rlimit(40)]
fn pooled_backward<T: Scalar, O: Op<T>>(
    g: &mut Graph<T, O>,
    kernel: (usize, usize),
    stride: (usize, usize),
    pad: (usize, usize),
    winners: &Vec<usize>,
    x: &Variable,
    gy: &Variable,
) -> (r: Vec<Variable>)
    requires
        old(g).wf(),
        holds(*old(g), *x),
        holds(*old(g), *gy),
        pooling_fits(held(*old(g), *x).shape, kernel, stride, pad),
        winners_fit(patches_spec(held(*old(g), *x).shape, kernel, stride, pad), winners@),
        held(*old(g), *gy).shape == pooled_shape(
            patches_spec(held(*old(g), *x).shape, kernel, stride, pad),
        ),
    ensures
        made_or_handed(*old(g), r@, *gy),
        gives(
            *old(g),
            *final(g),
            r@,
            seq![
                pooling_grad_spec(
                    held(*old(g), *gy),
                    held(*old(g), *x).shape,
                    kernel,
                    stride,
                    pad,
                    winners@,
                ),
            ],
        ),
        written(
            *old(g),
            *final(g),
            r@,
            seq![
                unary(
                    Rule::Pooling2dGrad {
                        kernel,
                        stride,
                        pad,
                        input_shape: held(*old(g), *x).shape,
                        winners: winners@,
                    },
                    Term::Given(*gy),
                ),
            ],
        ),
{
    let ghost before = *g;
    let input_shape = shape_held(g, x);
    let op = Pooling2dGrad {
        kernel,
        stride,
        pad,
        input_shape,
        winners: copy_of(winners.as_slice()),
    };
    let ghost rule = Builtin::Pooling2dGrad(op).meaning();
    let gx = apply_unary(g, Builtin::Pooling2dGrad(op), gy);
    proof {
        lemma_unary(before, *g, rule, *gy, gx, Term::Given(*gy));
    }
    single(g, Ghost(before), gx, Ghost(*gy))
}

/// The gradients of a differentiable operation have the shapes of its inputs.
#[verifier::spinoff_prover]
#[verifier::rlimit(40)]
pub proof fn gradients_have_the_shapes_of_the_inputs<T: Scalar>(
    rule: Rule,
    xs: Seq<Array<T>>,
    gy: Array<T>,
)
    requires
        rule.differentiable(shapes(xs)),
        gy.shape == rule.out_shape(shapes(xs)),
        forall|i: int|
            0 <= i < xs.len() ==> (#[trigger] xs[i]).wf() && xs[i].shape.len() <= usize::MAX,
    ensures
        shapes(rule.gradient(xs, gy)) == shapes(xs),
{
    let s = shapes(xs);
    if xs.len() > 0 {
        assert(xs[0].wf() && s[0] == xs[0].shape);
    }
    if xs.len() > 1 {
        assert(xs[1].wf() && s[1] == xs[1].shape);
    }
    if xs.len() > 2 {
        assert(xs[2].wf() && s[2] == xs[2].shape);
    }
    match rule {
        Rule::Add | Rule::Sub | Rule::Mul | Rule::Div => {
            joint_shape_receives_both(s[0], s[1]);
            lemma_joint_absorbs(gy.shape, s[0]);
            lemma_joint_absorbs(gy.shape, s[1]);
            lemma_joint_with_itself(gy.shape);
            assert(shapes(rule.gradient(xs, gy)) =~= s);
        },
        Rule::Square => {
            lemma_scalar_broadcasts(s[0]);
            lemma_joint_absorbs(s[0], Seq::<usize>::empty());
            lemma_joint_with_itself(s[0]);
            assert(shapes(rule.gradient(xs, gy)) =~= s);
        },
        Rule::ReLU => {
            lemma_joint_with_itself(s[0]);
            assert(shapes(rule.gradient(xs, gy)) =~= s);
        },
        Rule::MeanSquaredError => {
            lemma_scalar_broadcasts(s[0]);
            lemma_joint_absorbs(s[0], Seq::<usize>::empty());
            lemma_joint_with_itself(s[0]);
            assert(shapes(rule.gradient(xs, gy)) =~= s);
        },
        Rule::Transpose => {
            lemma_reverse_twice(s[0]);
            assert(shapes(rule.gradient(xs, gy)) =~= s);
        },
        Rule::MatMul | Rule::Linear => {
            lemma_transposed_matrix(xs[0]);
            lemma_transposed_matrix(xs[1]);
            assert(s[0] =~= seq![s[0][0], s[0][1]]);
            assert(s[1] =~= seq![s[1][0], s[1][1]]);
            assert(shapes(rule.gradient(xs, gy)) =~= s);
        },
        Rule::Col2im { input_shape, kernel, stride, pad, to_matrix } => {
            lemma_im2col_shape(gy, kernel, stride, pad, to_matrix);
            assert(shapes(rule.gradient(xs, gy)) =~= s);
        },
        Rule::Conv2d { stride, pad } => {
            lemma_conv_gradient(s[0], s[1], stride, pad);
            assert(shapes(rule.gradient(xs, gy)) =~= s);
        },
        Rule::Deconv2d { stride, pad, outsize } => {
            lemma_deconv_gradient(s[0], s[1], stride, pad, outsize);
            lemma_conv2d_spec_shape(gy, xs[1], stride, pad);
            assert(shapes(rule.gradient(xs, gy)) =~= s);
        },
        Rule::Conv2dGradW { kernel, stride, pad } => {
            lemma_grad_w_gradient(s[0], s[1], kernel, stride, pad);
            lemma_conv2d_spec_shape(xs[0], gy, stride, pad);
            assert(shapes(rule.gradient(xs, gy)) =~= s);
        },
        _ => {
            assert(shapes(rule.gradient(xs, gy)) =~= s);
        },
    }
}

proof fn lemma_reverse_twice(s: Seq<usize>)
    requires
        s.len() <= usize::MAX,
    ensures
        crate::tensor::permuted(
            crate::tensor::permuted(s, crate::tensor::reversed_axes(s.len())),
            crate::tensor::reversed_axes(s.len()),
        ) == s,
{
    let r = crate::tensor::reversed_axes(s.len());
    assert(crate::tensor::permuted(crate::tensor::permuted(s, r), r) =~= s);
}

proof fn lemma_im2col_shape<T: Scalar>(
    img: Array<T>,
    kernel: (usize, usize),
    stride: (usize, usize),
    pad: (usize, usize),
    to_matrix: bool,
)
    ensures
        im2col_array_spec(img, kernel, stride, pad, to_matrix).shape == col_shape(
            img.shape,
            kernel,
            stride,
            pad,
            to_matrix,
        ),
{
    let p = patches_spec(img.shape, kernel, stride, pad);
    assert(crate::tensor::permuted(p.window_shape(), crate::utils::conv::positions_last())
        =~= p.tensor_shape_spec());
}

proof fn lemma_conv2d_spec_shape<T: Scalar>(
    x: Array<T>,
    w: Array<T>,
    stride: (usize, usize),
    pad: (usize, usize),
)
    ensures
        conv2d_spec(x, w, None, stride, pad).shape == conv2d_shape(
            x.shape,
            w.shape,
            stride,
            pad,
        ),
{
    let p = conv_patches(x.shape, w.shape, stride, pad);
    assert(crate::tensor::permuted(
        seq![p.batch, p.out_h, p.out_w, w.shape[0]],
        crate::utils::conv::channels_first(),
    ) =~= conv2d_shape(x.shape, w.shape, stride, pad));
}

impl Builtin {
    /// Computes the gradients of the inputs as new variables.
    #[verifier::spinoff_prover]
    #[verifier::rlimit(80)]
    pub fn differentiate<T: Scalar, O: Op<T>>(
        &self,
        g: &mut Graph<T, O>,
        inputs: &Vec<Variable>,
        gy: &Variable,
    ) -> (gxs: Vec<Variable>)
        requires
            old(g).wf(),
            old(g).all_hold(inputs@),
            holds(*old(g), *gy),
            self.meaning().differentiable(shapes(old(g).arrays(inputs@))),
            held(*old(g), *gy).shape == self.meaning().out_shape(shapes(old(g).arrays(inputs@))),
        ensures
            made_or_handed(*old(g), gxs@, *gy),
            gives(
                *old(g),
                *final(g),
                gxs@,
                self.meaning().gradient(old(g).arrays(inputs@), held(*old(g), *gy)),
            ),
            shapes(final(g).arrays(gxs@)) == shapes(old(g).arrays(inputs@)),
            written(
                *old(g),
                *final(g),
                gxs@,
                self.meaning().expressions(
                    old(g).arrays(inputs@),
                    held(*old(g), *gy),
                    inputs@,
                    *gy,
                ),
            ),
    {
        let ghost before = *g;
        let ghost rule = self.meaning();
        let ghost gya = held(*g, *gy);
        let ghost d = Term::<T, O::Rule>::Given(*gy);
        let ghost xs = g.arrays(inputs@);
        let ghost s = shapes(xs);
        let n: usize = inputs.len();
        proof {
            assert forall|i: int| 0 <= i < xs.len() implies (#[trigger] xs[i]).wf()
                && xs[i].shape.len() <= usize::MAX by {
                assert(holds(*g, inputs@[i]));
                lemma_held(*g, inputs@[i]);
            }
            gradients_have_the_shapes_of_the_inputs(self.meaning(), xs, held(*g, *gy));
            if n > 0 {
                assert(holds(*g, inputs@[0]));
                assert(xs[0] == held(*g, inputs@[0]) && s[0] == xs[0].shape);
            }
            if n > 1 {
                assert(holds(*g, inputs@[1]));
                assert(xs[1] == held(*g, inputs@[1]) && s[1] == xs[1].shape);
            }
            if n > 2 {
                assert(holds(*g, inputs@[2]));
                assert(xs[2] == held(*g, inputs@[2]) && s[2] == xs[2].shape);
            }
            if n == 1 {
                assert(xs =~= seq![xs[0]]);
                assert(s =~= seq![s[0]]);
                assert(inputs@ =~= seq![inputs@[0]]);
            }
            if n == 2 {
                assert(xs =~= seq![xs[0], xs[1]]);
                assert(s =~= seq![s[0], s[1]]);
                assert(inputs@ =~= seq![inputs@[0], inputs@[1]]);
            }
        }
        match self {
            Builtin::Add(_) => add_backward(g, &inputs[0], &inputs[1], gy),
            Builtin::Sub(_) => sub_backward(g, &inputs[0], &inputs[1], gy),
            Builtin::Mul(_) => mul_backward(g, &inputs[0], &inputs[1], gy),
            Builtin::Div(_) => div_backward(g, &inputs[0], &inputs[1], gy),
            Builtin::Neg(_) => {
                let gx = neg(g, gy);
                proof {
                    lemma_unary(before, *g, Rule::Neg, *gy, gx, d);
                }
                let r = single(g, Ghost(before), gx, Ghost(*gy));
                assert(written(before, *g, r@, rule.expressions(xs, gya, inputs@, *gy))) by {
                    reveal(Rule::expressions);
                }
                r
            },
            Builtin::Square(_) => square_backward(g, &inputs[0], gy),
            Builtin::ReLU(_) => relu_backward(g, &inputs[0], gy),
            Builtin::Reshape(_) => {
                let shape = shape_held(g, &inputs[0]);
                let gx = reshape(g, gy, shape.as_slice());
                proof {
                    let (from, to) = (held(before, *gy).shape, shape@);
                    lemma_unless_same(
                        before,
                        *g,
                        Rule::Reshape { shape: to },
                        *gy,
                        gx,
                        from,
                        to,
                        d,
                    );
                }
                let r = single(g, Ghost(before), gx, Ghost(*gy));
                assert(written(before, *g, r@, rule.expressions(xs, gya, inputs@, *gy))) by {
                    reveal(Rule::expressions);
                }
                r
            },
            Builtin::Transpose(_) => {
                let gx = transpose(g, gy);
                proof {
                    lemma_unary(before, *g, Rule::Transpose, *gy, gx, d);
                }
                let r = single(g, Ghost(before), gx, Ghost(*gy));
                assert(written(before, *g, r@, rule.expressions(xs, gya, inputs@, *gy))) by {
                    reveal(Rule::expressions);
                }
                r
            },
            Builtin::Sum(op) => sum_backward(g, &op.axis, op.keepdims, &inputs[0], gy),
            Builtin::SumTo(_) => {
                let shape = shape_held(g, &inputs[0]);
                let gx = broadcast_to(g, gy, shape.as_slice());
                proof {
                    let (from, to) = (held(before, *gy).shape, shape@);
                    lemma_unless_same(
                        before,
                        *g,
                        Rule::BroadcastTo { shape: to },
                        *gy,
                        gx,
                        from,
                        to,
                        d,
                    );
                }
                let r = single(g, Ghost(before), gx, Ghost(*gy));
                assert(written(before, *g, r@, rule.expressions(xs, gya, inputs@, *gy))) by {
                    reveal(Rule::expressions);
                }
                r
            },
            Builtin::BroadcastTo(_) => {
                let shape = shape_held(g, &inputs[0]);
                let gx = sum_to(g, gy, shape.as_slice());
                proof {
                    let (from, to) = (held(before, *gy).shape, shape@);
                    lemma_unless_same(before, *g, Rule::SumTo { shape: to }, *gy, gx, from, to, d);
                }
                let r = single(g, Ghost(before), gx, Ghost(*gy));
                assert(written(before, *g, r@, rule.expressions(xs, gya, inputs@, *gy))) by {
                    reveal(Rule::expressions);
                }
                r
            },
            Builtin::MatMul(_) => {
                let (gx, gw) = matmul_backward(g, &inputs[0], &inputs[1], gy);
                let r = twin(g, Ghost(before), gx, gw, Ghost(*gy));
                assert(written(before, *g, r@, rule.expressions(xs, gya, inputs@, *gy))) by {
                    reveal(Rule::expressions);
                }
                r
            },
            Builtin::Linear(_) => {
                let (gx, gw) = matmul_backward(g, &inputs[0], &inputs[1], gy);
                if n == 3 {
                    let shape = shape_held(g, &inputs[2]);
                    let ghost mid = *g;
                    let gb = sum_to(g, gy, shape.as_slice());
                    proof {
                        let (from, to) = (held(before, *gy).shape, shape@);
                        lemma_unless_same(mid, *g, Rule::SumTo { shape: to }, *gy, gb, from, to, d);
                    }
                    let r = triple(g, Ghost(before), gx, gw, gb, Ghost(*gy));
                    assert(written(before, *g, r@, rule.expressions(xs, gya, inputs@, *gy))) by {
                        reveal(Rule::expressions);
                    }
                    r
                } else {
                    let r = twin(g, Ghost(before), gx, gw, Ghost(*gy));
                    assert(written(before, *g, r@, rule.expressions(xs, gya, inputs@, *gy))) by {
                        reveal(Rule::expressions);
                    }
                    r
                }
            },
            Builtin::MeanSquaredError(_) => mse_backward(g, &inputs[0], &inputs[1], gy),
            Builtin::Im2col(op) => {
                let fold = Col2im {
                    kernel: op.kernel,
                    stride: op.stride,
                    pad: op.pad,
                    input_shape: shape_held(g, &inputs[0]),
                    to_matrix: op.to_matrix,
                };
                let ghost input_shape = fold.input_shape@;
                let gx = apply_col2im(g, fold, gy);
                proof {
                    let back = Rule::Col2im {
                        input_shape,
                        kernel: op.kernel,
                        stride: op.stride,
                        pad: op.pad,
                        to_matrix: op.to_matrix,
                    };
                    lemma_unary(before, *g, back, *gy, gx, d);
                }
                let r = single(g, Ghost(before), gx, Ghost(*gy));
                assert(written(before, *g, r@, rule.expressions(xs, gya, inputs@, *gy))) by {
                    reveal(Rule::expressions);
                }
                r
            },
            Builtin::Col2im(op) => {
                let again = Im2col {
                    kernel: op.kernel,
                    stride: op.stride,
                    pad: op.pad,
                    to_matrix: op.to_matrix,
                };
                let gx = apply_im2col(g, again, gy);
                proof {
                    let cut = Rule::Im2col {
                        kernel: op.kernel,
                        stride: op.stride,
                        pad: op.pad,
                        to_matrix: op.to_matrix,
                    };
                    lemma_unary(before, *g, cut, *gy, gx, d);
                }
                let r = single(g, Ghost(before), gx, Ghost(*gy));
                assert(written(before, *g, r@, rule.expressions(xs, gya, inputs@, *gy))) by {
                    reveal(Rule::expressions);
                }
                r
            },
            Builtin::Conv2d(op) => {
                let r = conv2d_backward(
                    g,
                    op.stride,
                    op.pad,
                    &inputs[0],
                    &inputs[1],
                    n == 3,
                    gy,
                );
                assert(written(before, *g, r@, rule.expressions(xs, gya, inputs@, *gy))) by {
                    reveal(Rule::expressions);
                }
                r
            },
            Builtin::Deconv2d(op) => {
                let r = deconv2d_backward(g, op, &inputs[0], &inputs[1], n == 3, gy);
                assert(written(before, *g, r@, rule.expressions(xs, gya, inputs@, *gy))) by {
                    reveal(Rule::expressions);
                }
                r
            },
            Builtin::Conv2dGradW(op) => grad_w_backward(g, op, &inputs[0], &inputs[1], gy),
            Builtin::Pooling(op) => {
                let r = pooled_backward(
                    g,
                    op.kernel,
                    op.stride,
                    op.pad,
                    &op.winners,
                    &inputs[0],
                    gy,
                );
                assert(written(before, *g, r@, rule.expressions(xs, gya, inputs@, *gy))) by {
                    reveal(Rule::expressions);
                }
                r
            },
            Builtin::Pooling2dGrad(op) => {
                let pick = Pooling2dWithIndexes {
                    kernel: op.kernel,
                    stride: op.stride,
                    pad: op.pad,
                    winners: copy_of(op.winners.as_slice()),
                };
                let ghost chosen = Builtin::Pooling2dWithIndexes(pick).meaning();
                let gx = apply_unary(g, Builtin::Pooling2dWithIndexes(pick), gy);
                proof {
                    lemma_unary(before, *g, chosen, *gy, gx, d);
                }
                let r = single(g, Ghost(before), gx, Ghost(*gy));
                assert(written(before, *g, r@, rule.expressions(xs, gya, inputs@, *gy))) by {
                    reveal(Rule::expressions);
                }
                r
            },
            Builtin::Pooling2dWithIndexes(op) => {
                let r = pooled_backward(
                    g,
                    op.kernel,
                    op.stride,
                    op.pad,
                    &op.winners,
                    &inputs[0],
                    gy,
                );
                assert(written(before, *g, r@, rule.expressions(xs, gya, inputs@, *gy))) by {
                    reveal(Rule::expressions);
                }
                r
            },
        }
    }
}

/// A graph of built-in operations alone.
impl<T: Scalar> Op<T> for Builtin {
    type Rule = Rule;

    open spec fn rule(&self) -> Rule {
        Builtin::meaning(*self)
    }

    open spec fn accepts(rule: Rule, s: Seq<Seq<usize>>) -> bool {
        rule.accepts(s)
    }

    open spec fn differentiable(rule: Rule, s: Seq<Seq<usize>>) -> bool {
        rule.differentiable(s)
    }

    open spec fn out_shapes(rule: Rule, s: Seq<Seq<usize>>) -> Seq<Seq<usize>> {
        seq![rule.out_shape(s)]
    }

    open spec fn value(rule: Rule, xs: Seq<Array<T>>) -> Seq<Array<T>> {
        seq![rule.value(xs)]
    }

    open spec fn recorded(rule: Rule, xs: Seq<Array<T>>) -> Rule {
        rule.recorded(xs)
    }

    open spec fn gradient(
        rule: Rule,
        xs: Seq<Array<T>>,
        ys: Seq<Array<T>>,
        gys: Seq<Array<T>>,
    ) -> Seq<Array<T>> {
        rule.gradient(xs, gys[0])
    }

    open spec fn expressions(
        rule: Rule,
        xs: Seq<Array<T>>,
        gys: Seq<Array<T>>,
        inputs: Seq<Variable>,
        outputs: Seq<Variable>,
        grads: Seq<Variable>,
    ) -> Seq<Term<T, Rule>> {
        rule.expressions(xs, gys[0], inputs, grads[0])
    }

    open spec fn title(rule: Rule) -> Seq<char> {
        rule.title()
    }

    open spec fn embed(rule: Rule) -> Rule {
        rule
    }

    proof fn embedding(rule: Rule) {
    }

    fn from_builtin(op: Builtin) -> (r: Builtin) {
        op
    }

    fn op_name(&self) -> (r: String) {
        Builtin::name(self)
    }

    fn forward(&mut self, xs: &Vec<Tensor<T>>) -> (ys: Vec<Tensor<T>>) {
        let y = Builtin::evaluate(self, xs);
        let mut ys: Vec<Tensor<T>> = Vec::new();
        ys.push(y);
        proof {
            assert(crate::engine::graph::views(ys@) =~= seq![y@]);
            assert(shapes(crate::engine::graph::views(ys@)) =~= seq![y@.shape]);
        }
        ys
    }
}

impl<T: Scalar> Backprop<T> for Builtin {
    open spec fn hands_on() -> bool {
        true
    }

    fn backward(
        &self,
        g: &mut Graph<T, Builtin>,
        inputs: &Vec<Variable>,
        outputs: &Vec<Variable>,
        gys: &Vec<Variable>,
    ) -> (gxs: Vec<Variable>) {
        proof {
            let s = shapes(g.arrays(gys@));
            assert(s.len() == 1);
            assert(gys@.len() == 1);
            assert(s[0] == g.arrays(gys@)[0].shape);
            assert(holds(*g, gys@[0]));
        }
        let gxs = Builtin::differentiate(self, g, inputs, &gys[0]);
        proof {
            reveal(made_or_handed);
            assert(gys@.contains(gys@[0]));
        }
        gxs
    }
}

} // verus!
