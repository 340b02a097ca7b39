//! The operations that the framework provides.
use crate::engine::elementwise::{neg_array, relu_array, square_array, zip_map, Arithmetic};
use crate::engine::function::{applied, apply1, Op};
use crate::engine::graph::{views, Graph, Variable};
use crate::engine::ops::{Add, Div, Mul, Neg, Sub};
use crate::engine::rule::{shapes, Rule};
use crate::functions::activation::ReLU;
use crate::functions::basic_math::Square;
use crate::functions::conv::{
    conv2d_array, conv2d_grad_w_array, deconv2d_array, pooling_array, pooling_grad_array,
    pooling_with_indexes_array, Col2im, Conv2d, Conv2dGradW, Deconv2d, Im2col, Pooling,
    Pooling2dGrad, Pooling2dWithIndexes,
};
use crate::functions::loss::{mean_squared_error_array, MeanSquaredError};
use crate::functions::matmul::{dot2, linear_array, Linear, MatMul};
use crate::functions::reduce::{sum_array, BroadcastTo, Sum, SumTo};
use crate::functions::shape::{Reshape, Transpose};
use crate::scalar::Scalar;
use crate::tensor::{Array, Tensor};
use crate::utils::conv::{col2im_array, im2col_array};
use crate::utils::shape::{broadcast_array, sum_to};
use vstd::prelude::*;

verus! {

/// One of the operations that the framework provides.
#[derive(Debug)]
pub enum Builtin {
    Add(Add),
    Sub(Sub),
    Mul(Mul),
    Div(Div),
    Neg(Neg),
    Square(Square),
    ReLU(ReLU),
    Reshape(Reshape),
    Transpose(Transpose),
    Sum(Sum),
    SumTo(SumTo),
    BroadcastTo(BroadcastTo),
    MatMul(MatMul),
    Linear(Linear),
    MeanSquaredError(MeanSquaredError),
    Im2col(Im2col),
    Col2im(Col2im),
    Conv2d(Conv2d),
    Deconv2d(Deconv2d),
    Conv2dGradW(Conv2dGradW),
    Pooling(Pooling),
    Pooling2dGrad(Pooling2dGrad),
    Pooling2dWithIndexes(Pooling2dWithIndexes),
}

impl Builtin {
    /// The mathematical content of the operation.
    pub open spec fn meaning(self) -> Rule {
        match self {
            Builtin::Add(_) => Rule::Add,
            Builtin::Sub(_) => Rule::Sub,
            Builtin::Mul(_) => Rule::Mul,
            Builtin::Div(_) => Rule::Div,
            Builtin::Neg(_) => Rule::Neg,
            Builtin::Square(_) => Rule::Square,
            Builtin::ReLU(_) => Rule::ReLU,
            Builtin::Reshape(op) => Rule::Reshape { shape: op.shape@ },
            Builtin::Transpose(_) => Rule::Transpose,
            Builtin::Sum(op) => Rule::Sum { axes: op.axis@, keepdims: op.keepdims },
            Builtin::SumTo(op) => Rule::SumTo { shape: op.shape@ },
            Builtin::BroadcastTo(op) => Rule::BroadcastTo { shape: op.shape@ },
            Builtin::MatMul(_) => Rule::MatMul,
            Builtin::Linear(_) => Rule::Linear,
            Builtin::MeanSquaredError(_) => Rule::MeanSquaredError,
            Builtin::Im2col(op) => Rule::Im2col {
                kernel: op.kernel,
                stride: op.stride,
                pad: op.pad,
                to_matrix: op.to_matrix,
            },
            Builtin::Col2im(op) => Rule::Col2im {
                input_shape: op.input_shape@,
                kernel: op.kernel,
                stride: op.stride,
                pad: op.pad,
                to_matrix: op.to_matrix,
            },
            Builtin::Conv2d(op) => Rule::Conv2d {
                stride: op.stride,
                pad: op.pad,
            },
            Builtin::Deconv2d(op) => Rule::Deconv2d {
                stride: op.stride,
                pad: op.pad,
                outsize: op.outsize,
            },
            Builtin::Conv2dGradW(op) => Rule::Conv2dGradW {
                kernel: op.kernel,
                stride: op.stride,
                pad: op.pad,
            },
            Builtin::Pooling(op) => Rule::Pooling {
                kernel: op.kernel,
                stride: op.stride,
                pad: op.pad,
                winners: op.winners@,
            },
            Builtin::Pooling2dGrad(op) => Rule::Pooling2dGrad {
                kernel: op.kernel,
                stride: op.stride,
                pad: op.pad,
                input_shape: op.input_shape@,
                winners: op.winners@,
            },
            Builtin::Pooling2dWithIndexes(op) => Rule::Pooling2dWithIndexes {
                kernel: op.kernel,
                stride: op.stride,
                pad: op.pad,
                winners: op.winners@,
            },
        }
    }

    /// What the operation is called.
    pub fn name(&self) -> (r: String)
        ensures
            r@ == self.meaning().title(),
    {
        match self {
            Builtin::Add(_) => "Add".to_owned(),
            Builtin::Sub(_) => "Sub".to_owned(),
            Builtin::Mul(_) => "Mul".to_owned(),
            Builtin::Div(_) => "Div".to_owned(),
            Builtin::Neg(_) => "Neg".to_owned(),
            Builtin::Square(_) => "Square".to_owned(),
            Builtin::ReLU(_) => "ReLU".to_owned(),
            Builtin::Reshape(_) => "Reshape".to_owned(),
            Builtin::Transpose(_) => "Transpose".to_owned(),
            Builtin::Sum(_) => "Sum".to_owned(),
            Builtin::SumTo(_) => "SumTo".to_owned(),
            Builtin::BroadcastTo(_) => "BroadcastTo".to_owned(),
            Builtin::MatMul(_) => "MatMul".to_owned(),
            Builtin::Linear(_) => "Linear".to_owned(),
            Builtin::MeanSquaredError(_) => "MeanSquaredError".to_owned(),
            Builtin::Im2col(_) => "Im2col".to_owned(),
            Builtin::Col2im(_) => "Col2im".to_owned(),
            Builtin::Conv2d(_) => "Conv2d".to_owned(),
            Builtin::Deconv2d(_) => "Deconv2d".to_owned(),
            Builtin::Conv2dGradW(_) => "Conv2dGradW".to_owned(),
            Builtin::Pooling(_) => "Pooling".to_owned(),
            Builtin::Pooling2dGrad(_) => "Pooling2dGrad".to_owned(),
            Builtin::Pooling2dWithIndexes(_) => "Pooling2dWithIndexes".to_owned(),
        }
    }

    /// Computes the output; pooling remembers the winners.
    pub fn evaluate<T: Scalar>(&mut self, xs: &Vec<Tensor<T>>) -> (y: Tensor<T>)
        requires
            forall|i: int| 0 <= i < xs@.len() ==> (#[trigger] xs@[i]).wf(),
            old(self).meaning().accepts(shapes(views(xs@))),
        ensures
            y.wf(),
            y@ == old(self).meaning().value(views(xs@)),
            final(self).meaning() == old(self).meaning().recorded(views(xs@)),
            y@.shape == old(self).meaning().out_shape(shapes(views(xs@))),
    {
        proof {
            let v = views(xs@);
            if xs@.len() > 0 {
                assert(xs@[0].wf() && v[0] == xs@[0]@ && shapes(v)[0] == xs@[0]@.shape);
            }
            if xs@.len() > 1 {
                assert(xs@[1].wf() && v[1] == xs@[1]@ && shapes(v)[1] == xs@[1]@.shape);
            }
            if xs@.len() > 2 {
                assert(xs@[2].wf() && v[2] == xs@[2]@ && shapes(v)[2] == xs@[2]@.shape);
            }
        }
        match self {
            Builtin::Add(_) => zip_map(Arithmetic::Plus, &xs[0], &xs[1]),
            Builtin::Sub(_) => zip_map(Arithmetic::Minus, &xs[0], &xs[1]),
            Builtin::Mul(_) => zip_map(Arithmetic::Times, &xs[0], &xs[1]),
            Builtin::Div(_) => zip_map(Arithmetic::Over, &xs[0], &xs[1]),
            Builtin::Neg(_) => neg_array(&xs[0]),
            Builtin::Square(_) => square_array(&xs[0]),
            Builtin::ReLU(_) => relu_array(&xs[0]),
            Builtin::Reshape(op) => xs[0].reshaped(op.shape.as_slice()),
            Builtin::Transpose(_) => xs[0].transposed(),
            Builtin::Sum(op) => sum_array(&xs[0], &op.axis, op.keepdims),
            Builtin::SumTo(op) => sum_to(&xs[0], op.shape.as_slice()),
            Builtin::BroadcastTo(op) => broadcast_array(&xs[0], op.shape.as_slice()),
            Builtin::MatMul(_) => dot2(&xs[0], &xs[1]),
            Builtin::Linear(_) => {
                if xs.len() == 3 {
                    linear_array(&xs[0], &xs[1], Some(&xs[2]))
                } else {
                    linear_array(&xs[0], &xs[1], None)
                }
            },
            Builtin::MeanSquaredError(_) => mean_squared_error_array(&xs[0], &xs[1]),
            Builtin::Im2col(op) => im2col_array(
                &xs[0],
                op.kernel,
                op.stride,
                op.pad,
                op.to_matrix,
            ),
            Builtin::Col2im(op) => col2im_array(
                &xs[0],
                op.input_shape.as_slice(),
                op.kernel,
                op.stride,
                op.pad,
                op.to_matrix,
            ),
            Builtin::Conv2d(op) => {
                if xs.len() == 3 {
                    conv2d_array(&xs[0], &xs[1], Some(&xs[2]), op.stride, op.pad)
                } else {
                    conv2d_array(&xs[0], &xs[1], None, op.stride, op.pad)
                }
            },
            Builtin::Deconv2d(op) => {
                if xs.len() == 3 {
                    deconv2d_array(&xs[0], &xs[1], Some(&xs[2]), op.stride, op.pad, op.outsize)
                } else {
                    deconv2d_array(&xs[0], &xs[1], None, op.stride, op.pad, op.outsize)
                }
            },
            Builtin::Conv2dGradW(op) => conv2d_grad_w_array(
                &xs[0],
                &xs[1],
                op.kernel,
                op.stride,
                op.pad,
            ),
            Builtin::Pooling(op) => {
                let (y, winners) = pooling_array(&xs[0], op.kernel, op.stride, op.pad);
                op.winners = winners;
                y
            },
            Builtin::Pooling2dGrad(op) => pooling_grad_array(
                &xs[0],
                op.input_shape.as_slice(),
                op.kernel,
                op.stride,
                op.pad,
                &op.winners,
            ),
            Builtin::Pooling2dWithIndexes(op) => pooling_with_indexes_array(
                &xs[0],
                op.kernel,
                op.stride,
                op.pad,
                &op.winners,
            ),
        }
    }
}

/// Whether `after` is `before` with more in it, and `v` holds `a` there.
pub open spec fn derives<T, O>(
    before: Graph<T, O>,
    after: Graph<T, O>,
    v: Variable,
    a: Array<T>,
) -> bool {
    &&& after.wf()
    &&& after.extends(before)
    &&& after.has(v)
    &&& after.array(v) == Some(a)
}

/// Applies a built-in operation.
pub fn apply_builtin<T: Scalar, O: Op<T>>(
    g: &mut Graph<T, O>,
    op: Builtin,
    inputs: &[Variable],
) -> (r: Variable)
    requires
        old(g).wf(),
        old(g).all_hold(inputs@),
        op.meaning().accepts(shapes(old(g).arrays(inputs@))),
    ensures
        applied(*old(g), *final(g), O::embed(op.meaning()), inputs@, seq![r]),
        derives(*old(g), *final(g), r, op.meaning().value(old(g).arrays(inputs@))),
{
    proof {
        O::embedding(op.meaning());
    }
    let r = apply1(g, O::from_builtin(op), inputs);
    proof {
        assert(seq![r][0] == r);
    }
    r
}

/// Whether `v` holds data.
pub open spec fn holds<T, O>(g: Graph<T, O>, v: Variable) -> bool {
    g.has(v) && g.node(v).data.is_some()
}

/// The array that `v` holds.
pub open spec fn held<T, O>(g: Graph<T, O>, v: Variable) -> Array<T> {
    g.array(v)->0
}

/// Applies a built-in operation to one variable.
pub fn apply_unary<T: Scalar, O: Op<T>>(g: &mut Graph<T, O>, op: Builtin, x: &Variable) -> (r:
    Variable)
    requires
        old(g).wf(),
        holds(*old(g), *x),
        op.meaning().accepts(seq![held(*old(g), *x).shape]),
    ensures
        applied(*old(g), *final(g), O::embed(op.meaning()), seq![*x], seq![r]),
        derives(*old(g), *final(g), r, op.meaning().value(seq![held(*old(g), *x)])),
{
    let inputs: [Variable; 1] = [*x];
    proof {
        assert(inputs@ =~= seq![*x]);
        assert(g.arrays(inputs@) =~= seq![held(*g, *x)]);
        assert(shapes(g.arrays(inputs@)) =~= seq![held(*g, *x).shape]);
    }
    apply_builtin(g, op, inputs.as_slice())
}

/// Applies a built-in operation to two variables.
pub fn apply_binary<T: Scalar, O: Op<T>>(
    g: &mut Graph<T, O>,
    op: Builtin,
    x0: &Variable,
    x1: &Variable,
) -> (r: Variable)
    requires
        old(g).wf(),
        holds(*old(g), *x0),
        holds(*old(g), *x1),
        op.meaning().accepts(seq![held(*old(g), *x0).shape, held(*old(g), *x1).shape]),
    ensures
        applied(*old(g), *final(g), O::embed(op.meaning()), seq![*x0, *x1], seq![r]),
        derives(
            *old(g),
            *final(g),
            r,
            op.meaning().value(seq![held(*old(g), *x0), held(*old(g), *x1)]),
        ),
{
    let inputs: [Variable; 2] = [*x0, *x1];
    proof {
        assert(inputs@ =~= seq![*x0, *x1]);
        assert(g.arrays(inputs@) =~= seq![held(*g, *x0), held(*g, *x1)]);
        assert(shapes(g.arrays(inputs@)) =~= seq![held(*g, *x0).shape, held(*g, *x1).shape]);
    }
    apply_builtin(g, op, inputs.as_slice())
}

/// Applies a built-in operation to an input, weights and an optional bias.
pub fn apply_biased<T: Scalar, O: Op<T>>(
    g: &mut Graph<T, O>,
    op: Builtin,
    x: &Variable,
    w: &Variable,
    b: Option<&Variable>,
) -> (r: Variable)
    requires
        old(g).wf(),
        holds(*old(g), *x),
        holds(*old(g), *w),
        b matches Some(b) ==> holds(*old(g), *b),
        op.meaning().accepts(shapes(old(g).arrays(operands(*x, *w, b)))),
    ensures
        applied(*old(g), *final(g), O::embed(op.meaning()), operands(*x, *w, b), seq![r]),
        derives(*old(g), *final(g), r, op.meaning().value(old(g).arrays(operands(*x, *w, b)))),
{
    match b {
        Some(b) => {
            let inputs: [Variable; 3] = [*x, *w, *b];
            proof {
                assert(inputs@ =~= seq![*x, *w, *b]);
            }
            apply_builtin(g, op, inputs.as_slice())
        },
        None => apply_binary(g, op, x, w),
    }
}

/// The list of an input, weights and an optional bias.
pub open spec fn operands(x: Variable, w: Variable, b: Option<&Variable>) -> Seq<Variable> {
    match b {
        Some(b) => seq![x, w, *b],
        None => seq![x, w],
    }
}

} // verus!
