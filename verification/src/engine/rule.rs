//! What each built-in operation computes and how it is differentiated.
//!
//! A [`Rule`] is the mathematical content of an operation: on which shapes it is
//! defined, the arrays that it produces, and the gradients of its inputs given the
//! gradients of its outputs.
use crate::engine::elementwise::{
    neg_spec, positive_mask_spec, relu_spec, square_spec, zip_spec, zips, Arithmetic,
};
use crate::functions::conv::{
    conv2d_fits, conv2d_grad_w_fits, conv2d_grad_w_spec, conv2d_shape, conv2d_spec, deconv2d_fits,
    deconv2d_shape, deconv2d_spec, picked_spec, pooled_shape, pooling_fits, pooling_grad_spec,
    pooling_spec, winners_fit, winners_spec,
};
use crate::functions::loss::mean_squared_error_spec;
use crate::functions::matmul::{linear_fits, linear_spec, matmul_spec, multiplies};
use crate::functions::reduce::{listed, sum_fits, sum_shape, sum_spec};
use crate::index::volume;
use crate::scalar::Scalar;
use crate::tensor::{reshape_spec, scalar_spec, transpose_spec, Array};
use crate::utils::conv::{
    col2im_array_spec, col_shape, im2col_array_spec, patches_fit, patches_spec,
};
use crate::utils::shape::{
    broadcast_spec, broadcasts_to, joint_shape, kept_shape, sum_to_spec,
};
use vstd::prelude::*;

verus! {

/// The mathematical content of a built-in operation.
pub enum Rule {
    Add,
    Sub,
    Mul,
    Div,
    Neg,
    Square,
    ReLU,
    Reshape { shape: Seq<usize> },
    Transpose,
    Sum { axes: Option<Seq<isize>>, keepdims: bool },
    SumTo { shape: Seq<usize> },
    BroadcastTo { shape: Seq<usize> },
    MatMul,
    Linear,
    MeanSquaredError,
    Im2col {
        kernel: (usize, usize),
        stride: (usize, usize),
        pad: (usize, usize),
        to_matrix: bool,
    },
    Col2im {
        input_shape: Seq<usize>,
        kernel: (usize, usize),
        stride: (usize, usize),
        pad: (usize, usize),
        to_matrix: bool,
    },
    Conv2d { stride: (usize, usize), pad: (usize, usize) },
    Deconv2d {
        stride: (usize, usize),
        pad: (usize, usize),
        outsize: Option<(usize, usize)>,
    },
    Conv2dGradW { kernel: (usize, usize), stride: (usize, usize), pad: (usize, usize) },
    Pooling {
        kernel: (usize, usize),
        stride: (usize, usize),
        pad: (usize, usize),
        winners: Seq<usize>,
    },
    Pooling2dGrad {
        kernel: (usize, usize),
        stride: (usize, usize),
        pad: (usize, usize),
        input_shape: Seq<usize>,
        winners: Seq<usize>,
    },
    Pooling2dWithIndexes {
        kernel: (usize, usize),
        stride: (usize, usize),
        pad: (usize, usize),
        winners: Seq<usize>,
    },
}

/// The shapes of a list of arrays.
pub open spec fn shapes<T>(xs: Seq<Array<T>>) -> Seq<Seq<usize>> {
    Seq::new(xs.len(), |i: int| xs[i].shape)
}

/// The third of three inputs, where there is one.
pub open spec fn third<A>(xs: Seq<A>) -> Option<A> {
    if xs.len() == 3 {
        Some(xs[2])
    } else {
        None
    }
}

/// A gradient summed down to the shape of the operand that was broadcast.
pub open spec fn fold_spec<T: Scalar>(g: Array<T>, shape: Seq<usize>) -> Array<T> {
    if g.shape == shape {
        g
    } else {
        sum_to_spec(g, shape)
    }
}

/// The shape in which the gradient of a sum spreads over the summed axes.
pub open spec fn spread_shape(
    gy: Seq<usize>,
    x: Seq<usize>,
    axes: Option<Seq<isize>>,
    keepdims: bool,
) -> Seq<usize> {
    if keepdims || axes.is_none() || x.len() == 0 {
        gy
    } else {
        kept_shape(x, listed(axes, x.len()))
    }
}

/// The axes of a batch of images over which a bias per channel is shared.
pub open spec fn bias_axes() -> Option<Seq<isize>> {
    Some(seq![0, 2, 3])
}

impl Rule {
    /// Whether the operation is defined on inputs of these shapes.
    pub open spec fn accepts(self, s: Seq<Seq<usize>>) -> bool {
        match self {
            Rule::Add | Rule::Sub | Rule::Mul | Rule::Div => s.len() == 2 && zips(s[0], s[1]),
            Rule::Neg | Rule::Square | Rule::ReLU | Rule::Transpose => s.len() == 1,
            Rule::Reshape { shape } => s.len() == 1 && volume(shape) == volume(s[0]),
            Rule::Sum { axes, keepdims: _ } => s.len() == 1 && sum_fits(s[0], axes),
            Rule::SumTo { shape } => s.len() == 1 && broadcasts_to(shape, s[0]) && volume(shape)
                <= usize::MAX,
            Rule::BroadcastTo { shape } => s.len() == 1 && broadcasts_to(s[0], shape) && volume(
                shape,
            ) <= usize::MAX,
            Rule::MatMul => s.len() == 2 && multiplies(s[0], s[1]),
            Rule::Linear => 2 <= s.len() <= 3 && linear_fits(s[0], s[1], third(s)),
            Rule::MeanSquaredError => s.len() == 2 && s[0] == s[1] && s[0].len() > 0,
            Rule::Im2col { kernel, stride, pad, to_matrix: _ } => s.len() == 1 && patches_fit(
                s[0],
                kernel,
                stride,
                pad,
            ),
            Rule::Col2im { input_shape, kernel, stride, pad, to_matrix } => {
                &&& s.len() == 1
                &&& patches_fit(input_shape, kernel, stride, pad)
                &&& s[0] == col_shape(input_shape, kernel, stride, pad, to_matrix)
            },
            Rule::Conv2d { stride, pad } => 2 <= s.len() <= 3 && conv2d_fits(
                s[0],
                s[1],
                third(s),
                stride,
                pad,
            ),
            Rule::Deconv2d { stride, pad, outsize } => 2 <= s.len() <= 3 && deconv2d_fits(
                s[0],
                s[1],
                third(s),
                stride,
                pad,
                outsize,
            ),
            Rule::Conv2dGradW { kernel, stride, pad } => s.len() == 2 && conv2d_grad_w_fits(
                s[0],
                s[1],
                kernel,
                stride,
                pad,
            ),
            Rule::Pooling { kernel, stride, pad, winners: _ } => {
                &&& s.len() == 1
                &&& kernel.0 > 0
                &&& kernel.1 > 0
                &&& pooling_fits(s[0], kernel, stride, pad)
            },
            Rule::Pooling2dGrad { kernel, stride, pad, input_shape, winners } => {
                let p = patches_spec(input_shape, kernel, stride, pad);
                &&& s.len() == 1
                &&& pooling_fits(input_shape, kernel, stride, pad)
                &&& s[0] == pooled_shape(p)
                &&& winners_fit(p, winners)
            },
            Rule::Pooling2dWithIndexes { kernel, stride, pad, winners } => {
                &&& s.len() == 1
                &&& pooling_fits(s[0], kernel, stride, pad)
                &&& winners_fit(patches_spec(s[0], kernel, stride, pad), winners)
            },
        }
    }

    /// Whether the gradients that the operation gives have the shapes of its inputs.
    ///
    /// A bias that is shared between channels takes part in the forward pass of a
    /// convolution, and so does an output size that does not convolve back to the
    /// input size; neither has a gradient of its own shape.
    pub open spec fn differentiable(self, s: Seq<Seq<usize>>) -> bool {
        &&& self.accepts(s)
        &&& match self {
            Rule::Conv2d { stride: _, pad: _ } => third(s) matches Some(b) ==> b == seq![s[1][0]],
            Rule::Deconv2d { stride, pad, outsize } => {
                let out = deconv2d_shape(s[0], s[1], stride, pad, outsize);
                let p = patches_spec(out, (s[1][2], s[1][3]), stride, pad);
                &&& p.out_h == s[0][2]
                &&& p.out_w == s[0][3]
                &&& third(s) matches Some(b) ==> b == seq![s[1][1]]
            },
            Rule::Conv2dGradW { kernel, stride, pad } => {
                let p = patches_spec(s[0], kernel, stride, pad);
                p.out_h == s[1][2] && p.out_w == s[1][3]
            },
            Rule::Pooling { kernel, stride, pad, winners } => winners_fit(
                patches_spec(s[0], kernel, stride, pad),
                winners,
            ),
            _ => true,
        }
    }

    /// The shape of the output.
    pub open spec fn out_shape(self, s: Seq<Seq<usize>>) -> Seq<usize> {
        match self {
            Rule::Add | Rule::Sub | Rule::Mul | Rule::Div => joint_shape(s[0], s[1]),
            Rule::Neg | Rule::Square | Rule::ReLU => s[0],
            Rule::Transpose => transpose_spec(
                Array::<i64> { shape: s[0], data: Seq::empty() },
            ).shape,
            Rule::Reshape { shape } => shape,
            Rule::Sum { axes, keepdims } => sum_shape(s[0], axes, keepdims),
            Rule::SumTo { shape } => shape,
            Rule::BroadcastTo { shape } => shape,
            Rule::MatMul | Rule::Linear => seq![s[0][0], s[1][1]],
            Rule::MeanSquaredError => Seq::empty(),
            Rule::Im2col { kernel, stride, pad, to_matrix } => col_shape(
                s[0],
                kernel,
                stride,
                pad,
                to_matrix,
            ),
            Rule::Col2im { input_shape, kernel: _, stride: _, pad: _, to_matrix: _ } => input_shape,
            Rule::Conv2d { stride, pad } => conv2d_shape(s[0], s[1], stride, pad),
            Rule::Deconv2d { stride, pad, outsize } => deconv2d_shape(
                s[0],
                s[1],
                stride,
                pad,
                outsize,
            ),
            Rule::Conv2dGradW { kernel, stride: _, pad: _ } => seq![
                s[1][1],
                s[0][1],
                kernel.0,
                kernel.1,
            ],
            Rule::Pooling { kernel, stride, pad, winners: _ } => pooled_shape(
                patches_spec(s[0], kernel, stride, pad),
            ),
            Rule::Pooling2dGrad { kernel: _, stride: _, pad: _, input_shape, winners: _ } => {
                input_shape
            },
            Rule::Pooling2dWithIndexes { kernel, stride, pad, winners: _ } => pooled_shape(
                patches_spec(s[0], kernel, stride, pad),
            ),
        }
    }

    /// What the operation is called.
    pub open spec fn title(self) -> Seq<char> {
        match self {
            Rule::Add => "Add"@,
            Rule::Sub => "Sub"@,
            Rule::Mul => "Mul"@,
            Rule::Div => "Div"@,
            Rule::Neg => "Neg"@,
            Rule::Square => "Square"@,
            Rule::ReLU => "ReLU"@,
            Rule::Reshape { shape: _ } => "Reshape"@,
            Rule::Transpose => "Transpose"@,
            Rule::Sum { axes: _, keepdims: _ } => "Sum"@,
            Rule::SumTo { shape: _ } => "SumTo"@,
            Rule::BroadcastTo { shape: _ } => "BroadcastTo"@,
            Rule::MatMul => "MatMul"@,
            Rule::Linear => "Linear"@,
            Rule::MeanSquaredError => "MeanSquaredError"@,
            Rule::Im2col { .. } => "Im2col"@,
            Rule::Col2im { .. } => "Col2im"@,
            Rule::Conv2d { .. } => "Conv2d"@,
            Rule::Deconv2d { .. } => "Deconv2d"@,
            Rule::Conv2dGradW { .. } => "Conv2dGradW"@,
            Rule::Pooling { .. } => "Pooling"@,
            Rule::Pooling2dGrad { .. } => "Pooling2dGrad"@,
            Rule::Pooling2dWithIndexes { .. } => "Pooling2dWithIndexes"@,
        }
    }

    /// The output.
    pub open spec fn value<T: Scalar>(self, xs: Seq<Array<T>>) -> Array<T> {
        match self {
            Rule::Add => zip_spec(Arithmetic::Plus, xs[0], xs[1]),
            Rule::Sub => zip_spec(Arithmetic::Minus, xs[0], xs[1]),
            Rule::Mul => zip_spec(Arithmetic::Times, xs[0], xs[1]),
            Rule::Div => zip_spec(Arithmetic::Over, xs[0], xs[1]),
            Rule::Neg => neg_spec(xs[0]),
            Rule::Square => square_spec(xs[0]),
            Rule::ReLU => relu_spec(xs[0]),
            Rule::Reshape { shape } => reshape_spec(xs[0], shape),
            Rule::Transpose => transpose_spec(xs[0]),
            Rule::Sum { axes, keepdims } => sum_spec(xs[0], axes, keepdims),
            Rule::SumTo { shape } => sum_to_spec(xs[0], shape),
            Rule::BroadcastTo { shape } => broadcast_spec(xs[0], shape),
            Rule::MatMul => matmul_spec(xs[0], xs[1]),
            Rule::Linear => linear_spec(xs[0], xs[1], third(xs)),
            Rule::MeanSquaredError => mean_squared_error_spec(xs[0], xs[1]),
            Rule::Im2col { kernel, stride, pad, to_matrix } => im2col_array_spec(
                xs[0],
                kernel,
                stride,
                pad,
                to_matrix,
            ),
            Rule::Col2im { input_shape, kernel, stride, pad, to_matrix } => col2im_array_spec(
                xs[0],
                input_shape,
                kernel,
                stride,
                pad,
                to_matrix,
            ),
            Rule::Conv2d { stride, pad } => conv2d_spec(xs[0], xs[1], third(xs), stride, pad),
            Rule::Deconv2d { stride, pad, outsize } => deconv2d_spec(
                xs[0],
                xs[1],
                third(xs),
                stride,
                pad,
                outsize,
            ),
            Rule::Conv2dGradW { kernel, stride, pad } => conv2d_grad_w_spec(
                xs[0],
                xs[1],
                kernel,
                stride,
                pad,
            ),
            Rule::Pooling { kernel, stride, pad, winners: _ } => pooling_spec(
                xs[0],
                kernel,
                stride,
                pad,
            ),
            Rule::Pooling2dGrad { kernel, stride, pad, input_shape, winners } => pooling_grad_spec(
                xs[0],
                input_shape,
                kernel,
                stride,
                pad,
                winners,
            ),
            Rule::Pooling2dWithIndexes { kernel, stride, pad, winners } => picked_spec(
                xs[0],
                patches_spec(xs[0].shape, kernel, stride, pad),
                winners,
            ),
        }
    }

    /// The rule once the operation has run on `xs`: pooling remembers which element of
    /// each window won.
    pub open spec fn recorded<T: Scalar>(self, xs: Seq<Array<T>>) -> Rule {
        match self {
            Rule::Pooling { kernel, stride, pad, winners: _ } => Rule::Pooling {
                kernel,
                stride,
                pad,
                winners: winners_spec(xs[0], patches_spec(xs[0].shape, kernel, stride, pad)),
            },
            rule => rule,
        }
    }

    /// The gradients of the inputs, given the gradient `gy` of the output.
    pub open spec fn gradient<T: Scalar>(self, xs: Seq<Array<T>>, gy: Array<T>) -> Seq<Array<T>> {
        match self {
            Rule::Add => seq![fold_spec(gy, xs[0].shape), fold_spec(gy, xs[1].shape)],
            Rule::Sub => seq![fold_spec(gy, xs[0].shape), fold_spec(neg_spec(gy), xs[1].shape)],
            Rule::Mul => seq![
                fold_spec(zip_spec(Arithmetic::Times, gy, xs[1]), xs[0].shape),
                fold_spec(zip_spec(Arithmetic::Times, gy, xs[0]), xs[1].shape),
            ],
            Rule::Div => seq![
                fold_spec(zip_spec(Arithmetic::Over, gy, xs[1]), xs[0].shape),
                fold_spec(
                    zip_spec(
                        Arithmetic::Times,
                        gy,
                        neg_spec(zip_spec(Arithmetic::Over, xs[0], square_spec(xs[1]))),
                    ),
                    xs[1].shape,
                ),
            ],
            Rule::Neg => seq![neg_spec(gy)],
            Rule::Square => seq![
                zip_spec(
                    Arithmetic::Times,
                    zip_spec(Arithmetic::Times, scalar_spec(T::count_spec(2)), xs[0]),
                    gy,
                ),
            ],
            Rule::ReLU => seq![zip_spec(Arithmetic::Times, gy, positive_mask_spec(xs[0]))],
            Rule::Reshape { shape: _ } => seq![reshape_spec(gy, xs[0].shape)],
            Rule::Transpose => seq![transpose_spec(gy)],
            Rule::Sum { axes, keepdims } => seq![
                broadcast_spec(
                    reshape_spec(gy, spread_shape(gy.shape, xs[0].shape, axes, keepdims)),
                    xs[0].shape,
                ),
            ],
            Rule::SumTo { shape: _ } => seq![broadcast_spec(gy, xs[0].shape)],
            Rule::BroadcastTo { shape: _ } => seq![fold_spec(gy, xs[0].shape)],
            Rule::MatMul => seq![
                matmul_spec(gy, transpose_spec(xs[1])),
                matmul_spec(transpose_spec(xs[0]), gy),
            ],
            Rule::Linear => {
                let gx = matmul_spec(gy, transpose_spec(xs[1]));
                let gw = matmul_spec(transpose_spec(xs[0]), gy);
                match third(xs) {
                    Some(b) => seq![gx, gw, fold_spec(gy, b.shape)],
                    None => seq![gx, gw],
                }
            },
            Rule::MeanSquaredError => {
                let gx = zip_spec(
                    Arithmetic::Times,
                    zip_spec(Arithmetic::Times, gy, zip_spec(Arithmetic::Minus, xs[0], xs[1])),
                    scalar_spec(T::count_spec(2).over(T::count_spec(xs[0].shape[0]))),
                );
                seq![gx, neg_spec(gx)]
            },
            Rule::Im2col { kernel, stride, pad, to_matrix } => seq![
                col2im_array_spec(gy, xs[0].shape, kernel, stride, pad, to_matrix),
            ],
            Rule::Col2im { input_shape: _, kernel, stride, pad, to_matrix } => seq![
                im2col_array_spec(gy, kernel, stride, pad, to_matrix),
            ],
            Rule::Conv2d { stride, pad } => {
                let x = xs[0];
                let w = xs[1];
                let gx = deconv2d_spec(
                    gy,
                    w,
                    None,
                    stride,
                    pad,
                    Some((x.shape[2], x.shape[3])),
                );
                let gw = conv2d_grad_w_spec(x, gy, (w.shape[2], w.shape[3]), stride, pad);
                if xs.len() == 3 {
                    seq![gx, gw, sum_spec(gy, bias_axes(), false)]
                } else {
                    seq![gx, gw]
                }
            },
            Rule::Deconv2d { stride, pad, outsize: _ } => {
                let x = xs[0];
                let w = xs[1];
                let gx = conv2d_spec(gy, w, None, stride, pad);
                let gw = conv2d_grad_w_spec(gy, x, (w.shape[2], w.shape[3]), stride, pad);
                if xs.len() == 3 {
                    seq![gx, gw, sum_spec(gy, bias_axes(), false)]
                } else {
                    seq![gx, gw]
                }
            },
            Rule::Conv2dGradW { kernel: _, stride, pad } => seq![
                deconv2d_spec(
                    xs[1],
                    gy,
                    None,
                    stride,
                    pad,
                    Some((xs[0].shape[2], xs[0].shape[3])),
                ),
                conv2d_spec(xs[0], gy, None, stride, pad),
            ],
            Rule::Pooling { kernel, stride, pad, winners } => seq![
                pooling_grad_spec(gy, xs[0].shape, kernel, stride, pad, winners),
            ],
            Rule::Pooling2dGrad { kernel, stride, pad, input_shape: _, winners } => seq![
                picked_spec(gy, patches_spec(gy.shape, kernel, stride, pad), winners),
            ],
            Rule::Pooling2dWithIndexes { kernel, stride, pad, winners } => seq![
                pooling_grad_spec(gy, xs[0].shape, kernel, stride, pad, winners),
            ],
        }
    }
}

} // verus!
