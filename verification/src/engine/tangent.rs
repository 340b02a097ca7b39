//! How a small change of its inputs spreads through a built-in operation, and that the
//! gradients it passes back are the transpose of that.

use vstd::prelude::*;

use crate::engine::elementwise::{
    lemma_joint_absorbs, lemma_joint_with_itself, lemma_scalar_broadcasts, neg_spec,
    positive_mask_spec, zip_spec, zips, Arithmetic,
};
use crate::engine::rule::{bias_axes, fold_spec, shapes, spread_shape, third, Rule};
use crate::engine::transpose::paired;
use crate::engine::gradient::{
    gradients_have_the_shapes_of_the_inputs, lemma_bias_axes, lemma_conv_gradient,
    lemma_deconv_gradient, lemma_grad_w_gradient,
};
use crate::functions::adjoint::{
    deconvolving_is_adjoint_to_convolving, folding_is_adjoint_to_cutting, lemma_convolution_wf,
    multiplying_from_the_left_is_adjoint_to_multiplying_back,
    multiplying_is_adjoint_to_multiplying_back, passing_back_is_adjoint_to_picking,
    permuting_is_adjoint_to_permuting_back, summing_is_adjoint_to_adding_a_bias,
    the_gradient_of_filters_is_adjoint_to_convolving, winners_inside,
};
use crate::functions::conv::{
    conv2d_fits, conv2d_grad_w_spec, conv2d_shape, conv2d_spec, deconv2d_shape, deconv2d_spec,
    lemma_first_max, lemma_transposed_matrix, picked_spec, pooled_shape, window_size,
    window_values, winners_spec,
};
use crate::functions::matmul::{linear_fits, linear_spec, matmul_spec};
use crate::functions::reduce::{
    lemma_all_kept, lemma_dropped_volume, lemma_kept_shape, listed, sum_fits, sum_shape,
};
use crate::index::volume;
use crate::inner::{
    lemma_dot_agrees, lemma_dot_commutes, lemma_dot_of_two, lemma_negated_factor,
};
use crate::remap::dot;
use crate::scalar::{Ring, Scalar};
use crate::tensor::{
    lemma_permute_map, lemma_reversed_axes, lemma_volume_permuted, permuted, reshape_spec,
    reversed_axes, scalar_spec, transpose_spec, transposing_twice_is_the_identity, Array,
};
use crate::utils::conv::{
    col_shape, im2col_array_spec, lemma_patches_wf, lemma_position_orders, lemma_volume2,
    lemma_volume4, patches_fit, patches_spec, positions_last,
};
use crate::utils::down::lemma_sum_to_wf;
use crate::utils::shape::{
    broadcast_source, broadcast_spec, broadcasting_to_the_same_shape_is_the_identity,
    broadcasts_to, joint_shape, joint_shape_receives_both, kept_shape, lemma_broadcast_map,
    sum_to_is_adjoint_to_broadcast, sum_to_spec,
};

verus! {

impl Rule {
    /// The change of the output that goes with the changes `dxs` of the inputs.
    ///
    /// Where the operation is linear, it applies to the changes as it does to the inputs.
    /// A product changes with either factor while the other stays.
    pub open spec fn tangent<T: Scalar>(self, xs: Seq<Array<T>>, dxs: Seq<Array<T>>) -> Array<T> {
        match self {
            Rule::Mul => zip_spec(
                Arithmetic::Plus,
                zip_spec(Arithmetic::Times, dxs[0], xs[1]),
                zip_spec(Arithmetic::Times, xs[0], dxs[1]),
            ),
            Rule::Square => zip_spec(
                Arithmetic::Plus,
                zip_spec(Arithmetic::Times, dxs[0], xs[0]),
                zip_spec(Arithmetic::Times, xs[0], dxs[0]),
            ),
            Rule::ReLU => zip_spec(Arithmetic::Times, dxs[0], positive_mask_spec(xs[0])),
            Rule::MatMul => zip_spec(
                Arithmetic::Plus,
                matmul_spec(dxs[0], xs[1]),
                matmul_spec(xs[0], dxs[1]),
            ),
            Rule::Linear => zip_spec(
                Arithmetic::Plus,
                linear_spec(dxs[0], xs[1], third(dxs)),
                matmul_spec(xs[0], dxs[1]),
            ),
            Rule::Conv2d { stride, pad } => zip_spec(
                Arithmetic::Plus,
                conv2d_spec(dxs[0], xs[1], third(dxs), stride, pad),
                conv2d_spec(xs[0], dxs[1], None, stride, pad),
            ),
            Rule::Deconv2d { stride, pad, outsize } => zip_spec(
                Arithmetic::Plus,
                deconv2d_spec(dxs[0], xs[1], third(dxs), stride, pad, outsize),
                deconv2d_spec(xs[0], dxs[1], None, stride, pad, outsize),
            ),
            Rule::Conv2dGradW { kernel, stride, pad } => zip_spec(
                Arithmetic::Plus,
                conv2d_grad_w_spec(dxs[0], xs[1], kernel, stride, pad),
                conv2d_grad_w_spec(xs[0], dxs[1], kernel, stride, pad),
            ),
            Rule::Pooling { kernel, stride, pad, winners } => picked_spec(
                dxs[0],
                patches_spec(xs[0].shape, kernel, stride, pad),
                winners,
            ),
            rule => rule.value(dxs),
        }
    }

    /// Whether the operation divides, which the elements of a ring cannot.
    pub open spec fn divides(self) -> bool {
        self is Div || self is MeanSquaredError
    }

    /// Whether every window of a pooling has picked one of its own elements.
    pub open spec fn picks_inside(self, s: Seq<Seq<usize>>) -> bool {
        match self {
            Rule::Pooling { kernel, stride, pad, winners } => winners_inside(
                patches_spec(s[0], kernel, stride, pad),
                winners,
            ),
            Rule::Pooling2dGrad { kernel, stride, pad, input_shape, winners } => winners_inside(
                patches_spec(input_shape, kernel, stride, pad),
                winners,
            ),
            Rule::Pooling2dWithIndexes { kernel, stride, pad, winners } => winners_inside(
                patches_spec(s[0], kernel, stride, pad),
                winners,
            ),
            _ => true,
        }
    }
}

/// A spread array weighed by `gy` is the array weighed by `gy` folded back.
proof fn lemma_fold<R: Ring>(d: Array<R>, gy: Array<R>)
    requires
        d.wf(),
        gy.wf(),
        broadcasts_to(d.shape, gy.shape),
    ensures
        fold_spec(gy, d.shape).data.len() == d.data.len(),
        broadcast_spec(d, gy.shape).data.len() == gy.data.len(),
        dot(d.data, fold_spec(gy, d.shape).data, d.data.len() as int) == dot(
            broadcast_spec(d, gy.shape).data,
            gy.data,
            gy.data.len() as int,
        ),
{
    if gy.shape == d.shape {
        broadcasting_to_the_same_shape_is_the_identity(d);
    } else {
        lemma_sum_to_wf(gy, d.shape);
        lemma_broadcast_map(d.shape, gy.shape);
        sum_to_is_adjoint_to_broadcast(d, gy);
        lemma_dot_commutes(sum_to_spec(gy, d.shape).data, d.data, d.data.len() as int);
        lemma_dot_commutes(
            gy.data,
            broadcast_spec(d, gy.shape).data,
            gy.data.len() as int,
        );
    }
}

/// What two inputs contribute.
proof fn lemma_pair_of_two<R: Ring>(dxs: Seq<Array<R>>, gxs: Seq<Array<R>>)
    ensures
        paired(dxs, gxs, 1) == dot(dxs[0].data, gxs[0].data, gxs[0].data.len() as int),
        paired(dxs, gxs, 2) == dot(dxs[0].data, gxs[0].data, gxs[0].data.len() as int).plus(
            dot(dxs[1].data, gxs[1].data, gxs[1].data.len() as int),
        ),
{
    reveal_with_fuel(paired, 3);
    let first = dot(dxs[0].data, gxs[0].data, gxs[0].data.len() as int);
    R::plus_commutes(R::zero_spec(), first);
    R::zero_is_neutral(first);
}

/// The sum and the difference of two arrays.
proof fn lemma_sums<R: Ring>(rule: Rule, xs: Seq<Array<R>>, dxs: Seq<Array<R>>, gy: Array<R>)
    requires
        rule == Rule::Add || rule == Rule::Sub,
        xs.len() == 2,
        dxs.len() == 2,
        zips(xs[0].shape, xs[1].shape),
        dxs[0].wf(),
        dxs[1].wf(),
        dxs[0].shape == xs[0].shape,
        dxs[1].shape == xs[1].shape,
        gy.wf(),
        gy.shape == joint_shape(xs[0].shape, xs[1].shape),
    ensures
        paired(dxs, rule.gradient(xs, gy), 2) == dot(
            rule.tangent(xs, dxs).data,
            gy.data,
            gy.data.len() as int,
        ),
{
    let s = gy.shape;
    let (a, b) = (dxs[0], dxs[1]);
    let t = rule.tangent(xs, dxs);
    let (u, v) = (broadcast_spec(a, s), broadcast_spec(b, s));
    let n = gy.data.len() as int;
    let q = if rule == Rule::Add {
        gy
    } else {
        neg_spec(gy)
    };
    joint_shape_receives_both(a.shape, b.shape);
    lemma_fold(a, gy);
    lemma_fold(b, q);
    lemma_pair_of_two(dxs, rule.gradient(xs, gy));
    assert forall|k: int| 0 <= k < n implies (#[trigger] t.data[k]).times(gy.data[k])
        == u.data[k].times(gy.data[k]).plus(v.data[k].times(q.data[k])) by {
        let (x, y, z) = (u.data[k], v.data[k], gy.data[k]);
        if rule == Rule::Add {
            R::times_distributes(x, y, z);
        } else {
            R::minus_adds_the_negation(x, y);
            R::times_distributes(x, y.negated(), z);
            lemma_negated_factor(y, z);
        }
    }
    lemma_dot_of_two(t.data, gy.data, u.data, gy.data, v.data, q.data, n);
}

/// The product rule, with the factors spread over their joint shape.
proof fn lemma_products<R: Ring>(xs: Seq<Array<R>>, dxs: Seq<Array<R>>, gy: Array<R>)
    requires
        xs.len() == 2,
        dxs.len() == 2,
        zips(xs[0].shape, xs[1].shape),
        xs[0].wf(),
        xs[1].wf(),
        dxs[0].wf(),
        dxs[1].wf(),
        dxs[0].shape == xs[0].shape,
        dxs[1].shape == xs[1].shape,
        gy.wf(),
        gy.shape == joint_shape(xs[0].shape, xs[1].shape),
    ensures
        paired(dxs, Rule::Mul.gradient(xs, gy), 2) == dot(
            Rule::Mul.tangent(xs, dxs).data,
            gy.data,
            gy.data.len() as int,
        ),
{
    let s = gy.shape;
    let (a, b) = (xs[0], xs[1]);
    let (da, db) = (dxs[0], dxs[1]);
    let t = Rule::Mul.tangent(xs, dxs);
    let n = gy.data.len() as int;
    joint_shape_receives_both(a.shape, b.shape);
    lemma_joint_absorbs(s, a.shape);
    lemma_joint_absorbs(s, b.shape);
    lemma_joint_with_itself(s);
    broadcasting_to_the_same_shape_is_the_identity(gy);
    let p = zip_spec(Arithmetic::Times, gy, b);
    let q = zip_spec(Arithmetic::Times, gy, a);
    let left = zip_spec(Arithmetic::Times, da, b);
    let right = zip_spec(Arithmetic::Times, a, db);
    broadcasting_to_the_same_shape_is_the_identity(left);
    broadcasting_to_the_same_shape_is_the_identity(right);
    lemma_fold(da, p);
    lemma_fold(db, q);
    lemma_pair_of_two(dxs, Rule::Mul.gradient(xs, gy));
    let (u, v) = (broadcast_spec(da, s), broadcast_spec(db, s));
    let (f, g) = (broadcast_spec(a, s), broadcast_spec(b, s));
    assert forall|k: int| 0 <= k < n implies (#[trigger] t.data[k]).times(gy.data[k])
        == u.data[k].times(p.data[k]).plus(v.data[k].times(q.data[k])) by {
        let (x, y, z) = (u.data[k], v.data[k], gy.data[k]);
        let (c, d) = (f.data[k], g.data[k]);
        assert(t.data[k] == left.data[k].plus(right.data[k]));
        R::times_distributes(x.times(d), c.times(y), z);
        R::times_associates(x, d, z);
        R::times_commutes(d, z);
        R::times_commutes(c, y);
        R::times_associates(y, c, z);
        R::times_commutes(c, z);
    }
    lemma_dot_of_two(t.data, gy.data, u.data, p.data, v.data, q.data, n);
}

/// Negation.
proof fn lemma_negation<R: Ring>(dxs: Seq<Array<R>>, xs: Seq<Array<R>>, gy: Array<R>)
    requires
        dxs.len() == 1,
        dxs[0].wf(),
        gy.wf(),
        gy.shape == dxs[0].shape,
    ensures
        paired(dxs, Rule::Neg.gradient(xs, gy), 1) == dot(
            Rule::Neg.tangent(xs, dxs).data,
            gy.data,
            gy.data.len() as int,
        ),
{
    let (d, n) = (dxs[0], gy.data.len() as int);
    lemma_pair_of_two(dxs, Rule::Neg.gradient(xs, gy));
    let (t, p) = (neg_spec(d), neg_spec(gy));
    assert forall|k: int| 0 <= k < n implies (#[trigger] t.data[k]).times(gy.data[k])
        == d.data[k].times(p.data[k]) by {
        lemma_negated_factor(d.data[k], gy.data[k]);
    }
    lemma_dot_agrees(t.data, gy.data, d.data, p.data, n);
}

/// Squares: the product rule with equal factors.
proof fn lemma_squares<R: Ring>(xs: Seq<Array<R>>, dxs: Seq<Array<R>>, gy: Array<R>)
    requires
        xs.len() == 1,
        dxs.len() == 1,
        xs[0].wf(),
        dxs[0].wf(),
        dxs[0].shape == xs[0].shape,
        gy.wf(),
        gy.shape == xs[0].shape,
    ensures
        paired(dxs, Rule::Square.gradient(xs, gy), 1) == dot(
            Rule::Square.tangent(xs, dxs).data,
            gy.data,
            gy.data.len() as int,
        ),
{
    let (x, d, n) = (xs[0], dxs[0], gy.data.len() as int);
    let s = gy.shape;
    let t = Rule::Square.tangent(xs, dxs);
    let two = scalar_spec(R::count_spec(2));
    let double = zip_spec(Arithmetic::Times, two, x);
    let p = zip_spec(Arithmetic::Times, double, gy);
    lemma_pair_of_two(dxs, Rule::Square.gradient(xs, gy));
    lemma_scalar_broadcasts(s);
    lemma_joint_absorbs(s, two.shape);
    lemma_joint_with_itself(s);
    broadcasting_to_the_same_shape_is_the_identity(x);
    broadcasting_to_the_same_shape_is_the_identity(d);
    broadcasting_to_the_same_shape_is_the_identity(gy);
    broadcasting_to_the_same_shape_is_the_identity(double);
    let left = zip_spec(Arithmetic::Times, d, x);
    let right = zip_spec(Arithmetic::Times, x, d);
    broadcasting_to_the_same_shape_is_the_identity(left);
    broadcasting_to_the_same_shape_is_the_identity(right);
    lemma_broadcast_map(two.shape, s);
    let spread = broadcast_spec(two, s);
    assert forall|k: int| 0 <= k < n implies (#[trigger] t.data[k]).times(gy.data[k])
        == d.data[k].times(p.data[k]) by {
        let (a, b, z) = (x.data[k], d.data[k], gy.data[k]);
        assert(t.data[k] == left.data[k].plus(right.data[k]));
        assert(spread.data[k] == R::count_spec(2));
        assert(p.data[k] == R::count_spec(2).times(a).times(z));
        R::two_doubles(a);
        R::times_commutes(a, b);
        R::times_commutes(b, a.plus(a));
        R::times_distributes(a, a, b);
        R::times_associates(b, a.plus(a), z);
    }
    lemma_dot_agrees(t.data, gy.data, d.data, p.data, n);
}

/// A mask.
proof fn lemma_masks<R: Ring>(xs: Seq<Array<R>>, dxs: Seq<Array<R>>, gy: Array<R>)
    requires
        xs.len() == 1,
        dxs.len() == 1,
        xs[0].wf(),
        dxs[0].wf(),
        dxs[0].shape == xs[0].shape,
        gy.wf(),
        gy.shape == xs[0].shape,
    ensures
        paired(dxs, Rule::ReLU.gradient(xs, gy), 1) == dot(
            Rule::ReLU.tangent(xs, dxs).data,
            gy.data,
            gy.data.len() as int,
        ),
{
    let (d, n) = (dxs[0], gy.data.len() as int);
    let mask = positive_mask_spec(xs[0]);
    let t = Rule::ReLU.tangent(xs, dxs);
    let p = zip_spec(Arithmetic::Times, gy, mask);
    lemma_pair_of_two(dxs, Rule::ReLU.gradient(xs, gy));
    lemma_joint_with_itself(gy.shape);
    broadcasting_to_the_same_shape_is_the_identity(d);
    broadcasting_to_the_same_shape_is_the_identity(mask);
    broadcasting_to_the_same_shape_is_the_identity(gy);
    assert forall|k: int| 0 <= k < n implies (#[trigger] t.data[k]).times(gy.data[k])
        == d.data[k].times(p.data[k]) by {
        R::times_associates(d.data[k], mask.data[k], gy.data[k]);
        R::times_commutes(mask.data[k], gy.data[k]);
    }
    lemma_dot_agrees(t.data, gy.data, d.data, p.data, n);
}

/// The axes in reverse order.
proof fn lemma_transposes<R: Ring>(xs: Seq<Array<R>>, dxs: Seq<Array<R>>, gy: Array<R>)
    requires
        dxs.len() == 1,
        dxs[0].wf(),
        dxs[0].shape.len() <= usize::MAX,
        gy.wf(),
        gy.shape == transpose_spec(dxs[0]).shape,
    ensures
        paired(dxs, Rule::Transpose.gradient(xs, gy), 1) == dot(
            Rule::Transpose.tangent(xs, dxs).data,
            gy.data,
            gy.data.len() as int,
        ),
{
    let d = dxs[0];
    let r = reversed_axes(d.shape.len());
    lemma_reversed_axes(d.shape.len());
    lemma_pair_of_two(dxs, Rule::Transpose.gradient(xs, gy));
    lemma_volume_permuted(d.shape, r);
    lemma_volume_permuted(gy.shape, r);
    permuting_is_adjoint_to_permuting_back(d, gy, r, r);
}

/// Sums over axes.
proof fn lemma_sums_over_axes<R: Ring>(
    axes: Option<Seq<isize>>,
    keepdims: bool,
    xs: Seq<Array<R>>,
    dxs: Seq<Array<R>>,
    gy: Array<R>,
)
    requires
        xs.len() == 1,
        dxs.len() == 1,
        dxs[0].wf(),
        dxs[0].shape.len() <= usize::MAX,
        dxs[0].shape == xs[0].shape,
        sum_fits(xs[0].shape, axes),
        gy.wf(),
        gy.shape == sum_shape(xs[0].shape, axes, keepdims),
    ensures
        paired(dxs, (Rule::Sum { axes, keepdims }).gradient(xs, gy), 1) == dot(
            (Rule::Sum { axes, keepdims }).tangent(xs, dxs).data,
            gy.data,
            gy.data.len() as int,
        ),
{
    let d = dxs[0];
    let s = d.shape;
    let over = listed(axes, s.len());
    let kept = kept_shape(s, over);
    let spread = spread_shape(gy.shape, s, axes, keepdims);
    lemma_pair_of_two(dxs, (Rule::Sum { axes, keepdims }).gradient(xs, gy));
    lemma_kept_shape(s, over);
    lemma_dropped_volume(s, over);
    let g = reshape_spec(gy, kept);
    sum_to_is_adjoint_to_broadcast(g, d);
    lemma_broadcast_map(kept, s);
    let back = broadcast_spec(g, s);
    let gx = broadcast_spec(reshape_spec(gy, spread), s);
    assert(gx.data =~= back.data) by {
        if spread != kept {
            if s.len() == 0 {
                assert(kept =~= spread);
            } else {
                lemma_all_kept(s);
                lemma_scalar_broadcasts(s);
                assert(gy.shape =~= Seq::<usize>::empty());
                lemma_broadcast_map(gy.shape, s);
                assert(volume(gy.shape) == 1);
                assert forall|k: int| 0 <= k < volume(s) implies gx.data[k] == back.data[k] by {
                    assert(broadcast_source(gy.shape, s, k) == 0);
                    assert(broadcast_source(kept, s, k) == 0);
                }
            }
        }
    }
}

/// Sums down to a shape.
proof fn lemma_sums_to<R: Ring>(
    shape: Seq<usize>,
    xs: Seq<Array<R>>,
    dxs: Seq<Array<R>>,
    gy: Array<R>,
)
    requires
        xs.len() == 1,
        dxs.len() == 1,
        dxs[0].wf(),
        dxs[0].shape == xs[0].shape,
        broadcasts_to(shape, xs[0].shape),
        gy.wf(),
        gy.shape == shape,
    ensures
        paired(dxs, (Rule::SumTo { shape }).gradient(xs, gy), 1) == dot(
            (Rule::SumTo { shape }).tangent(xs, dxs).data,
            gy.data,
            gy.data.len() as int,
        ),
{
    let d = dxs[0];
    lemma_pair_of_two(dxs, (Rule::SumTo { shape }).gradient(xs, gy));
    sum_to_is_adjoint_to_broadcast(gy, d);
    lemma_broadcast_map(shape, d.shape);
}

/// The sum of two arrays of one shape.
proof fn lemma_plus<R: Ring>(a: Array<R>, b: Array<R>, gy: Array<R>)
    requires
        a.wf(),
        b.wf(),
        gy.wf(),
        a.shape == gy.shape,
        b.shape == gy.shape,
    ensures
        dot(zip_spec(Arithmetic::Plus, a, b).data, gy.data, gy.data.len() as int) == dot(
            a.data,
            gy.data,
            gy.data.len() as int,
        ).plus(dot(b.data, gy.data, gy.data.len() as int)),
{
    let t = zip_spec(Arithmetic::Plus, a, b);
    let n = gy.data.len() as int;
    lemma_joint_with_itself(gy.shape);
    broadcasting_to_the_same_shape_is_the_identity(a);
    broadcasting_to_the_same_shape_is_the_identity(b);
    assert forall|k: int| 0 <= k < n implies (#[trigger] t.data[k]).times(gy.data[k])
        == a.data[k].times(gy.data[k]).plus(b.data[k].times(gy.data[k])) by {
        R::times_distributes(a.data[k], b.data[k], gy.data[k]);
    }
    lemma_dot_of_two(t.data, gy.data, a.data, gy.data, b.data, gy.data, n);
}

/// An array with one added that spreads over its shape.
proof fn lemma_plus_spread<R: Ring>(a: Array<R>, b: Array<R>, gy: Array<R>)
    requires
        a.wf(),
        b.wf(),
        gy.wf(),
        a.shape == gy.shape,
        broadcasts_to(b.shape, gy.shape),
    ensures
        zip_spec(Arithmetic::Plus, a, b).wf(),
        zip_spec(Arithmetic::Plus, a, b).shape == gy.shape,
        dot(zip_spec(Arithmetic::Plus, a, b).data, gy.data, gy.data.len() as int) == dot(
            a.data,
            gy.data,
            gy.data.len() as int,
        ).plus(dot(broadcast_spec(b, gy.shape).data, gy.data, gy.data.len() as int)),
{
    let t = zip_spec(Arithmetic::Plus, a, b);
    let v = broadcast_spec(b, gy.shape);
    let n = gy.data.len() as int;
    lemma_joint_absorbs(gy.shape, b.shape);
    broadcasting_to_the_same_shape_is_the_identity(a);
    assert forall|k: int| 0 <= k < n implies (#[trigger] t.data[k]).times(gy.data[k])
        == a.data[k].times(gy.data[k]).plus(v.data[k].times(gy.data[k])) by {
        R::times_distributes(a.data[k], v.data[k], gy.data[k]);
    }
    lemma_dot_of_two(t.data, gy.data, a.data, gy.data, v.data, gy.data, n);
}

/// What three inputs contribute.
proof fn lemma_pair_of_three<R: Ring>(dxs: Seq<Array<R>>, gxs: Seq<Array<R>>)
    ensures
        paired(dxs, gxs, 3) == paired(dxs, gxs, 2).plus(
            dot(dxs[2].data, gxs[2].data, gxs[2].data.len() as int),
        ),
{
}

/// The middle one of three summands moves to the end.
proof fn lemma_middle_last<R: Ring>(a: R, b: R, c: R)
    ensures
        a.plus(b).plus(c) == a.plus(c).plus(b),
{
    R::plus_associates(a, b, c);
    R::plus_commutes(b, c);
    R::plus_associates(a, c, b);
}

/// Matrix products, with or without a bias.
proof fn lemma_matrix_products<R: Ring>(
    rule: Rule,
    xs: Seq<Array<R>>,
    dxs: Seq<Array<R>>,
    gy: Array<R>,
)
    requires
        rule == Rule::MatMul && xs.len() == 2 || rule == Rule::Linear && 2 <= xs.len() <= 3,
        dxs.len() == xs.len(),
        linear_fits(xs[0].shape, xs[1].shape, third(shapes(xs))),
        forall|i: int| 0 <= i < xs.len() ==> (#[trigger] xs[i]).wf(),
        forall|i: int| 0 <= i < xs.len() ==> (#[trigger] dxs[i]).wf(),
        shapes(dxs) == shapes(xs),
        gy.wf(),
        gy.shape == seq![xs[0].shape[0], xs[1].shape[1]],
    ensures
        paired(dxs, rule.gradient(xs, gy), xs.len() as int) == dot(
            rule.tangent(xs, dxs).data,
            gy.data,
            gy.data.len() as int,
        ),
{
    let (x, w, dx, dw) = (xs[0], xs[1], dxs[0], dxs[1]);
    let gxs = rule.gradient(xs, gy);
    let n = gy.data.len() as int;
    assert(x.wf() && w.wf() && dx.wf() && dw.wf());
    assert(shapes(dxs)[0] == shapes(xs)[0] && shapes(dxs)[1] == shapes(xs)[1]);
    lemma_pair_of_two(dxs, gxs);
    lemma_volume2(gy.shape[0], gy.shape[1]);
    let (a, b) = (matmul_spec(dx, w), matmul_spec(x, dw));
    // by the change of the first factor
    let wt = transpose_spec(w);
    assert(x.shape =~= seq![x.shape[0], x.shape[1]]);
    assert(w.shape =~= seq![w.shape[0], w.shape[1]]);
    lemma_transposed_matrix(w);
    lemma_transposed_matrix(x);
    lemma_reversed_axes(2);
    lemma_volume_permuted(w.shape, reversed_axes(2));
    lemma_permute_map(w.shape, reversed_axes(2));
    transposing_twice_is_the_identity(w);
    multiplying_is_adjoint_to_multiplying_back(dx, wt, gy);
    lemma_volume2(x.shape[0], x.shape[1]);
    lemma_volume2(w.shape[0], w.shape[1]);
    // by that of the second
    multiplying_from_the_left_is_adjoint_to_multiplying_back(x, dw, gy);
    assert(gxs[0].data.len() == dx.data.len());
    assert(gxs[1].data.len() == dw.data.len());
    if xs.len() == 2 {
        lemma_plus(a, b, gy);
    } else {
        let d = dxs[2];
        assert(d.wf() && xs[2].wf());
        assert(shapes(dxs)[2] == shapes(xs)[2]);
        let biased = zip_spec(Arithmetic::Plus, a, d);
        lemma_plus_spread(a, d, gy);
        lemma_plus(biased, b, gy);
        lemma_fold(d, gy);
        lemma_pair_of_three(dxs, gxs);
        lemma_middle_last(
            dot(a.data, gy.data, n),
            dot(broadcast_spec(d, gy.shape).data, gy.data, n),
            dot(b.data, gy.data, n),
        );
    }
}

/// Convolutions, with or without a bias.
proof fn lemma_convolutions<R: Ring>(
    stride: (usize, usize),
    pad: (usize, usize),
    xs: Seq<Array<R>>,
    dxs: Seq<Array<R>>,
    gy: Array<R>,
)
    requires
        2 <= xs.len() <= 3,
        dxs.len() == xs.len(),
        conv2d_fits(xs[0].shape, xs[1].shape, None, stride, pad),
        third(shapes(xs)) matches Some(b) ==> b == seq![xs[1].shape[0]],
        forall|i: int| 0 <= i < xs.len() ==> (#[trigger] xs[i]).wf(),
        forall|i: int| 0 <= i < xs.len() ==> (#[trigger] dxs[i]).wf(),
        shapes(dxs) == shapes(xs),
        gy.wf(),
        gy.shape == conv2d_shape(xs[0].shape, xs[1].shape, stride, pad),
    ensures
        paired(dxs, (Rule::Conv2d { stride, pad }).gradient(xs, gy), xs.len() as int) == dot(
            (Rule::Conv2d { stride, pad }).tangent(xs, dxs).data,
            gy.data,
            gy.data.len() as int,
        ),
{
    let rule = Rule::Conv2d { stride, pad };
    let (x, w, dx, dw) = (xs[0], xs[1], dxs[0], dxs[1]);
    let gxs = rule.gradient(xs, gy);
    let n = gy.data.len() as int;
    assert(x.wf() && w.wf() && dx.wf() && dw.wf());
    assert(shapes(dxs)[0] == shapes(xs)[0] && shapes(dxs)[1] == shapes(xs)[1]);
    lemma_pair_of_two(dxs, gxs);
    lemma_conv_gradient(x.shape, w.shape, stride, pad);
    deconvolving_is_adjoint_to_convolving(dx, w, gy, stride, pad);
    the_gradient_of_filters_is_adjoint_to_convolving(x, dw, gy, stride, pad);
    let a = conv2d_spec(dx, w, None, stride, pad);
    let b = conv2d_spec(x, dw, None, stride, pad);
    lemma_convolution_wf(dx, w, None, gy, stride, pad);
    lemma_convolution_wf(x, dw, None, gy, stride, pad);
    assert(gxs[0].data.len() == dx.data.len());
    assert(gxs[1].data.len() == dw.data.len());
    if xs.len() == 2 {
        lemma_plus(a, b, gy);
    } else {
        let d = dxs[2];
        assert(d.wf() && xs[2].wf());
        assert(shapes(dxs)[2] == shapes(xs)[2]);
        let biased = conv2d_spec(dx, w, Some(d), stride, pad);
        lemma_convolution_wf(dx, w, Some(d), gy, stride, pad);
        lemma_plus(biased, b, gy);
        summing_is_adjoint_to_adding_a_bias(dx, w, d, gy, stride, pad);
        lemma_bias_axes(gy.shape);
        lemma_kept_shape(gy.shape, listed(bias_axes(), 4));
        lemma_sum_to_wf(gy, seq![1, w.shape[0], 1, 1]);
        lemma_volume4(1, w.shape[0], 1, 1);
        let gb = sum_to_spec(gy, seq![1, w.shape[0], 1, 1]);
        assert(gxs[2].data == gb.data);
        assert(d.shape =~= seq![w.shape[0]]);
        reveal_with_fuel(volume, 2);
        lemma_pair_of_three(dxs, gxs);
        lemma_middle_last(
            dot(a.data, gy.data, n),
            dot(d.data, gb.data, d.data.len() as int),
            dot(b.data, gy.data, n),
        );
    }
}

/// Transposed convolutions, with or without a bias.
proof fn lemma_transposed_convolutions<R: Ring>(
    stride: (usize, usize),
    pad: (usize, usize),
    outsize: Option<(usize, usize)>,
    xs: Seq<Array<R>>,
    dxs: Seq<Array<R>>,
    gy: Array<R>,
)
    requires
        (Rule::Deconv2d { stride, pad, outsize }).differentiable(shapes(xs)),
        dxs.len() == xs.len(),
        forall|i: int| 0 <= i < xs.len() ==> (#[trigger] xs[i]).wf(),
        forall|i: int| 0 <= i < xs.len() ==> (#[trigger] dxs[i]).wf(),
        shapes(dxs) == shapes(xs),
        gy.wf(),
        gy.shape == deconv2d_shape(xs[0].shape, xs[1].shape, stride, pad, outsize),
    ensures
        paired(
            dxs,
            (Rule::Deconv2d { stride, pad, outsize }).gradient(xs, gy),
            xs.len() as int,
        ) == dot(
            (Rule::Deconv2d { stride, pad, outsize }).tangent(xs, dxs).data,
            gy.data,
            gy.data.len() as int,
        ),
{
    let rule = Rule::Deconv2d { stride, pad, outsize };
    let (x, w, dx, dw) = (xs[0], xs[1], dxs[0], dxs[1]);
    let gxs = rule.gradient(xs, gy);
    let n = gy.data.len() as int;
    assert(x.wf() && w.wf() && dx.wf() && dw.wf());
    assert(shapes(dxs)[0] == shapes(xs)[0] && shapes(dxs)[1] == shapes(xs)[1]);
    lemma_pair_of_two(dxs, gxs);
    lemma_deconv_gradient(x.shape, w.shape, stride, pad, outsize);
    let size = Some((gy.shape[2], gy.shape[3]));
    let a = deconv2d_spec(dx, w, None, stride, pad, outsize);
    let b = deconv2d_spec(x, dw, None, stride, pad, outsize);
    assert(gy.shape =~= deconv2d_shape(x.shape, w.shape, stride, pad, size));
    assert(a == deconv2d_spec(dx, w, None, stride, pad, size));
    assert(b == deconv2d_spec(x, dw, None, stride, pad, size));
    assert(a.wf() && b.wf());
    // both as convolutions of the gradient
    deconvolving_is_adjoint_to_convolving(gy, w, dx, stride, pad);
    deconvolving_is_adjoint_to_convolving(gy, dw, x, stride, pad);
    the_gradient_of_filters_is_adjoint_to_convolving(gy, dw, x, stride, pad);
    lemma_convolution_wf(gy, w, None, dx, stride, pad);
    let c = conv2d_spec(gy, w, None, stride, pad);
    lemma_dot_commutes(c.data, dx.data, dx.data.len() as int);
    lemma_dot_commutes(gy.data, a.data, n);
    lemma_dot_commutes(gy.data, b.data, n);
    assert(gxs[0].data.len() == dx.data.len());
    assert(gxs[1].data.len() == dw.data.len());
    if xs.len() == 2 {
        lemma_plus(a, b, gy);
    } else {
        let d = dxs[2];
        assert(d.wf() && xs[2].wf());
        assert(shapes(dxs)[2] == shapes(xs)[2]);
        let column_of = reshape_spec(d, seq![1, w.shape[1], 1, 1]);
        lemma_volume4(1, w.shape[1], 1, 1);
        assert(d.shape =~= seq![w.shape[1]]);
        reveal_with_fuel(volume, 2);
        let biased = zip_spec(Arithmetic::Plus, a, column_of);
        lemma_plus_spread(a, column_of, gy);
        lemma_plus(biased, b, gy);
        lemma_bias_axes(gy.shape);
        lemma_sum_to_wf(gy, column_of.shape);
        let gb = sum_to_spec(gy, column_of.shape);
        assert(gxs[2].data == gb.data);
        sum_to_is_adjoint_to_broadcast(column_of, gy);
        lemma_dot_commutes(gb.data, d.data, d.data.len() as int);
        let spread = broadcast_spec(column_of, gy.shape);
        lemma_dot_commutes(gy.data, spread.data, n);
        lemma_pair_of_three(dxs, gxs);
        lemma_middle_last(
            dot(a.data, gy.data, n),
            dot(spread.data, gy.data, n),
            dot(b.data, gy.data, n),
        );
    }
}

/// The gradient of filters, which has gradients of its own.
proof fn lemma_gradients_of_filters<R: Ring>(
    kernel: (usize, usize),
    stride: (usize, usize),
    pad: (usize, usize),
    xs: Seq<Array<R>>,
    dxs: Seq<Array<R>>,
    gy: Array<R>,
)
    requires
        (Rule::Conv2dGradW { kernel, stride, pad }).differentiable(shapes(xs)),
        dxs.len() == xs.len(),
        forall|i: int| 0 <= i < xs.len() ==> (#[trigger] xs[i]).wf(),
        forall|i: int| 0 <= i < xs.len() ==> (#[trigger] dxs[i]).wf(),
        shapes(dxs) == shapes(xs),
        gy.wf(),
        gy.shape == seq![xs[1].shape[1], xs[0].shape[1], kernel.0, kernel.1],
    ensures
        paired(
            dxs,
            (Rule::Conv2dGradW { kernel, stride, pad }).gradient(xs, gy),
            xs.len() as int,
        ) == dot(
            (Rule::Conv2dGradW { kernel, stride, pad }).tangent(xs, dxs).data,
            gy.data,
            gy.data.len() as int,
        ),
{
    let rule = Rule::Conv2dGradW { kernel, stride, pad };
    let (x, h, dx, dh) = (xs[0], xs[1], dxs[0], dxs[1]);
    let gxs = rule.gradient(xs, gy);
    let n = gy.data.len() as int;
    assert(x.wf() && h.wf() && dx.wf() && dh.wf());
    assert(shapes(dxs)[0] == shapes(xs)[0] && shapes(dxs)[1] == shapes(xs)[1]);
    lemma_pair_of_two(dxs, gxs);
    lemma_grad_w_gradient(x.shape, h.shape, kernel, stride, pad);
    let a = conv2d_grad_w_spec(dx, h, kernel, stride, pad);
    let b = conv2d_grad_w_spec(x, dh, kernel, stride, pad);
    the_gradient_of_filters_is_adjoint_to_convolving(dx, gy, h, stride, pad);
    the_gradient_of_filters_is_adjoint_to_convolving(x, gy, dh, stride, pad);
    deconvolving_is_adjoint_to_convolving(dx, gy, h, stride, pad);
    lemma_convolution_wf(x, gy, None, dh, stride, pad);
    let c = conv2d_spec(x, gy, None, stride, pad);
    lemma_dot_commutes(c.data, dh.data, dh.data.len() as int);
    lemma_dot_commutes(gy.data, a.data, n);
    lemma_dot_commutes(gy.data, b.data, n);
    assert(a.wf() && b.wf());
    assert(gxs[0].data.len() == dx.data.len());
    assert(gxs[1].data.len() == dh.data.len());
    lemma_plus(a, b, gy);
}

/// The patches of images, cut, folded and pooled.
proof fn lemma_patches<R: Ring>(
    rule: Rule,
    xs: Seq<Array<R>>,
    dxs: Seq<Array<R>>,
    gy: Array<R>,
)
    requires
        rule is Im2col || rule is Col2im || rule is Pooling || rule is Pooling2dGrad
            || rule is Pooling2dWithIndexes,
        rule.differentiable(shapes(xs)),
        rule.picks_inside(shapes(xs)),
        xs.len() == 1,
        dxs.len() == 1,
        xs[0].wf(),
        dxs[0].wf(),
        dxs[0].shape == xs[0].shape,
        gy.wf(),
        gy.shape == rule.out_shape(shapes(xs)),
    ensures
        paired(dxs, rule.gradient(xs, gy), 1) == dot(
            rule.tangent(xs, dxs).data,
            gy.data,
            gy.data.len() as int,
        ),
{
    let d = dxs[0];
    let gxs = rule.gradient(xs, gy);
    let t = rule.tangent(xs, dxs);
    assert(shapes(xs)[0] == xs[0].shape);
    lemma_pair_of_two(dxs, gxs);
    match rule {
        Rule::Im2col { kernel, stride, pad, to_matrix } => {
            folding_is_adjoint_to_cutting(d, gy, kernel, stride, pad, to_matrix);
        },
        Rule::Col2im { input_shape, kernel, stride, pad, to_matrix } => {
            lemma_cut_wf(gy, kernel, stride, pad, to_matrix);
            folding_is_adjoint_to_cutting(gy, d, kernel, stride, pad, to_matrix);
            lemma_dot_commutes(gxs[0].data, d.data, d.data.len() as int);
            lemma_dot_commutes(gy.data, t.data, gy.data.len() as int);
        },
        Rule::Pooling2dGrad { kernel, stride, pad, input_shape, winners } => {
            passing_back_is_adjoint_to_picking(gy, d, kernel, stride, pad, winners);
            lemma_dot_commutes(gxs[0].data, d.data, d.data.len() as int);
            lemma_dot_commutes(gy.data, t.data, gy.data.len() as int);
        },
        Rule::Pooling { kernel, stride, pad, winners } => {
            passing_back_is_adjoint_to_picking(d, gy, kernel, stride, pad, winners);
        },
        Rule::Pooling2dWithIndexes { kernel, stride, pad, winners } => {
            passing_back_is_adjoint_to_picking(d, gy, kernel, stride, pad, winners);
        },
        _ => {},
    }
}

/// Patches in either layout hold as many elements as their shape says.
proof fn lemma_cut_wf<T: Scalar>(
    x: Array<T>,
    kernel: (usize, usize),
    stride: (usize, usize),
    pad: (usize, usize),
    to_matrix: bool,
)
    requires
        patches_fit(x.shape, kernel, stride, pad),
    ensures
        im2col_array_spec(x, kernel, stride, pad, to_matrix).wf(),
        im2col_array_spec(x, kernel, stride, pad, to_matrix).shape == col_shape(
            x.shape,
            kernel,
            stride,
            pad,
            to_matrix,
        ),
{
    let p = patches_spec(x.shape, kernel, stride, pad);
    lemma_patches_wf(x.shape, kernel, stride, pad);
    p.lemma_window_volume();
    lemma_volume2(p.rows_spec() as usize, p.columns_spec() as usize);
    lemma_position_orders();
    lemma_volume_permuted(p.window_shape(), positions_last());
    assert(permuted(p.window_shape(), positions_last()) =~= p.tensor_shape_spec());
}

/// The gradients that a built-in operation passes back are the transpose of how changes
/// spread through it: the changes of the inputs, weighed by their gradients, add up to
/// the change of the output weighed by its own.
///
/// The two operations that divide have no such law over a ring.
#[verifier::spinoff_prover]
#[verifier::rlimit(40)]
pub proof fn gradients_are_the_transpose_of_changes<R: Ring>(
    rule: Rule,
    xs: Seq<Array<R>>,
    dxs: Seq<Array<R>>,
    gy: Array<R>,
)
    requires
        rule.differentiable(shapes(xs)),
        rule.picks_inside(shapes(xs)),
        !rule.divides(),
        forall|i: int|
            0 <= i < xs.len() ==> (#[trigger] xs[i]).wf() && xs[i].shape.len() <= usize::MAX,
        forall|i: int| 0 <= i < dxs.len() ==> (#[trigger] dxs[i]).wf(),
        shapes(dxs) == shapes(xs),
        gy.wf(),
        gy.shape == rule.out_shape(shapes(xs)),
    ensures
        paired(dxs, rule.gradient(xs, gy), xs.len() as int) == dot(
            rule.tangent(xs, dxs).data,
            gy.data,
            gy.data.len() as int,
        ),
{
    let s = shapes(xs);
    assert(dxs.len() == shapes(dxs).len());
    assert(xs.len() > 0);
    assert(xs[0].wf() && dxs[0].wf() && s[0] == xs[0].shape && shapes(dxs)[0] == dxs[0].shape);
    if xs.len() > 1 {
        assert(xs[1].wf() && dxs[1].wf() && s[1] == xs[1].shape && shapes(dxs)[1]
            == dxs[1].shape);
    }
    if xs.len() > 2 {
        assert(xs[2].wf() && dxs[2].wf() && s[2] == xs[2].shape && shapes(dxs)[2]
            == dxs[2].shape);
    }
    match rule {
        Rule::Add | Rule::Sub => {
            lemma_sums(rule, xs, dxs, gy);
        },
        Rule::Mul => {
            lemma_products(xs, dxs, gy);
        },
        Rule::Neg => {
            lemma_negation(dxs, xs, gy);
        },
        Rule::Square => {
            lemma_squares(xs, dxs, gy);
        },
        Rule::ReLU => {
            lemma_masks(xs, dxs, gy);
        },
        Rule::Reshape { shape } => {
            lemma_pair_of_two(dxs, rule.gradient(xs, gy));
        },
        Rule::Transpose => {
            assert(gy.shape =~= transpose_spec(dxs[0]).shape);
            lemma_transposes(xs, dxs, gy);
        },
        Rule::Sum { axes, keepdims } => {
            lemma_sums_over_axes(axes, keepdims, xs, dxs, gy);
        },
        Rule::SumTo { shape } => {
            lemma_sums_to(shape, xs, dxs, gy);
        },
        Rule::BroadcastTo { shape } => {
            lemma_pair_of_two(dxs, rule.gradient(xs, gy));
            lemma_fold(dxs[0], gy);
        },
        Rule::MatMul | Rule::Linear => {
            lemma_matrix_products(rule, xs, dxs, gy);
        },
        Rule::Conv2d { stride, pad } => {
            lemma_convolutions(stride, pad, xs, dxs, gy);
        },
        Rule::Deconv2d { stride, pad, outsize } => {
            lemma_transposed_convolutions(stride, pad, outsize, xs, dxs, gy);
        },
        Rule::Conv2dGradW { kernel, stride, pad } => {
            lemma_gradients_of_filters(kernel, stride, pad, xs, dxs, gy);
        },
        _ => {
            lemma_patches(rule, xs, dxs, gy);
        },
    }
}

/// A pooling that has run picks inside its windows.
pub proof fn recorded_poolings_pick_inside<T: Scalar>(rule: Rule, xs: Seq<Array<T>>)
    requires
        rule is Pooling,
        rule.accepts(shapes(xs)),
    ensures
        rule.recorded(xs).picks_inside(shapes(xs)),
{
    if let Rule::Pooling { kernel, stride, pad, winners: _ } = rule {
        assert(shapes(xs)[0] == xs[0].shape);
        let p = patches_spec(xs[0].shape, kernel, stride, pad);
        let size = window_size(p);
        assert(size > 0) by (nonlinear_arith)
            requires
                size == kernel.0 * kernel.1,
                kernel.0 > 0,
                kernel.1 > 0,
        ;
        assert forall|e: int| 0 <= e < volume(pooled_shape(p)) implies #[trigger] winners_spec(
            xs[0],
            p,
        )[e] < size by {
            lemma_first_max(window_values(xs[0], p, e), size);
        }
    }
}

/// A folded gradient holds as many elements as its shape says.
proof fn lemma_fold_wf<T: Scalar>(g: Array<T>, shape: Seq<usize>)
    requires
        g.wf(),
        broadcasts_to(shape, g.shape),
        volume(shape) <= usize::MAX,
    ensures
        fold_spec(g, shape).wf(),
{
    lemma_sum_to_wf(g, shape);
}

/// The gradients of two operands hold as many elements as their shapes say.
proof fn lemma_operands_wf<R: Ring>(rule: Rule, xs: Seq<Array<R>>, gy: Array<R>)
    requires
        rule is Add || rule is Sub || rule is Mul,
        xs.len() == 2,
        zips(xs[0].shape, xs[1].shape),
        xs[0].wf(),
        xs[1].wf(),
        gy.wf(),
        gy.shape == joint_shape(xs[0].shape, xs[1].shape),
    ensures
        rule.gradient(xs, gy)[0].wf(),
        rule.gradient(xs, gy)[1].wf(),
{
    let (a, b) = (xs[0].shape, xs[1].shape);
    joint_shape_receives_both(a, b);
    lemma_joint_absorbs(gy.shape, a);
    lemma_joint_absorbs(gy.shape, b);
    lemma_fold_wf(gy, a);
    lemma_fold_wf(gy, b);
    lemma_fold_wf(neg_spec(gy), b);
    lemma_fold_wf(zip_spec(Arithmetic::Times, gy, xs[1]), a);
    lemma_fold_wf(zip_spec(Arithmetic::Times, gy, xs[0]), b);
}

/// The gradients hold as many elements as their shapes say.
#[verifier::spinoff_prover]
#[verifier::rlimit(40)]
pub proof fn lemma_gradients_wf<R: Ring>(rule: Rule, xs: Seq<Array<R>>, gy: Array<R>)
    requires
        rule.differentiable(shapes(xs)),
        !rule.divides(),
        forall|i: int|
            0 <= i < xs.len() ==> (#[trigger] xs[i]).wf() && xs[i].shape.len() <= usize::MAX,
        gy.wf(),
        gy.shape == rule.out_shape(shapes(xs)),
    ensures
        shapes(rule.gradient(xs, gy)) == shapes(xs),
        forall|i: int| 0 <= i < xs.len() ==> (#[trigger] rule.gradient(xs, gy)[i]).wf(),
{
    let s = shapes(xs);
    let gxs = rule.gradient(xs, gy);
    gradients_have_the_shapes_of_the_inputs(rule, xs, gy);
    assert(gxs.len() == shapes(gxs).len());
    assert(xs.len() > 0);
    assert(xs[0].wf() && s[0] == xs[0].shape && shapes(gxs)[0] == gxs[0].shape);
    if xs.len() > 1 {
        assert(xs[1].wf() && s[1] == xs[1].shape && shapes(gxs)[1] == gxs[1].shape);
    }
    if xs.len() > 2 {
        assert(xs[2].wf() && s[2] == xs[2].shape && shapes(gxs)[2] == gxs[2].shape);
    }
    match rule {
        Rule::MatMul | Rule::Linear => {
            lemma_transposed_matrix(xs[0]);
            lemma_transposed_matrix(xs[1]);
            lemma_volume2(gxs[0].shape[0], gxs[0].shape[1]);
            lemma_volume2(gxs[1].shape[0], gxs[1].shape[1]);
            assert(gxs[0].wf() && gxs[1].wf());
            if xs.len() == 3 {
                lemma_fold_wf(gy, s[2]);
                assert(gxs[2].wf());
            }
        },
        Rule::Add | Rule::Sub | Rule::Mul => {
            lemma_operands_wf(rule, xs, gy);
        },
        Rule::BroadcastTo { shape } => {
            lemma_fold_wf(gy, s[0]);
            assert(gxs[0].wf());
        },
        Rule::Sum { axes, keepdims } => {
            assert(gxs[0].wf());
        },
        Rule::Col2im { input_shape, kernel, stride, pad, to_matrix } => {
            lemma_cut_wf(gy, kernel, stride, pad, to_matrix);
            assert(gxs[0].wf());
        },
        Rule::Conv2d { stride, pad } => {
            lemma_conv_gradient(s[0], s[1], stride, pad);
            the_gradient_of_filters_is_adjoint_to_convolving(xs[0], xs[1], gy, stride, pad);
            assert(gxs[0].wf() && gxs[1].wf());
            if xs.len() == 3 {
                lemma_bias_axes(gy.shape);
                lemma_kept_shape(gy.shape, listed(bias_axes(), 4));
                lemma_sum_to_wf(gy, seq![1, s[1][0], 1, 1]);
                lemma_volume4(1, s[1][0], 1, 1);
                assert(gxs[2].shape =~= seq![s[1][0]]);
                reveal_with_fuel(volume, 2);
                assert(gxs[2].wf());
            }
        },
        Rule::Deconv2d { stride, pad, outsize } => {
            lemma_deconv_gradient(s[0], s[1], stride, pad, outsize);
            lemma_convolution_wf(gy, xs[1], None, xs[0], stride, pad);
            the_gradient_of_filters_is_adjoint_to_convolving(gy, xs[1], xs[0], stride, pad);
            assert(gxs[0].wf() && gxs[1].wf());
            if xs.len() == 3 {
                lemma_bias_axes(gy.shape);
                lemma_kept_shape(gy.shape, listed(bias_axes(), 4));
                lemma_sum_to_wf(gy, seq![1, s[1][1], 1, 1]);
                lemma_volume4(1, s[1][1], 1, 1);
                assert(gxs[2].shape =~= seq![s[1][1]]);
                reveal_with_fuel(volume, 2);
                assert(gxs[2].wf());
            }
        },
        Rule::Conv2dGradW { kernel, stride, pad } => {
            lemma_grad_w_gradient(s[0], s[1], kernel, stride, pad);
            lemma_convolution_wf(xs[0], gy, None, xs[1], stride, pad);
            assert(gxs[0].wf() && gxs[1].wf());
        },
        _ => {
            assert(gxs[0].wf());
            if xs.len() > 1 {
                assert(gxs[1].wf());
            }
        },
    }
}

} // verus!
