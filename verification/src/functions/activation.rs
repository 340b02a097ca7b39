//! Activations and dropout.
use crate::engine::builtin::{apply_unary, derives, held, holds, Builtin};
use crate::engine::config::is_train;
use crate::engine::elementwise::{lemma_joint_absorbs, relu_spec, zip_map, zip_spec, Arithmetic};
use crate::engine::function::{applied, Op};
use crate::engine::graph::{one_more, Graph, Variable};
use crate::engine::ops::scalar;
use crate::engine::rule::Rule;
use crate::engine::term::{binary, lemma_binary, lemma_constant, lemma_unary, means, unary, Term};
use crate::functions::basic_math::{
    complement_spec, image, is_function, lemma_same_shape, map_array, map_spec,
};
use crate::functions::reduce::{lemma_kept_shape, listed, sum_fits, sum_over, sum_spec, Axes};
use crate::index::in_bounds;
use crate::laws::axes::{line_greatest, line_total, softmax_shares_out_a_line};
use crate::laws::dropout::{
    dropout_keeps_what_is_drawn_above_the_ratio, dropout_scales_by_the_share_that_stays,
    is_dropped_out, is_thinned,
};
use crate::laws::elements::is_rectified;
use crate::laws::gradients::{
    is_softmax_gradient, lemma_complement, lemma_zip, softmax_weighs_gradients_along_a_line,
};
use crate::laws::shapes::named_axis;
use crate::scalar::Scalar;
use crate::tensor::{copy_of, scalar_spec, Array, Tensor};
use crate::utils::array::{
    lemma_one_axis, max_keepdims, max_keepdims_spec, sum_keepdims, sum_keepdims_spec,
};
use crate::utils::shape::{kept_shape, valid_axis};
use vstd::prelude::*;

verus! {

/// Rectification as an operation.
#[derive(Debug, Clone, Copy)]
pub struct ReLU;

/// Every positive element kept, and zero in place of the others.
pub fn relu<T: Scalar, O: Op<T>>(g: &mut Graph<T, O>, x: &Variable) -> (r: Variable)
    requires
        old(g).wf(),
        holds(*old(g), *x),
    ensures
        applied(*old(g), *final(g), O::embed(Rule::ReLU), seq![*x], seq![r]),
        derives(*old(g), *final(g), r, relu_spec(held(*old(g), *x))),
        is_rectified(held(*final(g), r), held(*old(g), *x)),
{
    apply_unary(g, Builtin::ReLU(ReLU), x)
}

/// The logistic function as an operation.
#[derive(Debug, Clone, Copy)]
pub struct Sigmoid;

/// The normalised exponential along an axis as an operation.
#[derive(Debug, Clone, Copy)]
pub struct Softmax {
    pub axis: isize,
}

impl Sigmoid {
    /// The gradient of the input, given the output `y`: `gy * y * (1 - y)`.
    pub fn backward<T: Scalar, O: Op<T>>(
        &self,
        g: &mut Graph<T, O>,
        y: &Variable,
        gy: &Variable,
    ) -> (gx: Variable)
        requires
            old(g).wf(),
            holds(*old(g), *y),
            holds(*old(g), *gy),
            held(*old(g), *gy).shape == held(*old(g), *y).shape,
        ensures
            derives(
                *old(g),
                *final(g),
                gx,
                zip_spec(
                    Arithmetic::Times,
                    zip_spec(Arithmetic::Times, held(*old(g), *gy), held(*old(g), *y)),
                    complement_spec(held(*old(g), *y)),
                ),
            ),
            held(*final(g), gx).shape == held(*old(g), *y).shape,
            forall|k: int|
                0 <= k < held(*old(g), *y).data.len() ==> #[trigger] held(*final(g), gx).data[k]
                    == held(*old(g), *gy).data[k].times(held(*old(g), *y).data[k]).times(
                    T::one_spec().minus(held(*old(g), *y).data[k]),
                ),
            old(g).config.enable_backprop ==> means(
                *final(g),
                gx,
                binary(
                    Rule::Mul,
                    binary(Rule::Mul, Term::Given(*gy), Term::Given(*y)),
                    binary(
                        Rule::Sub,
                        Term::Constant(scalar_spec(T::one_spec())),
                        Term::Given(*y),
                    ),
                ),
            ),
    {
        let ghost g0 = *g;
        proof {
            let (ya, da) = (held(*g, *y), held(*g, *gy));
            assert(g.node_ok(y.id as int) && g.node_ok(gy.id as int));
            lemma_zip(Arithmetic::Times, da, ya);
            lemma_complement(ya);
            lemma_zip(
                Arithmetic::Times,
                zip_spec(Arithmetic::Times, da, ya),
                complement_spec(ya),
            );
            lemma_same_shape(*g, *gy, *y);
        }
        let scaled = crate::engine::ops::mul(g, gy, y);
        let ghost g1 = *g;
        let one = scalar(g, T::one());
        let ghost g2 = *g;
        proof {
            lemma_same_shape(*g, *y, *y);
        }
        let rest = crate::engine::ops::sub(g, &one, y);
        let ghost g3 = *g;
        proof {
            lemma_same_shape(*g, scaled, rest);
        }
        let gx = crate::engine::ops::mul(g, &scaled, &rest);
        proof {
            let (d, a) = (Term::Given(*gy), Term::Given(*y));
            let c = scalar_spec(T::one_spec());
            let (ts, tr) = (binary(Rule::Mul, d, a), binary(Rule::Sub, Term::Constant(c), a));
            lemma_binary(g0, g1, Rule::Mul, *gy, *y, scaled, d, a);
            lemma_constant(g1, g2, one, c);
            lemma_binary(g2, g3, Rule::Sub, one, *y, rest, Term::Constant(c), a);
            lemma_binary(g3, *g, Rule::Mul, scaled, rest, gx, ts, tr);
        }
        gx
    }
}

/// One half.
pub open spec fn half_spec<T: Scalar>() -> T {
    T::one_spec().over(T::count_spec(2))
}

/// The logistic function, computed from the hyperbolic tangent of half of every
/// element, which does not grow too large.
pub open spec fn sigmoid_spec<T: Scalar, H: Fn(T) -> T>(x: Array<T>, tanh: H) -> Array<T> {
    let half = half_spec::<T>();
    Array {
        shape: x.shape,
        data: Seq::new(
            x.data.len(),
            |i: int| image(tanh, x.data[i].times(half)).times(half).plus(half),
        ),
    }
}

/// The logistic function of every element.
pub fn sigmoid_array<T: Scalar, H: Fn(T) -> T>(x: &Tensor<T>, tanh: &H) -> (r: Tensor<T>)
    requires
        x.wf(),
        is_function(*tanh),
    ensures
        r.wf(),
        r@ == sigmoid_spec(x@, *tanh),
{
    let half: T = T::one().div(T::from_count(2));
    let n: usize = x.data.len();
    let mut data: Vec<T> = Vec::new();
    let mut i: usize = 0;
    while i < n
        invariant
            n == x.data@.len(),
            is_function(*tanh),
            half == half_spec::<T>(),
            i <= n,
            data@.len() == i,
            forall|j: int|
                0 <= j < i ==> #[trigger] data@[j] == image(*tanh, x.data@[j].times(half)).times(
                    half,
                ).plus(half),
        decreases n - i,
    {
        let a: T = x.data[i].mul(half);
        assert(call_requires(*tanh, (a,)));
        let t: T = tanh(a);
        assert(call_ensures(*tanh, (a,), t));
        data.push(t.mul(half).add(half));
        i = i + 1;
    }
    let r = Tensor { shape: copy_of(x.shape.as_slice()), data };
    assert(r@ =~= sigmoid_spec(x@, *tanh));
    r
}

/// The exponentials along one axis, divided by their sum; the greatest element is
/// taken out before, so that no exponential grows too large.
pub open spec fn softmax_spec<T: Scalar, E: Fn(T) -> T>(
    x: Array<T>,
    axis: usize,
    lowest: T,
    exp: E,
) -> Array<T> {
    let y = map_spec(zip_spec(Arithmetic::Minus, x, max_keepdims_spec(x, axis, lowest)), exp);
    zip_spec(Arithmetic::Over, y, sum_keepdims_spec(y, axis))
}

/// The normalised exponential along one axis.
pub fn softmax_array<T: Scalar, E: Fn(T) -> T>(
    x: &Tensor<T>,
    axis: usize,
    lowest: T,
    exp: &E,
) -> (r: Tensor<T>)
    requires
        x.wf(),
        axis < x@.shape.len(),
        x@.shape[axis as int] > 0,
        is_function(*exp),
    ensures
        r.wf(),
        r@ == softmax_spec(x@, axis, lowest, *exp),
        r@.shape == x@.shape,
        forall|idx: Seq<int>|
            in_bounds(x@.shape, idx) ==> #[trigger] r@.at(idx) == image(
                *exp,
                x@.at(idx).minus(line_greatest(x@, idx, axis as int, lowest)),
            ).over(line_total(x@, idx, axis as int, lowest, *exp)),
{
    proof {
        assert forall|idx: Seq<int>| in_bounds(x@.shape, idx) implies #[trigger] softmax_spec(
            x@,
            axis,
            lowest,
            *exp,
        ).at(idx) == image(
            *exp,
            x@.at(idx).minus(line_greatest(x@, idx, axis as int, lowest)),
        ).over(line_total(x@, idx, axis as int, lowest, *exp)) by {
            softmax_shares_out_a_line(x@, axis, lowest, *exp, idx);
        }
        lemma_one_axis::<T>(x@.shape, axis as int);
        lemma_joint_absorbs(x@.shape, x@.shape.update(axis as int, 1));
    }
    let m = max_keepdims(x, axis, lowest);
    let shifted = zip_map(Arithmetic::Minus, x, &m);
    let y = map_array(&shifted, exp);
    let totals = sum_keepdims(&y, axis);
    zip_map(Arithmetic::Over, &y, &totals)
}

/// The gradient of the normalised exponential: `y * gy - y * sum(y * gy)`.
pub open spec fn softmax_gradient<T: Scalar>(y: Array<T>, gy: Array<T>, axis: isize) -> Array<T> {
    let weighted = zip_spec(Arithmetic::Times, y, gy);
    zip_spec(
        Arithmetic::Minus,
        weighted,
        zip_spec(Arithmetic::Times, y, sum_spec(weighted, Some(seq![axis]), true)),
    )
}

impl Softmax {
    pub fn new(axis: isize) -> (r: Softmax)
        ensures
            r.axis == axis,
    {
        Softmax { axis }
    }

    /// The gradient of the input, given the output `y`.
    pub fn backward<T: Scalar, O: Op<T>>(
        &self,
        g: &mut Graph<T, O>,
        y: &Variable,
        gy: &Variable,
    ) -> (gx: Variable)
        requires
            old(g).wf(),
            holds(*old(g), *y),
            holds(*old(g), *gy),
            held(*old(g), *gy).shape == held(*old(g), *y).shape,
            valid_axis(self.axis, held(*old(g), *y).shape.len()),
            sum_fits(held(*old(g), *y).shape, Some(seq![self.axis])),
        ensures
            derives(
                *old(g),
                *final(g),
                gx,
                softmax_gradient(held(*old(g), *y), held(*old(g), *gy), self.axis),
            ),
            held(*final(g), gx).shape == held(*old(g), *y).shape,
            forall|idx: Seq<int>|
                in_bounds(held(*old(g), *y).shape, idx) ==> is_softmax_gradient(
                    #[trigger] held(*final(g), gx).at(idx),
                    held(*old(g), *y),
                    held(*old(g), *gy),
                    named_axis(self.axis, held(*old(g), *y).shape.len()),
                    idx,
                ),
            old(g).config.enable_backprop ==> {
                let weighted = binary(Rule::Mul, Term::Given(*y), Term::Given(*gy));
                let over = Rule::Sum { axes: Some(seq![self.axis]), keepdims: true };
                means(
                    *final(g),
                    gx,
                    binary(
                        Rule::Sub,
                        weighted,
                        binary(Rule::Mul, Term::Given(*y), unary(over, weighted)),
                    ),
                )
            },
    {
        let ghost g0 = *g;
        proof {
            let (ya, da) = (held(*g, *y), held(*g, *gy));
            assert(g.node_ok(y.id as int) && g.node_ok(gy.id as int));
            assert(g.nodes@[y.id as int].data->0.shape.len() == ya.shape.len());
            assert forall|idx: Seq<int>| in_bounds(ya.shape, idx) implies is_softmax_gradient(
                #[trigger] softmax_gradient(ya, da, self.axis).at(idx),
                ya,
                da,
                named_axis(self.axis, ya.shape.len()),
                idx,
            ) by {
                softmax_weighs_gradients_along_a_line(ya, da, self.axis, idx);
            }
            lemma_same_shape(*g, *y, *gy);
        }
        let weighted = crate::engine::ops::mul(g, y, gy);
        let ghost g1 = *g;
        let mut axes: Vec<isize> = Vec::new();
        axes.push(self.axis);
        proof {
            assert(axes@ =~= seq![self.axis]);
        }
        let total = sum_over(g, &weighted, Axes::Only(axes), true);
        let ghost g2 = *g;
        proof {
            let s = held(*g, *y).shape;
            assert(g.node_ok(y.id as int));
            let kept = kept_shape(s, listed(Some(seq![self.axis]), s.len()));
            lemma_kept_shape(s, listed(Some(seq![self.axis]), s.len()));
            lemma_joint_absorbs(s, kept);
        }
        let spread = crate::engine::ops::mul(g, y, &total);
        let ghost g3 = *g;
        proof {
            lemma_same_shape(*g, weighted, spread);
        }
        let gx = crate::engine::ops::sub(g, &weighted, &spread);
        proof {
            let (d, a) = (Term::Given(*gy), Term::Given(*y));
            let over = Rule::Sum { axes: Some(seq![self.axis]), keepdims: true };
            let tw = binary(Rule::Mul, a, d);
            let tt = unary(over, tw);
            lemma_binary(g0, g1, Rule::Mul, *y, *gy, weighted, a, d);
            lemma_unary(g1, g2, over, weighted, total, tw);
            lemma_binary(g2, g3, Rule::Mul, *y, total, spread, a, tt);
            lemma_binary(g3, *g, Rule::Sub, weighted, spread, gx, tw, binary(Rule::Mul, a, tt));
            let (ya, da) = (held(g0, *y), held(g0, *gy));
            assert(held(*g, gx) == softmax_gradient(ya, da, self.axis));
        }
        gx
    }
}

// ---------------------------------------------------------------------------
// dropout
// ---------------------------------------------------------------------------
/// Every element of a mask over the share of elements that it keeps.
pub open spec fn scaled_mask_spec<T: Scalar>(mask: Array<T>, ratio: T) -> Array<T> {
    Array {
        shape: mask.shape,
        data: Seq::new(
            mask.data.len(),
            |k: int| mask.data[k].over(T::one_spec().minus(ratio)),
        ),
    }
}

/// One where a draw exceeds the ratio, and zero elsewhere.
pub open spec fn mask_spec<T: Scalar>(draws: Array<T>, ratio: T) -> Array<T> {
    Array {
        shape: draws.shape,
        data: Seq::new(
            draws.data.len(),
            |k: int|
                if draws.data[k].exceeds(ratio) {
                    T::one_spec()
                } else {
                    T::zero_spec()
                },
        ),
    }
}

/// Whether a dropout ratio lies between zero, which it may be, and one, which it may
/// not.
pub open spec fn valid_ratio<T: Scalar>(ratio: T) -> bool {
    &&& !T::zero_spec().exceeds(ratio)
    &&& T::one_spec().exceeds(ratio)
}

fn scaled_mask<T: Scalar>(mask: &Tensor<T>, ratio: T) -> (r: Tensor<T>)
    requires
        mask.wf(),
    ensures
        r.wf(),
        r@ == scaled_mask_spec(mask@, ratio),
{
    let n: usize = mask.data.len();
    let keep: T = T::one().sub(ratio);
    let mut data: Vec<T> = Vec::new();
    let mut k: usize = 0;
    while k < n
        invariant
            n == mask.data@.len(),
            k <= n,
            keep == T::one_spec().minus(ratio),
            data@.len() == k,
            forall|i: int| 0 <= i < k ==> #[trigger] data@[i] == mask.data@[i].over(keep),
        decreases n - k,
    {
        data.push(mask.data[k].div(keep));
        k = k + 1;
    }
    proof {
        assert(data@ =~= scaled_mask_spec(mask@, ratio).data);
    }
    Tensor { shape: copy_of(mask.shape.as_slice()), data }
}

/// The mask that uniform draws give.
pub fn dropout_mask<T: Scalar>(draws: &Tensor<T>, ratio: T) -> (r: Tensor<T>)
    requires
        draws.wf(),
    ensures
        r.wf(),
        r@ == mask_spec(draws@, ratio),
{
    let n: usize = draws.data.len();
    let mut data: Vec<T> = Vec::new();
    let mut k: usize = 0;
    while k < n
        invariant
            n == draws.data@.len(),
            k <= n,
            data@.len() == k,
            forall|i: int| 0 <= i < k ==> #[trigger] data@[i] == mask_spec(draws@, ratio).data[i],
        decreases n - k,
    {
        if draws.data[k].gt(ratio) {
            data.push(T::one());
        } else {
            data.push(T::zero());
        }
        k = k + 1;
    }
    proof {
        assert(data@ =~= mask_spec(draws@, ratio).data);
    }
    Tensor { shape: copy_of(draws.shape.as_slice()), data }
}

/// Whether `after` is `before` with a scaled mask as a new variable, and `r` as its
/// product with `x`.
pub open spec fn masked<T: Scalar, O: Op<T>>(
    before: Graph<T, O>,
    after: Graph<T, O>,
    x: Variable,
    scaled: Array<T>,
    r: Variable,
) -> bool {
    let m = Variable { id: before.nodes@.len() as usize };
    exists|mid: Graph<T, O>|
        {
            &&& #[trigger] one_more(before, mid, m)
            &&& mid.array(m) == Some(scaled)
            &&& applied(mid, after, O::embed(Rule::Mul), seq![x, m], seq![r])
        }
}

/// The elements that a mask keeps, scaled up by the share that it keeps.
pub fn dropout_with_mask<T: Scalar, O: Op<T>>(
    g: &mut Graph<T, O>,
    x: &Variable,
    ratio: T,
    mask: &Tensor<T>,
) -> (r: Variable)
    requires
        old(g).wf(),
        holds(*old(g), *x),
        valid_ratio(ratio),
        mask.wf(),
        mask@.shape == held(*old(g), *x).shape,
    ensures
        derives(
            *old(g),
            *final(g),
            r,
            zip_spec(Arithmetic::Times, held(*old(g), *x), scaled_mask_spec(mask@, ratio)),
        ),
        masked(*old(g), *final(g), *x, scaled_mask_spec(mask@, ratio), r),
        is_thinned(held(*final(g), r), held(*old(g), *x), mask@, ratio),
{
    let scaled = Variable::new(g, scaled_mask(mask, ratio));
    let ghost mid = *g;
    proof {
        lemma_same_shape(*g, *x, scaled);
    }
    let r = crate::engine::ops::mul(g, x, &scaled);
    proof {
        assert(one_more(*old(g), mid, scaled));
        dropout_scales_by_the_share_that_stays(*old(g), *g, *x, ratio, mask@, r);
    }
    r
}

/// Dropout with the given uniform draws: nothing happens outside training.
pub fn dropout<T: Scalar, O: Op<T>>(
    g: &mut Graph<T, O>,
    x: &Variable,
    ratio: T,
    draws: &Tensor<T>,
) -> (r: Variable)
    requires
        old(g).wf(),
        old(g).config.train ==> {
            &&& holds(*old(g), *x)
            &&& valid_ratio(ratio)
            &&& draws.wf()
            &&& draws@.shape == held(*old(g), *x).shape
        },
    ensures
        !old(g).config.train ==> r == *x && *final(g) == *old(g),
        old(g).config.train ==> derives(
            *old(g),
            *final(g),
            r,
            zip_spec(
                Arithmetic::Times,
                held(*old(g), *x),
                scaled_mask_spec(mask_spec(draws@, ratio), ratio),
            ),
        ),
        old(g).config.train ==> masked(
            *old(g),
            *final(g),
            *x,
            scaled_mask_spec(mask_spec(draws@, ratio), ratio),
            r,
        ),
        old(g).config.train ==> is_dropped_out(
            held(*final(g), r),
            held(*old(g), *x),
            draws@,
            ratio,
        ),
{
    if !is_train(&g.config) {
        return *x;
    }
    let mask = dropout_mask(draws, ratio);
    let r = dropout_with_mask(g, x, ratio, &mask);
    proof {
        dropout_keeps_what_is_drawn_above_the_ratio(*old(g), *g, *x, ratio, draws@, r);
    }
    r
}

} // verus!
