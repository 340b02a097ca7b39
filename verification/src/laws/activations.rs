//! The logistic function.
use crate::functions::activation::sigmoid_spec;
use crate::functions::basic_math::image;
use crate::scalar::{Ring, Scalar};
use crate::tensor::Array;
use vstd::prelude::*;

verus! {

/// The logistic function is half of the hyperbolic tangent of half of every element, plus a
/// half.
pub proof fn the_logistic_function_is_a_shifted_tangent<T: Scalar, H: Fn(T) -> T>(
    x: Array<T>,
    tanh: H,
    k: int,
)
    requires
        0 <= k < x.data.len(),
    ensures
        sigmoid_spec(x, tanh).shape == x.shape,
        sigmoid_spec(x, tanh).data.len() == x.data.len(),
        ({
            let half = T::one_spec().over(T::count_spec(2));
            sigmoid_spec(x, tanh).data[k] == image(tanh, x.data[k].times(half)).times(half).plus(
                half,
            )
        }),
{
}

/// Where the tangent of a negation is the negation of the tangent, and two halves make one,
/// the logistic functions of `a` and of what takes `a` to nought make one together.
pub proof fn opposite_logistic_values_make_one<R: Ring, H: Fn(R) -> R>(
    x: Array<R>,
    y: Array<R>,
    tanh: H,
    k: int,
)
    requires
        0 <= k < x.data.len(),
        k < y.data.len(),
        x.data[k].plus(y.data[k]) == R::zero_spec(),
        forall|a: R, b: R|
            a.plus(b) == R::zero_spec() ==> (#[trigger] image(tanh, a)).plus(
                #[trigger] image(tanh, b),
            ) == R::zero_spec(),
        R::one_spec().over(R::count_spec(2)).plus(R::one_spec().over(R::count_spec(2)))
            == R::one_spec(),
    ensures
        sigmoid_spec(x, tanh).data[k].plus(sigmoid_spec(y, tanh).data[k]) == R::one_spec(),
{
    let half = R::one_spec().over(R::count_spec(2));
    let (a, b) = (x.data[k].times(half), y.data[k].times(half));
    R::times_distributes(x.data[k], y.data[k], half);
    R::times_commutes(R::zero_spec(), half);
    R::zero_absorbs(half);
    assert(a.plus(b) == R::zero_spec());
    let (ta, tb) = (image(tanh, a), image(tanh, b));
    R::times_distributes(ta, tb, half);
    let (p, q) = (ta.times(half), tb.times(half));
    assert(p.plus(q) == R::zero_spec());
    R::plus_associates(p, half, q.plus(half));
    R::plus_associates(half, q, half);
    R::plus_commutes(half, q);
    R::plus_associates(q, half, half);
    R::plus_associates(p, q, half.plus(half));
    R::plus_commutes(R::zero_spec(), R::one_spec());
    R::zero_is_neutral(R::one_spec());
}

} // verus!
