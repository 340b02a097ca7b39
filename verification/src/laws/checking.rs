//! What is measured by differences, and when a gradient passes.
use crate::engine::graph::{Graph, Variable};
use crate::laws::axes::greatest_of;
use crate::scalar::{Ring, Scalar};
use crate::tensor::Array;
use crate::utils::numerical::{
    judged, measured, ordered, quotient, widest, with_element, GradientCheckError,
};
use vstd::prelude::*;

verus! {

// ---------------------------------------------------------------------------
// words
// ---------------------------------------------------------------------------
/// How far `a` lies from `b`.
pub open spec fn gap<T: Scalar>(a: T, b: T) -> T {
    if T::zero_spec().exceeds(a.minus(b)) {
        a.minus(b).negated()
    } else {
        a.minus(b)
    }
}

/// How far it may lie: the absolute tolerance, and the relative one of the size of `b`.
pub open spec fn room<T: Scalar>(b: T, relative: T, absolute: T) -> T {
    absolute.plus(
        relative.times(
            if T::zero_spec().exceeds(b) {
                b.negated()
            } else {
                b
            },
        ),
    )
}

/// Whether `b` has the shape of `a` and lies within the tolerances of it everywhere, nothing
/// that is compared being beyond comparison.
pub open spec fn passes<T: Scalar>(a: Array<T>, b: Array<T>, relative: T, absolute: T) -> bool {
    &&& a.shape == b.shape
    &&& forall|i: int|
        0 <= i < a.data.len() ==> {
            let g = gap(#[trigger] a.data[i], b.data[i]);
            let r = room(b.data[i], relative, absolute);
            ordered(g) && ordered(r) && !g.exceeds(r)
        }
}

// ---------------------------------------------------------------------------
// laws
// ---------------------------------------------------------------------------
proof fn lemma_taken_back<R: Ring>(a: R, b: R, d: R)
    requires
        a == b.plus(d),
    ensures
        a.minus(b) == d,
{
    R::minus_adds_the_negation(a, b);
    R::plus_commutes(b, d);
    R::plus_associates(d, b, b.negated());
    R::negation_cancels(b);
    R::zero_is_neutral(d);
}

/// The difference quotient of a function that is affine in the element it is taken at is the
/// slope times twice the step, over twice the step.
pub proof fn a_difference_quotient_finds_a_slope<
    R: Ring,
    O,
    F: Fn(Graph<R, O>, &Variable) -> (Graph<R, O>, Variable),
>(f: F, start: Graph<R, O>, x: Array<R>, i: int, eps: R, d: R, base: R, slope: R)
    requires
        0 <= i < x.data.len(),
        quotient(f, start, x, i, eps, d),
        forall|t: R, sum: R| #[trigger]
            measured(f, start, with_element(x, i, t), sum) ==> sum == base.plus(t.times(slope)),
    ensures
        d == eps.plus(eps).times(slope).over(R::count_spec(2).times(eps)),
{
    let (further, back) = choose|further: R, back: R|
        {
            &&& #[trigger] measured(f, start, with_element(x, i, x.data[i].plus(eps)), further)
            &&& #[trigger] measured(f, start, with_element(x, i, x.data[i].minus(eps)), back)
            &&& d == further.minus(back).over(R::count_spec(2).times(eps))
        };
    let e = x.data[i];
    let two = eps.plus(eps);
    assert(e.minus(eps).plus(two) == e.plus(eps)) by {
        R::minus_adds_the_negation(e, eps);
        R::plus_associates(e, eps.negated(), two);
        R::plus_associates(eps.negated(), eps, eps);
        R::plus_commutes(eps.negated(), eps);
        R::negation_cancels(eps);
        R::plus_commutes(R::zero_spec(), eps);
        R::zero_is_neutral(eps);
    }
    R::times_distributes(e.minus(eps), two, slope);
    R::plus_associates(base, e.minus(eps).times(slope), two.times(slope));
    lemma_taken_back(further, back, two.times(slope));
}

/// A gradient passes exactly when it has the shape of the measured one and no element lies
/// further from its counterpart than the tolerances allow.
pub proof fn a_gradient_passes_within_its_tolerances<T: Scalar>(
    numerical: Array<T>,
    analytical: Array<T>,
    relative: T,
    absolute: T,
    verdict: Result<(), GradientCheckError<T>>,
)
    requires
        judged(numerical, analytical, relative, absolute, verdict),
    ensures
        verdict is Ok <==> passes(numerical, analytical, relative, absolute),
{
    let (a, b) = (numerical.data, analytical.data);
    assert forall|i: int| 0 <= i < a.len() implies crate::utils::numerical::near(
        #[trigger] a[i],
        b[i],
        relative,
        absolute,
    ) == {
        let g = gap(a[i], b[i]);
        let r = room(b[i], relative, absolute);
        ordered(g) && ordered(r) && !g.exceeds(r)
    } by {}
}

proof fn lemma_widest<T: Scalar>(a: Seq<T>, b: Seq<T>, n: int)
    ensures
        widest(a, b, n) == greatest_of(n, T::zero_spec(), |i: int| gap(a[i], b[i])),
    decreases n,
{
    if n > 0 {
        lemma_widest(a, b, n - 1);
    }
}

/// A gradient of the right shape that does not pass is reported together with the measured
/// one, and with the greatest distance between an element and its counterpart.
pub proof fn the_widest_gap_is_reported<T: Scalar>(
    numerical: Array<T>,
    analytical: Array<T>,
    relative: T,
    absolute: T,
    verdict: Result<(), GradientCheckError<T>>,
)
    requires
        judged(numerical, analytical, relative, absolute, verdict),
        numerical.shape == analytical.shape,
        !passes(numerical, analytical, relative, absolute),
    ensures
        verdict matches Err(GradientCheckError::ValueMismatch(w)) && w.numerical@ == numerical
            && w.analytical@ == analytical && w.max_abs_diff == greatest_of(
            numerical.data.len() as int,
            T::zero_spec(),
            |i: int| gap(numerical.data[i], analytical.data[i]),
        ),
{
    a_gradient_passes_within_its_tolerances(numerical, analytical, relative, absolute, verdict);
    lemma_widest(numerical.data, analytical.data, numerical.data.len() as int);
}

} // verus!
