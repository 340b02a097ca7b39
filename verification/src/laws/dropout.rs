//! Dropout, element by element.
use crate::engine::builtin::{derives, held, holds};
use crate::engine::elementwise::{lemma_joint_with_itself, zip_spec, Arithmetic};
use crate::engine::function::Op;
use crate::engine::graph::{Graph, Variable};
use crate::engine::rule::Rule;
use crate::functions::activation::{mask_spec, masked, scaled_mask_spec};
use crate::scalar::{Ring, Scalar};
use crate::tensor::Array;
use crate::utils::shape::broadcasting_to_the_same_shape_is_the_identity;
use vstd::prelude::*;

verus! {

// ---------------------------------------------------------------------------
// words
// ---------------------------------------------------------------------------
/// Whether `y` is `x` with every element times what the mask has for it, over the share of
/// elements that stay: one less `ratio`.
pub open spec fn is_thinned<T: Scalar>(
    y: Array<T>,
    x: Array<T>,
    mask: Array<T>,
    ratio: T,
) -> bool {
    &&& y.shape == x.shape
    &&& y.data.len() == x.data.len()
    &&& forall|k: int|
        0 <= k < x.data.len() ==> #[trigger] y.data[k] == x.data[k].times(
            mask.data[k].over(T::one_spec().minus(ratio)),
        )
}

/// Whether `y` is `x` after dropout: an element whose draw exceeds the ratio is scaled up by
/// one over the share that stays, and nought over it takes the place of the scale elsewhere.
pub open spec fn is_dropped_out<T: Scalar>(
    y: Array<T>,
    x: Array<T>,
    draws: Array<T>,
    ratio: T,
) -> bool {
    let stays = T::one_spec().minus(ratio);
    &&& y.shape == x.shape
    &&& y.data.len() == x.data.len()
    &&& forall|k: int|
        0 <= k < x.data.len() ==> {
            &&& draws.data[k].exceeds(ratio) ==> #[trigger] y.data[k] == x.data[k].times(
                T::one_spec().over(stays),
            )
            &&& !draws.data[k].exceeds(ratio) ==> y.data[k] == x.data[k].times(
                T::zero_spec().over(stays),
            )
        }
}

// ---------------------------------------------------------------------------
// laws
// ---------------------------------------------------------------------------
/// What a scaled mask makes of an array.
pub proof fn lemma_thinned<T: Scalar>(x: Array<T>, mask: Array<T>, ratio: T)
    requires
        x.wf(),
        mask.wf(),
        mask.shape == x.shape,
    ensures
        is_thinned(
            zip_spec(Arithmetic::Times, x, scaled_mask_spec(mask, ratio)),
            x,
            mask,
            ratio,
        ),
{
    let m = scaled_mask_spec(mask, ratio);
    lemma_joint_with_itself(x.shape);
    broadcasting_to_the_same_shape_is_the_identity(x);
    broadcasting_to_the_same_shape_is_the_identity(m);
}

/// Dropout with a mask multiplies by the mask, over the share of elements that stay.
pub proof fn dropout_scales_by_the_share_that_stays<T: Scalar, O: Op<T>>(
    before: Graph<T, O>,
    after: Graph<T, O>,
    x: Variable,
    ratio: T,
    mask: Array<T>,
    r: Variable,
)
    requires
        before.wf(),
        holds(before, x),
        mask.wf(),
        mask.shape == held(before, x).shape,
        derives(
            before,
            after,
            r,
            zip_spec(Arithmetic::Times, held(before, x), scaled_mask_spec(mask, ratio)),
        ),
    ensures
        holds(after, r),
        is_thinned(held(after, r), held(before, x), mask, ratio),
{
    assert(before.node_ok(x.id as int));
    lemma_thinned(held(before, x), mask, ratio);
}

/// An element that a mask keeps comes back when it is multiplied by the share that stays,
/// wherever one over that share has it as its inverse.
pub proof fn a_kept_element_scales_back<T: Ring>(
    y: Array<T>,
    x: Array<T>,
    mask: Array<T>,
    ratio: T,
    k: int,
)
    requires
        is_thinned(y, x, mask, ratio),
        0 <= k < x.data.len(),
        mask.data[k] == T::one_spec(),
        T::one_spec().over(T::one_spec().minus(ratio)).times(T::one_spec().minus(ratio))
            == T::one_spec(),
    ensures
        y.data[k].times(T::one_spec().minus(ratio)) == x.data[k],
{
    let stays = T::one_spec().minus(ratio);
    T::times_associates(x.data[k], T::one_spec().over(stays), stays);
    T::one_is_neutral(x.data[k]);
}

/// With a ratio of nought and a mask that keeps everything, dropout changes nothing,
/// wherever one over one is one.
pub proof fn dropping_nothing_changes_nothing<T: Ring>(y: Array<T>, x: Array<T>, mask: Array<T>)
    requires
        is_thinned(y, x, mask, T::zero_spec()),
        forall|k: int| 0 <= k < x.data.len() ==> #[trigger] mask.data[k] == T::one_spec(),
        T::one_spec().over(T::one_spec()) == T::one_spec(),
    ensures
        y == x,
{
    let (zero, one) = (T::zero_spec(), T::one_spec());
    assert(one.minus(zero) == one) by {
        T::minus_adds_the_negation(one, zero);
        T::negation_cancels(zero);
        T::plus_commutes(zero, zero.negated());
        T::zero_is_neutral(zero.negated());
        T::zero_is_neutral(one);
    }
    assert forall|k: int| 0 <= k < x.data.len() implies y.data[k] == x.data[k] by {
        assert(mask.data[k] == one);
        T::one_is_neutral(x.data[k]);
    }
    assert(y.data =~= x.data);
}

/// Dropout with uniform draws keeps the elements whose draw exceeds the ratio.
pub proof fn dropout_keeps_what_is_drawn_above_the_ratio<T: Scalar, O: Op<T>>(
    before: Graph<T, O>,
    after: Graph<T, O>,
    x: Variable,
    ratio: T,
    draws: Array<T>,
    r: Variable,
)
    requires
        before.wf(),
        holds(before, x),
        draws.wf(),
        draws.shape == held(before, x).shape,
        derives(
            before,
            after,
            r,
            zip_spec(
                Arithmetic::Times,
                held(before, x),
                scaled_mask_spec(mask_spec(draws, ratio), ratio),
            ),
        ),
    ensures
        holds(after, r),
        is_dropped_out(held(after, r), held(before, x), draws, ratio),
{
    assert(before.node_ok(x.id as int));
    lemma_thinned(held(before, x), mask_spec(draws, ratio), ratio);
}

/// What dropout adds to a graph in training.
pub proof fn lemma_masked<T: Scalar, O: Op<T>>(
    before: Graph<T, O>,
    after: Graph<T, O>,
    x: Variable,
    ratio: T,
    draws: Array<T>,
    r: Variable,
)
    requires
        holds(before, x),
        held(before, x).wf(),
        draws.wf(),
        draws.shape == held(before, x).shape,
        masked(before, after, x, scaled_mask_spec(mask_spec(draws, ratio), ratio), r),
    ensures
        after.extends(before),
        holds(after, r),
        is_dropped_out(held(after, r), held(before, x), draws, ratio),
{
    let scaled = scaled_mask_spec(mask_spec(draws, ratio), ratio);
    let m = Variable { id: before.nodes@.len() as usize };
    let mid = choose|mid: Graph<T, O>|
        {
            &&& #[trigger] crate::engine::graph::one_more(before, mid, m)
            &&& mid.array(m) == Some(scaled)
            &&& crate::engine::function::applied(
                mid,
                after,
                O::embed(Rule::Mul),
                seq![x, m],
                seq![r],
            )
        };
    crate::engine::trace::lemma_extends(before, mid, after);
    crate::laws::layers::lemma_still_held(before, mid, x);
    assert(mid.arrays(seq![x, m]) =~= seq![held(before, x), scaled]);
    O::embedding(Rule::Mul);
    assert(O::value(O::embed(Rule::Mul), mid.arrays(seq![x, m])) == seq![
        Rule::Mul.value(seq![held(before, x), scaled]),
    ]);
    assert(seq![r][0] == r);
    assert(after.nodes.len() == after.nodes@.len());
    lemma_thinned(held(before, x), mask_spec(draws, ratio), ratio);
}

} // verus!
