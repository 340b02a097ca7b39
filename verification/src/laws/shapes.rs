//! Reshaping, transposing, spreading and summing, place by place.
use crate::engine::rule::Rule;
use crate::functions::reduce::listed;
use crate::index::{in_bounds, lemma_offset_bound, lemma_unravel_offset, offset, volume};
use crate::laws::axes::{lemma_one_sum, line_sum, on_line, sums_run_along_lines};
use crate::laws::elements::{contributes_from, sum_of};
use crate::remap::{scatter, sum_onto};
use crate::scalar::{Ring, Scalar};
use crate::tensor::{
    is_permutation, lemma_permute_map, lemma_unpermuted, lemma_volume_permuted, permuted,
    reversed_axes, unpermuted, Array,
};
use crate::utils::down::summing_axis_by_axis_is_summing_at_once;
use crate::utils::shape::{
    broadcast_map, broadcasts_to, kept_shape, lemma_broadcast_map, seen_through,
};
use vstd::prelude::*;

verus! {

/// Reshaping keeps the elements in their order.
pub proof fn reshaping_keeps_the_order<T: Scalar>(x: Array<T>, shape: Seq<usize>)
    ensures
        (Rule::Reshape { shape }).value(seq![x]).shape == shape,
        (Rule::Reshape { shape }).value(seq![x]).data == x.data,
{
}

/// Transposing reverses the shape and every place.
pub proof fn transposing_reverses_every_place<T: Scalar>(x: Array<T>, idx: Seq<int>)
    requires
        x.wf(),
        x.shape.len() <= usize::MAX,
        in_bounds(x.shape, idx),
    ensures
        Rule::Transpose.value(seq![x]).shape == x.shape.reverse(),
        Rule::Transpose.value(seq![x]).at(idx.reverse()) == x.at(idx),
{
    let n = x.shape.len();
    let axes = reversed_axes(n);
    let s = x.shape;
    assert(is_permutation(axes, n)) by {
        assert forall|a: int| 0 <= a < n implies #[trigger] axes.contains(a as usize) by {
            assert(axes[n - 1 - a] == a as usize);
        }
    }
    let to = permuted(s, axes);
    assert(to =~= s.reverse());
    let rdx = idx.reverse();
    assert(in_bounds(to, rdx)) by {
        assert forall|i: int| 0 <= i < n implies 0 <= #[trigger] rdx[i] < to[i] by {
            assert(0 <= idx[n - 1 - i] < s[n - 1 - i]);
        }
    }
    let k = offset(to, rdx);
    lemma_offset_bound(to, rdx);
    lemma_unravel_offset(to, rdx);
    lemma_unpermuted(s, axes, rdx);
    lemma_volume_permuted(s, axes);
    lemma_permute_map(s, axes);
    assert(unpermuted(rdx, axes) =~= idx) by {
        assert forall|i: int| 0 <= i < n implies #[trigger] unpermuted(rdx, axes)[i]
            == idx[i] by {
            assert(axes[n - 1 - i] == i);
        }
    }
    lemma_offset_bound(s, idx);
}

/// Spreading repeats an array along the axes that it lacks or has only one place of.
pub proof fn spreading_repeats<T: Scalar>(
    x: Array<T>,
    shape: Seq<usize>,
    idx: Seq<int>,
    jdx: Seq<int>,
)
    requires
        x.wf(),
        broadcasts_to(x.shape, shape),
        in_bounds(shape, idx),
        contributes_from(jdx, x.shape, idx),
    ensures
        (Rule::BroadcastTo { shape }).value(seq![x]).shape == shape,
        (Rule::BroadcastTo { shape }).value(seq![x]).at(idx) == x.at(jdx),
{
    lemma_offset_bound(shape, idx);
    lemma_unravel_offset(shape, idx);
    lemma_broadcast_map(x.shape, shape);
    assert(seen_through(idx, x.shape) =~= jdx);
}

/// The axis that a number names: one below nought counts from the last.
pub open spec fn named_axis(axis: isize, ndim: nat) -> int {
    if axis < 0 {
        ndim + axis
    } else {
        axis as int
    }
}

/// A sum over one axis holds the sum of every line along it, whether the axis is kept or
/// dropped.
pub proof fn a_sum_over_an_axis_adds_up_lines<T: Scalar>(
    x: Array<T>,
    axis: isize,
    keepdims: bool,
    idx: Seq<int>,
)
    requires
        x.wf(),
        x.shape.len() <= usize::MAX,
        0 <= named_axis(axis, x.shape.len()) < x.shape.len(),
        in_bounds(x.shape, idx),
    ensures
        ({
            let y = (Rule::Sum { axes: Some(seq![axis]), keepdims }).value(seq![x]);
            let a = named_axis(axis, x.shape.len());
            let cut = x.shape.update(a, 1);
            &&& keepdims ==> y.shape == cut
            &&& y.data.len() == volume(cut)
            &&& y.data[offset(cut, idx.update(a, 0))] == line_sum(
                x.shape[a] as int,
                |j: int| on_line(x, idx, a, j),
            )
        }),
{
    let a = named_axis(axis, x.shape.len());
    let cut = x.shape.update(a, 1usize);
    let over = listed(Some(seq![axis]), x.shape.len());
    assert(over[0] == a as usize);
    assert(kept_shape(x.shape, over) =~= cut) by {
        assert forall|i: int| 0 <= i < x.shape.len() implies #[trigger] kept_shape(
            x.shape,
            over,
        )[i] == cut[i] by {
            if i == a {
                assert(over.contains(over[0]));
            }
        }
    }
    sums_run_along_lines(x, a as usize, idx);
    lemma_offset_bound(x.shape, idx);
    lemma_one_sum(x, a, 0);
    if x.shape[a] == 1 {
        assert(cut =~= x.shape);
    }
}

proof fn lemma_all_onto_one<T: Scalar>(y: Seq<T>, map: Seq<Option<usize>>, n: int)
    requires
        0 <= n <= map.len(),
        forall|k: int| 0 <= k < n ==> #[trigger] map[k] == Some(0usize),
    ensures
        sum_onto(y, map, 0, n) == sum_of(n, |k: int| y[k]),
    decreases n,
{
    if n > 0 {
        lemma_all_onto_one(y, map, n - 1);
    }
}

proof fn lemma_ones(s: Seq<usize>)
    requires
        forall|i: int| 0 <= i < s.len() ==> #[trigger] s[i] == 1,
    ensures
        volume(s) == 1,
    decreases s.len(),
{
    if s.len() > 0 {
        lemma_ones(s.drop_last());
        assert(s.last() == 1);
        let v = volume(s.drop_last());
        assert(v * 1 == v) by (nonlinear_arith);
    }
}

/// Where elements form a ring, the sum over every axis is the sum of all elements.
pub proof fn a_sum_over_everything_adds_up_all<R: Ring>(x: Array<R>, keepdims: bool)
    requires
        x.wf(),
        x.shape.len() <= usize::MAX,
    ensures
        (Rule::Sum { axes: None, keepdims }).value(seq![x]).data == seq![
            sum_of(x.data.len() as int, |k: int| x.data[k]),
        ],
{
    let s = x.shape;
    let over = listed(None, s.len());
    let kept = kept_shape(s, over);
    assert forall|i: int| 0 <= i < s.len() implies #[trigger] kept[i] == 1 by {
        assert(over[i] == i as usize);
        assert(over.contains(i as usize));
    }
    lemma_ones(kept);
    assert(broadcasts_to(kept, s));
    summing_axis_by_axis_is_summing_at_once(x, kept);
    let map = broadcast_map(kept, s);
    lemma_broadcast_map(kept, s);
    assert forall|k: int| 0 <= k < x.data.len() implies #[trigger] map[k] == Some(0usize) by {
        assert(0 <= crate::utils::shape::broadcast_source(kept, s, k) < 1);
    }
    lemma_all_onto_one(x.data, map, x.data.len() as int);
    assert(scatter(x.data, map, 1) =~= seq![sum_of(x.data.len() as int, |k: int| x.data[k])]);
}

} // verus!
