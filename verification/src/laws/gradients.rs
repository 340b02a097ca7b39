//! The gradients of elementwise operations and of the losses, element by element.
use crate::engine::elementwise::{
    lemma_joint_absorbs, lemma_joint_with_itself, lemma_scalar_broadcasts, zip_spec, Arithmetic,
};
use crate::engine::rule::Rule;
use crate::functions::activation::softmax_gradient;
use crate::functions::basic_math::complement_spec;
use crate::functions::loss::cross_entropy_gradient;
use crate::functions::reduce::sum_spec;
use crate::index::{in_bounds, lemma_offset_bound, lemma_unravel, offset, unravel};
use crate::laws::axes::{lemma_moved, line_sum, on_line};
use crate::laws::elements::{arithmetic_goes_place_by_place, entry};
use crate::laws::shapes::{a_sum_over_an_axis_adds_up_lines, named_axis};
use crate::remap::sum_onto;
use crate::scalar::{Ring, Scalar};
use crate::tensor::{scalar_spec, Array};
use crate::utils::array::{lemma_one_axis, row_map, selects};
use crate::utils::conv::lemma_volume2;
use crate::utils::shape::broadcasting_to_the_same_shape_is_the_identity;
use vstd::prelude::*;

verus! {

/// Whether `v` is, at `idx`, `y` times what the gradient `d` has there, less `y` times the sum
/// of the gradients of the line along `axis`, each weighed by its `y`.
pub open spec fn is_softmax_gradient<T: Scalar>(
    v: T,
    y: Array<T>,
    d: Array<T>,
    axis: int,
    idx: Seq<int>,
) -> bool {
    let total = line_sum(
        y.shape[axis] as int,
        |j: int| on_line(y, idx, axis, j).times(on_line(d, idx, axis, j)),
    );
    v == y.at(idx).times(d.at(idx)).minus(y.at(idx).times(total))
}

/// Combining arrays of one shape combines element with element.
pub proof fn lemma_zip<T: Scalar>(op: Arithmetic, a: Array<T>, b: Array<T>)
    requires
        a.wf(),
        b.wf(),
        a.shape == b.shape,
    ensures
        zip_spec(op, a, b).wf(),
        zip_spec(op, a, b).shape == a.shape,
        forall|k: int|
            0 <= k < a.data.len() ==> #[trigger] zip_spec(op, a, b).data[k] == op.value(
                a.data[k],
                b.data[k],
            ),
{
    lemma_joint_with_itself(a.shape);
    broadcasting_to_the_same_shape_is_the_identity(a);
    broadcasting_to_the_same_shape_is_the_identity(b);
}

/// Combining an array with a single element combines every element with it.
pub proof fn lemma_zip_single<T: Scalar>(a: Array<T>, c: T)
    requires
        a.wf(),
    ensures
        zip_spec(Arithmetic::Times, a, scalar_spec(c)).wf(),
        zip_spec(Arithmetic::Times, a, scalar_spec(c)).shape == a.shape,
        zip_spec(Arithmetic::Times, scalar_spec(c), a).wf(),
        zip_spec(Arithmetic::Times, scalar_spec(c), a).shape == a.shape,
        zip_spec(Arithmetic::Minus, scalar_spec(c), a).wf(),
        zip_spec(Arithmetic::Minus, scalar_spec(c), a).shape == a.shape,
        forall|k: int|
            0 <= k < a.data.len() ==> {
                &&& #[trigger] zip_spec(Arithmetic::Times, a, scalar_spec(c)).data[k]
                    == a.data[k].times(c)
                &&& zip_spec(Arithmetic::Times, scalar_spec(c), a).data[k] == c.times(a.data[k])
                &&& zip_spec(Arithmetic::Minus, scalar_spec(c), a).data[k] == c.minus(a.data[k])
            },
        forall|k: int|
            0 <= k < a.data.len() ==> #[trigger] zip_spec(
                Arithmetic::Times,
                scalar_spec(c),
                a,
            ).data[k] == c.times(a.data[k]),
        forall|k: int|
            0 <= k < a.data.len() ==> #[trigger] zip_spec(
                Arithmetic::Minus,
                scalar_spec(c),
                a,
            ).data[k] == c.minus(a.data[k]),
{
    let one = scalar_spec(c);
    let s = a.shape;
    lemma_scalar_broadcasts(s);
    lemma_joint_absorbs(s, one.shape);
    assert(one.wf());
    assert forall|k: int| 0 <= k < a.data.len() implies {
        &&& #[trigger] zip_spec(Arithmetic::Times, a, one).data[k] == a.data[k].times(c)
        &&& zip_spec(Arithmetic::Times, one, a).data[k] == c.times(a.data[k])
        &&& zip_spec(Arithmetic::Minus, one, a).data[k] == c.minus(a.data[k])
    } by {
        lemma_unravel(s, k);
        let idx = unravel(s, k);
        assert forall|i: int| 0 <= i < s.len() implies 0 <= #[trigger] idx[i] < s[i] by {}
        let none = Seq::<int>::empty();
        arithmetic_goes_place_by_place(a, one, idx, idx, none);
        arithmetic_goes_place_by_place(one, a, idx, none, idx);
        assert(offset(one.shape, none) == 0);
    }
    assert forall|k: int| 0 <= k < a.data.len() implies #[trigger] zip_spec(
        Arithmetic::Times,
        one,
        a,
    ).data[k] == c.times(a.data[k]) by {
        assert(zip_spec(Arithmetic::Times, a, one).data[k] == a.data[k].times(c));
    }
    assert forall|k: int| 0 <= k < a.data.len() implies #[trigger] zip_spec(
        Arithmetic::Minus,
        one,
        a,
    ).data[k] == c.minus(a.data[k]) by {
        assert(zip_spec(Arithmetic::Times, a, one).data[k] == a.data[k].times(c));
    }
}

/// What arithmetic on arrays of one shape hands back for the gradient `d` of its result, at
/// every element: what changes the result by one of its argument.
pub proof fn gradients_go_element_by_element<T: Scalar>(
    a: Array<T>,
    b: Array<T>,
    d: Array<T>,
    k: int,
)
    requires
        a.wf(),
        b.wf(),
        d.wf(),
        a.shape == b.shape,
        d.shape == a.shape,
        0 <= k < a.data.len(),
    ensures
        ({
            let (x, y, g) = (a.data[k], b.data[k], d.data[k]);
            let two = T::count_spec(2);
            &&& Rule::Add.gradient(seq![a, b], d)[0].data[k] == g
            &&& Rule::Add.gradient(seq![a, b], d)[1].data[k] == g
            &&& Rule::Sub.gradient(seq![a, b], d)[0].data[k] == g
            &&& Rule::Sub.gradient(seq![a, b], d)[1].data[k] == g.negated()
            &&& Rule::Mul.gradient(seq![a, b], d)[0].data[k] == g.times(y)
            &&& Rule::Mul.gradient(seq![a, b], d)[1].data[k] == g.times(x)
            &&& Rule::Div.gradient(seq![a, b], d)[0].data[k] == g.over(y)
            &&& Rule::Div.gradient(seq![a, b], d)[1].data[k] == g.times(
                x.over(y.times(y)).negated(),
            )
            &&& Rule::Neg.gradient(seq![a], d)[0].data[k] == g.negated()
            &&& Rule::Square.gradient(seq![a], d)[0].data[k] == two.times(x).times(g)
            &&& x.exceeds(T::zero_spec()) ==> Rule::ReLU.gradient(seq![a], d)[0].data[k]
                == g.times(T::one_spec())
            &&& !x.exceeds(T::zero_spec()) ==> Rule::ReLU.gradient(seq![a], d)[0].data[k]
                == g.times(T::zero_spec())
        }),
{
    lemma_zip(Arithmetic::Times, d, b);
    lemma_zip(Arithmetic::Times, d, a);
    lemma_zip(Arithmetic::Over, d, b);
    let square = crate::engine::elementwise::square_spec(b);
    lemma_zip(Arithmetic::Over, a, square);
    let part = crate::engine::elementwise::neg_spec(zip_spec(Arithmetic::Over, a, square));
    lemma_zip(Arithmetic::Times, d, part);
    lemma_zip_single(a, T::count_spec(2));
    let twice = zip_spec(Arithmetic::Times, scalar_spec(T::count_spec(2)), a);
    lemma_zip(Arithmetic::Times, twice, d);
    lemma_zip(Arithmetic::Times, d, crate::engine::elementwise::positive_mask_spec(a));
    assert(twice.data[k] == T::count_spec(2).times(a.data[k]));
}

/// The gradient of the mean squared error is the difference times two over the number of
/// rows, and its negation for the other side.
pub proof fn squared_differences_pull_together<T: Scalar>(
    a: Array<T>,
    b: Array<T>,
    g: T,
    k: int,
)
    requires
        a.wf(),
        b.wf(),
        a.shape == b.shape,
        0 <= k < a.data.len(),
    ensures
        ({
            let both = Rule::MeanSquaredError.gradient(seq![a, b], scalar_spec(g));
            let pull = g.times(a.data[k].minus(b.data[k])).times(
                T::count_spec(2).over(T::count_spec(a.shape[0])),
            );
            &&& both[0].data[k] == pull
            &&& both[1].data[k] == pull.negated()
        }),
{
    lemma_zip(Arithmetic::Minus, a, b);
    let gap = zip_spec(Arithmetic::Minus, a, b);
    lemma_zip_single(gap, g);
    let scaled = zip_spec(Arithmetic::Times, scalar_spec(g), gap);
    lemma_zip_single(scaled, T::count_spec(2).over(T::count_spec(a.shape[0])));
    assert(scaled.data[k] == g.times(gap.data[k]));
}

/// What is left of one once the elements of an array are taken from it.
pub proof fn lemma_complement<T: Scalar>(y: Array<T>)
    requires
        y.wf(),
    ensures
        complement_spec(y).wf(),
        complement_spec(y).shape == y.shape,
        forall|k: int|
            0 <= k < y.data.len() ==> #[trigger] complement_spec(y).data[k]
                == T::one_spec().minus(y.data[k]),
{
    lemma_zip_single(y, T::one_spec());
}

proof fn lemma_one_per_row<T: Scalar>(labels: Seq<usize>, columns: int, i: int, j: int, n: int)
    requires
        0 <= i < labels.len(),
        0 <= j < columns,
        0 <= n <= labels.len(),
        selects(labels, columns as nat),
        labels.len() * columns <= usize::MAX,
    ensures
        ({
            let ones = Seq::new(labels.len(), |r: int| T::one_spec());
            sum_onto(ones, row_map(labels, columns as nat), i * columns + j, n) == if i < n
                && labels[i] == j {
                T::zero_spec().plus(T::one_spec())
            } else {
                T::zero_spec()
            }
        }),
    decreases n,
{
    if n > 0 {
        lemma_one_per_row::<T>(labels, columns, i, j, n - 1);
        let r = n - 1;
        let l = labels[r] as int;
        assert(labels[r] < columns);
        assert(0 <= r * columns && r * columns + l < labels.len() * columns) by (nonlinear_arith)
            requires
                0 <= r < labels.len(),
                0 <= l < columns,
        ;
        assert(r * columns + l == i * columns + j <==> r == i && l == j) by (nonlinear_arith)
            requires
                0 <= l < columns,
                0 <= j < columns,
        ;
    }
}

/// The gradient of the cross entropy at row `i` and column `j` is the probability there,
/// less one where `j` is the label of the row, times the gradient over the number of rows.
pub proof fn cross_entropy_pulls_towards_the_labels<R: Ring>(
    p: Array<R>,
    labels: Seq<usize>,
    g: R,
    i: int,
    j: int,
)
    requires
        p.wf(),
        p.shape.len() == 2,
        labels.len() == p.shape[0],
        selects(labels, p.shape[1] as nat),
        0 <= i < p.shape[0],
        0 <= j < p.shape[1],
    ensures
        entry(cross_entropy_gradient(p, labels, scalar_spec(g)), i, j) == entry(p, i, j).minus(
            if labels[i] == j {
                R::one_spec()
            } else {
                R::zero_spec()
            },
        ).times(g.times(R::one_spec().over(R::count_spec(p.shape[0])))),
{
    let c = p.shape[1] as int;
    let k = i * c + j;
    let share = R::one_spec().over(R::count_spec(p.shape[0]));
    let hot = crate::functions::loss::one_hot_spec::<R>(labels, p.shape[1]);
    assert(p.shape =~= seq![p.shape[0], p.shape[1]]);
    lemma_volume2(p.shape[0], p.shape[1]);
    assert(0 <= k < p.shape[0] * c) by (nonlinear_arith)
        requires
            k == i * c + j,
            0 <= i < p.shape[0],
            0 <= j < c,
    ;
    crate::utils::array::lemma_volume1(p.shape[0]);
    let full = crate::tensor::full_spec(seq![labels.len() as usize], R::one_spec());
    assert(full.data =~= Seq::new(labels.len(), |r: int| R::one_spec()));
    lemma_one_per_row::<R>(labels, c, i, j, labels.len() as int);
    R::plus_commutes(R::zero_spec(), R::one_spec());
    R::zero_is_neutral(R::one_spec());
    assert(hot.shape =~= p.shape);
    lemma_zip(Arithmetic::Minus, p, hot);
    let gap = zip_spec(Arithmetic::Minus, p, hot);
    let (a, b) = (scalar_spec(g), scalar_spec(share));
    lemma_zip(Arithmetic::Times, a, b);
    let scale = zip_spec(Arithmetic::Times, a, b);
    assert(scale.data[0] == g.times(share));
    assert(scale =~= scalar_spec(g.times(share)));
    lemma_zip_single(gap, g.times(share));
    assert(gap.data[k] == p.data[k].minus(hot.data[k]));
}

/// The gradient of the normalised exponential takes from every weighed gradient its share of
/// those of its line.
pub proof fn softmax_weighs_gradients_along_a_line<T: Scalar>(
    y: Array<T>,
    d: Array<T>,
    axis: isize,
    idx: Seq<int>,
)
    requires
        y.wf(),
        d.wf(),
        d.shape == y.shape,
        y.shape.len() <= usize::MAX,
        0 <= named_axis(axis, y.shape.len()) < y.shape.len(),
        in_bounds(y.shape, idx),
    ensures
        softmax_gradient(y, d, axis).shape == y.shape,
        is_softmax_gradient(
            softmax_gradient(y, d, axis).at(idx),
            y,
            d,
            named_axis(axis, y.shape.len()),
            idx,
        ),
{
    let s = y.shape;
    let a = named_axis(axis, s.len());
    let cut = s.update(a, 1usize);
    let to = idx.update(a, 0);
    lemma_zip(Arithmetic::Times, y, d);
    let weighted = zip_spec(Arithmetic::Times, y, d);
    let sums = sum_spec(weighted, Some(seq![axis]), true);
    a_sum_over_an_axis_adds_up_lines(weighted, axis, true, idx);
    assert(0 <= idx[a] < s[a]);
    assert forall|i: int| 0 <= i < s.len() implies 0 <= #[trigger] idx[i] < s[i] by {}
    lemma_one_axis::<T>(s, a);
    lemma_joint_absorbs(s, cut);
    assert(sums.wf());
    arithmetic_goes_place_by_place(y, sums, idx, idx, to);
    let spread = zip_spec(Arithmetic::Times, y, sums);
    lemma_zip(Arithmetic::Minus, weighted, spread);
    lemma_offset_bound(s, idx);
    let f = |j: int| on_line(weighted, idx, a, j);
    let h = |j: int| on_line(y, idx, a, j).times(on_line(d, idx, a, j));
    assert forall|j: int| 0 <= j < s[a] implies #[trigger] f(j) == h(j) by {
        lemma_moved(s, idx, a, j);
        lemma_offset_bound(s, idx.update(a, j));
    }
    crate::laws::images::lemma_same_terms(s[a] as int, f, h);
    assert(f(0) == h(0));
}

} // verus!
