//! What the datasets hold, and what batches are made of.
use crate::data::dataloader::{epoch, holds_inputs, holds_labels, labelled, picked};
use crate::data::mnist::{images_are_cut_along_the_first_axis, Digits};
use crate::data::spiral::{arm_points, arms, coordinate, rows_in_order};
use crate::data::{laid_out, stacked, Dataset};
use crate::functions::basic_math::image;
use crate::laws::elements::entry;
use crate::scalar::Scalar;
use crate::tensor::{is_permutation, Array};
use vstd::prelude::*;

verus! {

// ---------------------------------------------------------------------------
// the spiral
// ---------------------------------------------------------------------------
/// Where point `j` of arm `arm` lies: it is `j` hundredths out, and its angle is four
/// radians for every arm before, four more over the length of the arm, and a fifth of its
/// normal draw. The sine comes first.
pub open spec fn lies_on_its_arm<T: Scalar, S: Fn(T) -> T, C: Fn(T) -> T>(
    x: T,
    y: T,
    arm: int,
    j: int,
    draw: T,
    sin: S,
    cos: C,
) -> bool {
    let out = T::count_spec(j as usize).over(T::count_spec(100));
    let turned = T::count_spec(arm as usize).times(T::count_spec(4)).plus(
        T::count_spec(4).times(out),
    );
    let angle = turned.plus(draw.times(T::one_spec().over(T::count_spec(5))));
    x == out.times(image(sin, angle)) && y == out.times(image(cos, angle))
}

/// However the points are shuffled, each lies on its arm and carries the number of it.
pub proof fn points_lie_on_their_arms<T: Scalar, S: Fn(T) -> T, C: Fn(T) -> T>(
    noise: Seq<T>,
    sin: S,
    cos: C,
    order: Seq<usize>,
    i: int,
    arm: int,
    j: int,
)
    requires
        is_permutation(order, 300),
        0 <= i < 300,
        0 <= j < 100,
        order[i] == 100 * arm + j,
    ensures
        0 <= arm < 3,
        arms(order)[i] == arm,
        ({
            let points = rows_in_order(arm_points(noise, sin, cos), order);
            lies_on_its_arm(
                entry(points, i, 0),
                entry(points, i, 1),
                arm,
                j,
                noise[100 * arm + j],
                sin,
                cos,
            )
        }),
{
    let k = order[i] as int;
    assert(order[i] < 300);
    assert(k / 100 == arm && k % 100 == j);
    let points = arm_points(noise, sin, cos);
    let all = rows_in_order(points, order);
    assert((2 * i) / 2 == i && (2 * i + 1) / 2 == i);
    assert((2 * k) / 2 == k && (2 * k + 1) / 2 == k);
    assert((2 * k) % 2 == 0 && (2 * k + 1) % 2 == 1);
    assert(all.data[2 * i] == points.data[k * 2]);
    assert(all.data[2 * i + 1] == points.data[k * 2 + 1]);
    let columns = all.shape[1] as int;
    assert(i * columns == 2 * i) by (nonlinear_arith)
        requires
            columns == 2,
    ;
    assert(entry(all, i, 0) == all.data[2 * i] && entry(all, i, 1) == all.data[2 * i + 1]);
    assert(points.data[k * 2] == coordinate(noise, sin, cos, 2 * k));
    assert(points.data[k * 2 + 1] == coordinate(noise, sin, cos, 2 * k + 1));
}

// ---------------------------------------------------------------------------
// the digits
// ---------------------------------------------------------------------------
/// Pixel `[r, c]` of an image is the byte `[i, r, c]` of the archive: as it is in the raw
/// image, and over 255 in the flattened one.
pub proof fn pixels_are_bytes_over_the_largest<T: Scalar>(d: Digits, i: int, r: int, c: int)
    requires
        d.wf(),
        0 <= i < d.count(),
        0 <= r < d.images.shape[1],
        0 <= c < d.images.shape[2],
    ensures
        ({
            let byte = T::count_spec(d.images.at(seq![i, r, c]) as usize);
            let k = r * d.images.shape[2] + c;
            &&& d.raw::<T>(i).shape == seq![1usize, d.images.shape[1], d.images.shape[2]]
            &&& d.raw::<T>(i).data[k] == byte
            &&& d.flattened::<T>(i).shape == seq![
                (d.images.shape[1] * d.images.shape[2]) as usize,
            ]
            &&& d.flattened::<T>(i).data[k] == byte.over(T::count_spec(255))
        }),
{
    images_are_cut_along_the_first_axis(d, i, r, c);
}

// ---------------------------------------------------------------------------
// batches
// ---------------------------------------------------------------------------
/// Without shuffling the examples come in the order in which the dataset has them, and
/// nothing is drawn.
pub proof fn an_unshuffled_epoch_counts_up(n: nat, state: u64, i: int)
    requires
        0 <= i < n <= usize::MAX,
    ensures
        epoch(false, n, state).0.len() == n,
        epoch(false, n, state).0[i] == i,
        epoch(false, n, state).1 == state,
{
}

/// Row `j` of stacked arrays is the array that was put there.
proof fn lemma_laid_out<T: Scalar>(rows: Seq<Array<T>>, size: int, j: int, e: int)
    requires
        0 <= j < rows.len(),
        0 <= e < size,
        forall|i: int| 0 <= i < rows.len() ==> (#[trigger] rows[i]).data.len() == size,
    ensures
        laid_out(rows).len() == rows.len() * size,
        0 <= j * size + e < laid_out(rows).len(),
        laid_out(rows)[j * size + e] == rows[j].data[e],
    decreases rows.len(),
{
    let n = rows.len() as int;
    let less = rows.drop_last();
    assert(rows[n - 1].data.len() == size);
    assert((n - 1) * size + size == n * size) by (nonlinear_arith);
    assert(0 <= j * size && j * size + e < n * size) by (nonlinear_arith)
        requires
            0 <= j < n,
            0 <= e < size,
    ;
    if less.len() == 0 {
        assert(laid_out(less) =~= Seq::<T>::empty());
        assert(laid_out(rows) =~= rows[n - 1].data);
        assert(n * size == size && j * size == 0) by (nonlinear_arith)
            requires
                n == 1,
                j == 0,
        ;
    } else if j == n - 1 {
        lemma_laid_out(less, size, 0, e);
    } else {
        lemma_laid_out(less, size, j, e);
    }
}

/// Batch `k` of an epoch is made of the examples from place `k * b` of the order on. Its
/// row `j` is the input of the example in place `k * b + j`, and so is its label.
pub proof fn batches_follow_the_order<T: Scalar, D: Dataset<T>>(
    d: &D,
    order: Seq<usize>,
    b: int,
    k: int,
    x: Array<T>,
    t: Seq<usize>,
    j: int,
    size: int,
) -> (row: Array<T>)
    requires
        b > 0,
        0 <= k,
        0 <= j < b,
        k * b + j < order.len(),
        holds_inputs(d, picked(order, b, k), x),
        holds_labels::<T, D>(d, picked(order, b, k), t),
        forall|i: int, a: Array<T>|
            0 <= i < order.len() && #[trigger] d.yields(order[i] as int, a) ==> a.data.len() == size,
    ensures
        d.yields(order[k * b + j] as int, row),
        x.shape[0] == picked(order, b, k).len() as usize,
        forall|e: int| 0 <= e < size ==> x.data[j * size + e] == #[trigger] row.data[e],
        labelled::<T, D>(d, picked(order, b, k), true) ==> d.labels(
            order[k * b + j] as int,
            Some(t[j]),
        ),
{
    let examples = picked(order, b, k);
    let rows = choose|rows: Seq<Array<T>>|
        {
            &&& rows.len() == examples.len()
            &&& forall|i: int|
                0 <= i < examples.len() ==> d.yields(examples[i] as int, #[trigger] rows[i])
            &&& x == #[trigger] stacked(rows)
        };
    assert(0 <= k * b) by (nonlinear_arith)
        requires
            0 <= k,
            b > 0,
    ;
    assert(examples[j] == order[k * b + j]);
    assert forall|i: int| 0 <= i < rows.len() implies (#[trigger] rows[i]).data.len() == size by {
        assert(examples[i] == order[k * b + i]);
        assert(d.yields(order[k * b + i] as int, rows[i]));
    }
    let row = rows[j];
    assert(d.yields(examples[j] as int, rows[j]));
    assert forall|e: int| 0 <= e < size implies x.data[j * size + e] == #[trigger] row.data[e] by {
        lemma_laid_out(rows, size, j, e);
    }
    if labelled::<T, D>(d, examples, true) {
        assert(d.labels(examples[j] as int, Some(t[j])));
    }
    row
}

} // verus!
