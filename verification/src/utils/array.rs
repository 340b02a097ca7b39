//! Sums that keep their axis, and the selection of one column per row.
use crate::engine::elementwise::{
    lemma_joint_absorbs, lemma_joint_with_itself, zip_map, zip_spec, Arithmetic,
};
use crate::functions::basic_math::{image, is_function, map_array, map_spec};
use crate::index::{in_bounds, volume};
use crate::laws::axes::{
    line_greatest, line_sum, line_total, logsumexp_adds_back_the_greatest, maxima_run_along_lines,
    on_line, sums_run_along_lines,
};
use crate::remap::{
    dot, gather, gather_through, maps_into, scatter, scatter_is_adjoint_to_gather, scatter_through,
};
use crate::scalar::{Ring, Scalar};
use crate::tensor::{Array, Tensor};
use crate::utils::conv::lemma_volume2;
use crate::utils::shape::{
    broadcast_index_map, broadcast_map, broadcasts_to, lemma_broadcast_map, sum_to, sum_to_spec,
};
use vstd::prelude::*;

verus! {

/// The sum of an array over one axis, which is kept with length 1.
pub open spec fn sum_keepdims_spec<T: Scalar>(x: Array<T>, axis: usize) -> Array<T> {
    sum_to_spec(x, x.shape.update(axis as int, 1))
}

pub fn sum_keepdims<T: Scalar>(x: &Tensor<T>, axis: usize) -> (r: Tensor<T>)
    requires
        x.wf(),
        axis < x@.shape.len(),
        volume(x@.shape.update(axis as int, 1)) <= usize::MAX,
    ensures
        r.wf(),
        r@ == sum_keepdims_spec(x@, axis),
        forall|idx: Seq<int>|
            in_bounds(x@.shape, idx) ==> r@.at(#[trigger] idx.update(axis as int, 0)) == line_sum(
                x@.shape[axis as int] as int,
                |j: int| on_line(x@, idx, axis as int, j),
            ),
{
    proof {
        assert forall|idx: Seq<int>| in_bounds(x@.shape, idx) implies sum_keepdims_spec(
            x@,
            axis,
        ).at(#[trigger] idx.update(axis as int, 0)) == line_sum(
            x@.shape[axis as int] as int,
            |j: int| on_line(x@, idx, axis as int, j),
        ) by {
            sums_run_along_lines(x@, axis, idx);
        }
    }
    let mut shape: Vec<usize> = crate::tensor::copy_of(x.shape.as_slice());
    shape.set(axis, 1);
    sum_to(x, shape.as_slice())
}

/// The larger of two elements; the first where neither exceeds the other.
pub open spec fn greater<T: Scalar>(a: T, b: T) -> T {
    if b.exceeds(a) {
        b
    } else {
        a
    }
}

/// The greatest of `lowest` and of those of the first `n` elements that the map sends
/// to place `k`.
pub open spec fn max_onto<T: Scalar>(
    map: Seq<Option<usize>>,
    data: Seq<T>,
    lowest: T,
    k: int,
    n: int,
) -> T
    decreases n,
{
    if n <= 0 {
        lowest
    } else if map[n - 1] == Some(k as usize) {
        greater(max_onto(map, data, lowest, k, n - 1), data[n - 1])
    } else {
        max_onto(map, data, lowest, k, n - 1)
    }
}

/// The greatest elements of an array along one axis, which is kept with length 1,
/// looked for from `lowest` up.
pub open spec fn max_keepdims_spec<T: Scalar>(x: Array<T>, axis: usize, lowest: T) -> Array<T> {
    let shape = x.shape.update(axis as int, 1);
    Array {
        shape,
        data: Seq::new(
            volume(shape),
            |k: int|
                max_onto(
                    broadcast_map(shape, x.shape),
                    x.data,
                    lowest,
                    k,
                    x.data.len() as int,
                ),
        ),
    }
}

/// A shape with one axis cut down to 1 spreads over the whole shape.
pub proof fn lemma_one_axis<T: Scalar>(s: Seq<usize>, axis: int)
    requires
        0 <= axis < s.len(),
        s[axis] > 0,
    ensures
        broadcasts_to(s.update(axis, 1), s),
        volume(s.update(axis, 1)) <= volume(s),
{
    let cut = s.update(axis, 1usize);
    assert(broadcasts_to(cut, s));
    lemma_cut_volume(s, axis);
}

proof fn lemma_cut_volume(s: Seq<usize>, axis: int)
    requires
        0 <= axis < s.len(),
        s[axis] > 0,
    ensures
        volume(s.update(axis, 1)) <= volume(s),
    decreases s.len(),
{
    let cut = s.update(axis, 1usize);
    let last = s.len() - 1;
    if axis == last {
        assert(cut.drop_last() =~= s.drop_last());
        let v = volume(s.drop_last());
        let l = s.last() as nat;
        assert(cut.last() == 1);
        assert(v * 1 <= v * l) by (nonlinear_arith)
            requires
                l >= 1,
        ;
    } else {
        lemma_cut_volume(s.drop_last(), axis);
        assert(cut.drop_last() =~= s.drop_last().update(axis, 1usize));
        let a = volume(cut.drop_last());
        let b = volume(s.drop_last());
        let l = s.last() as nat;
        assert(cut.last() == s.last());
        assert(a * l <= b * l) by (nonlinear_arith)
            requires
                a <= b,
        ;
    }
}

/// The greatest elements along one axis, which is kept with length 1.
pub fn max_keepdims<T: Scalar>(x: &Tensor<T>, axis: usize, lowest: T) -> (r: Tensor<T>)
    requires
        x.wf(),
        axis < x@.shape.len(),
        x@.shape[axis as int] > 0,
    ensures
        r.wf(),
        r@ == max_keepdims_spec(x@, axis, lowest),
        forall|idx: Seq<int>|
            in_bounds(x@.shape, idx) ==> r@.at(#[trigger] idx.update(axis as int, 0))
                == line_greatest(x@, idx, axis as int, lowest),
{
    proof {
        assert forall|idx: Seq<int>| in_bounds(x@.shape, idx) implies max_keepdims_spec(
            x@,
            axis,
            lowest,
        ).at(#[trigger] idx.update(axis as int, 0)) == line_greatest(
            x@,
            idx,
            axis as int,
            lowest,
        ) by {
            maxima_run_along_lines(x@, axis, lowest, idx);
        }
    }
    let mut shape: Vec<usize> = crate::tensor::copy_of(x.shape.as_slice());
    shape.set(axis, 1);
    proof {
        lemma_one_axis::<T>(x@.shape, axis as int);
        assert(shape@ =~= x@.shape.update(axis as int, 1));
        lemma_broadcast_map(shape@, x@.shape);
    }
    let map = broadcast_index_map(shape.as_slice(), x.shape.as_slice());
    let mut best: Tensor<T> = Tensor::full(shape.as_slice(), lowest);
    let ghost size = volume(shape@) as int;
    let n: usize = x.data.len();
    let mut i: usize = 0;
    while i < n
        invariant
            i <= n,
            n == x.data@.len(),
            map@.len() == n,
            maps_into(map@, size as nat),
            best@.shape == shape@,
            best@.data.len() == size,
            size <= usize::MAX,
            forall|k: int|
                0 <= k < size ==> #[trigger] best@.data[k] == max_onto(
                    map@,
                    x@.data,
                    lowest,
                    k,
                    i as int,
                ),
        decreases n - i,
    {
        let ghost was = best@.data;
        if let Some(k) = map[i] {
            assert(map@[i as int] == Some(k));
            let a: T = x.data[i];
            let b: T = best.data[k];
            if a.gt(b) {
                best.data.set(k, a);
            }
        }
        proof {
            assert forall|k: int| 0 <= k < size implies #[trigger] best@.data[k] == max_onto(
                map@,
                x@.data,
                lowest,
                k,
                i + 1,
            ) by {
                assert(was[k] == max_onto(map@, x@.data, lowest, k, i as int));
            }
        }
        i = i + 1;
    }
    assert(best@ =~= max_keepdims_spec(x@, axis, lowest));
    best
}

/// The logarithm of the sum of the exponentials along one axis, which is kept: the
/// greatest element is taken out before and added again behind, so that no exponential
/// grows too large.
pub open spec fn logsumexp_spec<T: Scalar, E: Fn(T) -> T, L: Fn(T) -> T>(
    x: Array<T>,
    axis: usize,
    lowest: T,
    exp: E,
    ln: L,
) -> Array<T> {
    let m = max_keepdims_spec(x, axis, lowest);
    let y = map_spec(zip_spec(Arithmetic::Minus, x, m), exp);
    zip_spec(Arithmetic::Plus, m, map_spec(sum_keepdims_spec(y, axis), ln))
}

/// The logarithm of the sum of the exponentials along one axis, which is kept.
pub fn logsumexp<T: Scalar, E: Fn(T) -> T, L: Fn(T) -> T>(
    x: &Tensor<T>,
    axis: usize,
    lowest: T,
    exp: &E,
    ln: &L,
) -> (r: Tensor<T>)
    requires
        x.wf(),
        axis < x@.shape.len(),
        x@.shape[axis as int] > 0,
        is_function(*exp),
        is_function(*ln),
    ensures
        r.wf(),
        r@ == logsumexp_spec(x@, axis, lowest, *exp, *ln),
        r@.shape == x@.shape.update(axis as int, 1),
        forall|idx: Seq<int>|
            in_bounds(x@.shape, idx) ==> r@.at(#[trigger] idx.update(axis as int, 0))
                == line_greatest(x@, idx, axis as int, lowest).plus(
                image(*ln, line_total(x@, idx, axis as int, lowest, *exp)),
            ),
{
    proof {
        assert forall|idx: Seq<int>| in_bounds(x@.shape, idx) implies logsumexp_spec(
            x@,
            axis,
            lowest,
            *exp,
            *ln,
        ).at(#[trigger] idx.update(axis as int, 0)) == line_greatest(
            x@,
            idx,
            axis as int,
            lowest,
        ).plus(image(*ln, line_total(x@, idx, axis as int, lowest, *exp))) by {
            logsumexp_adds_back_the_greatest(x@, axis, lowest, *exp, *ln, idx);
        }
        lemma_one_axis::<T>(x@.shape, axis as int);
        lemma_joint_absorbs(x@.shape, x@.shape.update(axis as int, 1));
        lemma_joint_with_itself(x@.shape.update(axis as int, 1));
    }
    let m = max_keepdims(x, axis, lowest);
    let shifted = zip_map(Arithmetic::Minus, x, &m);
    let y = map_array(&shifted, exp);
    let s = sum_keepdims(&y, axis);
    let logs = map_array(&s, ln);
    zip_map(Arithmetic::Plus, &m, &logs)
}

/// The position of the selected element of each row of a matrix with `columns`
/// columns.
pub open spec fn row_map(indices: Seq<usize>, columns: nat) -> Seq<Option<usize>> {
    Seq::new(indices.len(), |r: int| Some((r * columns + indices[r]) as usize))
}

/// Whether every selected column exists.
pub open spec fn selects(indices: Seq<usize>, columns: nat) -> bool {
    forall|r: int| 0 <= r < indices.len() ==> #[trigger] indices[r] < columns
}

proof fn lemma_row_map(indices: Seq<usize>, columns: nat)
    requires
        selects(indices, columns),
        indices.len() * columns <= usize::MAX,
    ensures
        maps_into(row_map(indices, columns), indices.len() * columns),
        forall|r: int|
            0 <= r < indices.len() ==> 0 <= r * columns && r * columns + #[trigger] indices[r]
                < indices.len() * columns,
{
    let n = indices.len();
    assert forall|r: int| 0 <= r < n implies 0 <= r * columns && r * columns
        + #[trigger] indices[r] < n * columns by {
        let i = indices[r] as int;
        let c = columns as int;
        assert(0 <= r * c && r * c + i < n * c) by (nonlinear_arith)
            requires
                0 <= r < n,
                0 <= i < c,
        ;
    }
    assert forall|r: int| 0 <= r < row_map(indices, columns).len() implies (#[trigger] row_map(
        indices,
        columns,
    )[r] matches Some(j) ==> (j as nat) < n * columns) by {
        assert(r * columns + indices[r] < n * columns);
    }
}

fn row_index_map(indices: &[usize], columns: usize) -> (map: Vec<Option<usize>>)
    requires
        selects(indices@, columns as nat),
        indices@.len() * columns <= usize::MAX,
    ensures
        map@ == row_map(indices@, columns as nat),
        maps_into(map@, indices@.len() * columns as nat),
{
    let n: usize = indices.len();
    let ghost want = row_map(indices@, columns as nat);
    proof {
        lemma_row_map(indices@, columns as nat);
    }
    let mut map: Vec<Option<usize>> = Vec::new();
    let mut r: usize = 0;
    while r < n
        invariant
            r <= n,
            n == indices@.len(),
            indices@.len() * columns <= usize::MAX,
            want == row_map(indices@, columns as nat),
            map@ == want.take(r as int),
            forall|i: int|
                0 <= i < indices@.len() ==> 0 <= i * columns && i * columns
                    + #[trigger] indices@[i] < indices@.len() * columns,
        decreases n - r,
    {
        assert(r * columns + indices@[r as int] < indices@.len() * columns);
        map.push(Some(r * columns + indices[r]));
        proof {
            assert(want.take(r + 1) =~= want.take(r as int).push(want[r as int]));
        }
        r = r + 1;
    }
    proof {
        assert(want.take(n as int) =~= want);
    }
    map
}

/// One element per row: the one in the column that `indices` lists for it.
pub open spec fn gather_rows_spec<T: Scalar>(x: Array<T>, indices: Seq<usize>) -> Array<T> {
    Array { shape: seq![x.shape[0]], data: gather(x.data, row_map(indices, x.shape[1] as nat)) }
}

/// A matrix of zeros to which each value has been added, in its row, at the column that
/// `indices` lists for it.
pub open spec fn scatter_rows_spec<T: Scalar>(
    indices: Seq<usize>,
    values: Array<T>,
    columns: usize,
) -> Array<T> {
    Array {
        shape: seq![indices.len() as usize, columns],
        data: scatter(
            values.data,
            row_map(indices, columns as nat),
            indices.len() * columns as nat,
        ),
    }
}

pub proof fn lemma_volume1(n: usize)
    ensures
        volume(seq![n]) == n,
{
    let s = seq![n];
    assert(s.drop_last() =~= Seq::<usize>::empty());
    assert(1 * (n as nat) == n) by (nonlinear_arith);
    reveal_with_fuel(volume, 2);
}

pub fn gather_rows<T: Scalar>(x: &Tensor<T>, indices: &[usize]) -> (r: Tensor<T>)
    requires
        x.wf(),
        x@.shape.len() == 2,
        indices@.len() == x@.shape[0],
        selects(indices@, x@.shape[1] as nat),
    ensures
        r.wf(),
        r@ == gather_rows_spec(x@, indices@),
{
    let rows: usize = x.shape[0];
    let columns: usize = x.shape[1];
    proof {
        assert(x@.shape =~= seq![rows, columns]);
        lemma_volume2(rows, columns);
        lemma_volume1(rows);
    }
    let map = row_index_map(indices, columns);
    let data = gather_through(&x.data, &map);
    let mut shape: Vec<usize> = Vec::new();
    shape.push(rows);
    proof {
        assert(shape@ =~= seq![rows]);
    }
    Tensor { shape, data }
}

pub fn scatter_add_rows<T: Scalar>(indices: &[usize], values: &Tensor<T>, columns: usize) -> (r:
    Tensor<T>)
    requires
        values.wf(),
        values@.shape.len() == 1,
        values@.data.len() == indices@.len(),
        selects(indices@, columns as nat),
        indices@.len() * columns <= usize::MAX,
    ensures
        r.wf(),
        r@ == scatter_rows_spec(indices@, values@, columns),
{
    let rows: usize = indices.len();
    let map = row_index_map(indices, columns);
    proof {
        let (a, b) = (rows as int, columns as int);
        assert(0 <= a * b) by (nonlinear_arith)
            requires
                0 <= a,
                0 <= b,
        ;
        lemma_volume2(rows, columns);
    }
    let data = scatter_through(&values.data, &map, rows * columns);
    let mut shape: Vec<usize> = Vec::new();
    shape.push(rows);
    shape.push(columns);
    proof {
        assert(shape@ =~= seq![rows, columns]);
    }
    Tensor { shape, data }
}

/// Spreading values over rows is the adjoint of selecting one element per row.
pub proof fn scattering_rows_is_adjoint_to_gathering<R: Ring>(
    x: Array<R>,
    values: Array<R>,
    indices: Seq<usize>,
)
    requires
        x.wf(),
        values.wf(),
        x.shape.len() == 2,
        x.shape[0] == indices.len(),
        values.shape == seq![x.shape[0]],
        selects(indices, x.shape[1] as nat),
    ensures
        dot(
            scatter_rows_spec(indices, values, x.shape[1]).data,
            x.data,
            x.data.len() as int,
        ) == dot(
            values.data,
            gather_rows_spec(x, indices).data,
            values.data.len() as int,
        ),
{
    assert(x.shape =~= seq![x.shape[0], x.shape[1]]);
    lemma_volume2(x.shape[0], x.shape[1]);
    lemma_volume1(x.shape[0]);
    lemma_row_map(indices, x.shape[1] as nat);
    scatter_is_adjoint_to_gather(x.data, values.data, row_map(indices, x.shape[1] as nat));
}

} // verus!
