//! Sums, greatest elements and normalised exponentials along one axis.
use crate::engine::elementwise::{lemma_joint_absorbs, lemma_joint_with_itself, zip_spec, Arithmetic};
use crate::functions::activation::softmax_spec;
use crate::functions::basic_math::{image, map_spec};
use crate::functions::loss::{
    cross_entropy_spec, log_softmax_rows_spec, mean_squared_error_spec, squared_distance, total,
};
use crate::index::{
    in_bounds, lemma_offset_bound, lemma_unravel, lemma_unravel_offset, offset, unravel, volume,
};
use crate::laws::elements::{
    arithmetic_goes_element_by_element, arithmetic_goes_place_by_place, entry, sum_of,
};
use crate::remap::sum_onto;
use crate::scalar::Scalar;
use crate::tensor::Array;
use crate::utils::array::{
    gather_rows_spec, lemma_one_axis, logsumexp_spec, max_keepdims_spec, max_onto, row_map, selects,
    sum_keepdims_spec,
};
use crate::utils::shape::{
    aligned_axis, axis_summed, broadcast_map, broadcast_source, lemma_broadcast_map,
    lemma_seen_through, partly, seen_through, summed_down,
};
use vstd::prelude::*;

verus! {

// ---------------------------------------------------------------------------
// words
// ---------------------------------------------------------------------------
/// Element `j` of the line through the place `idx` along `axis`.
pub open spec fn on_line<T>(x: Array<T>, idx: Seq<int>, axis: int, j: int) -> T {
    x.at(idx.update(axis, j))
}

/// The greatest of `lowest` and of `term(0)` up to `term(n - 1)`: what exceeds the greatest
/// so far takes its place.
pub open spec fn greatest_of<T: Scalar>(n: int, lowest: T, term: spec_fn(int) -> T) -> T
    decreases n,
{
    if n <= 0 {
        lowest
    } else if term(n - 1).exceeds(greatest_of(n - 1, lowest, term)) {
        term(n - 1)
    } else {
        greatest_of(n - 1, lowest, term)
    }
}

/// The terms of a line, added up; a line of one is its only term.
pub open spec fn line_sum<T: Scalar>(n: int, term: spec_fn(int) -> T) -> T {
    if n == 1 {
        term(0)
    } else {
        sum_of(n, term)
    }
}

/// The greatest element on the line through `idx`.
pub open spec fn line_greatest<T: Scalar>(x: Array<T>, idx: Seq<int>, axis: int, lowest: T) -> T {
    greatest_of(x.shape[axis] as int, lowest, |j: int| on_line(x, idx, axis, j))
}

/// The exponentials of what the elements of the line through `idx` have above the greatest
/// of them, added up.
pub open spec fn line_total<T: Scalar, E: Fn(T) -> T>(
    x: Array<T>,
    idx: Seq<int>,
    axis: int,
    lowest: T,
    exp: E,
) -> T {
    let m = line_greatest(x, idx, axis, lowest);
    line_sum(
        x.shape[axis] as int,
        |j: int| image(exp, on_line(x, idx, axis, j).minus(m)),
    )
}

/// The logarithm of the share that an element of a matrix has of its row.
pub open spec fn log_share<T: Scalar, E: Fn(T) -> T, L: Fn(T) -> T>(
    x: Array<T>,
    place: Seq<int>,
    lowest: T,
    exp: E,
    ln: L,
) -> T {
    x.at(place).minus(
        line_greatest(x, place, 1, lowest).plus(image(ln, line_total(x, place, 1, lowest, exp))),
    )
}

// ---------------------------------------------------------------------------
// lines
// ---------------------------------------------------------------------------
/// Going along an axis is going forward.
proof fn lemma_forward(s: Seq<usize>, idx: Seq<int>, axis: int, a: int, b: int)
    requires
        in_bounds(s, idx),
        0 <= axis < s.len(),
        0 <= a < b < s[axis],
    ensures
        offset(s, idx.update(axis, a)) < offset(s, idx.update(axis, b)),
    decreases s.len(),
{
    let t = s.drop_last();
    let jdx = idx.drop_last();
    let (ia, ib) = (idx.update(axis, a), idx.update(axis, b));
    if axis == s.len() - 1 {
        assert(ia.drop_last() =~= jdx && ib.drop_last() =~= jdx);
    } else {
        assert(ia.drop_last() =~= jdx.update(axis, a));
        assert(ib.drop_last() =~= jdx.update(axis, b));
        assert(in_bounds(t, jdx)) by {
            assert forall|i: int| 0 <= i < t.len() implies 0 <= #[trigger] jdx[i] < t[i] by {
                assert(0 <= idx[i] < s[i]);
            }
        }
        lemma_forward(t, jdx, axis, a, b);
        let (p, q) = (offset(t, jdx.update(axis, a)), offset(t, jdx.update(axis, b)));
        let l = s.last() as int;
        assert(0 <= idx[s.len() - 1] < s[s.len() - 1]);
        assert(p * l < q * l) by (nonlinear_arith)
            requires
                p < q,
                l > 0,
        ;
    }
}

/// A place that differs from one within bounds along one axis only.
pub proof fn lemma_moved(s: Seq<usize>, idx: Seq<int>, axis: int, j: int)
    requires
        in_bounds(s, idx),
        0 <= axis < s.len(),
        0 <= j < s[axis],
    ensures
        in_bounds(s, idx.update(axis, j)),
{
    let to = idx.update(axis, j);
    assert forall|i: int| 0 <= i < s.len() implies 0 <= #[trigger] to[i] < s[i] by {
        assert(0 <= idx[i] < s[i]);
    }
}

/// What the cut shape sees of a place is the line that the place lies on.
proof fn lemma_on_line(s: Seq<usize>, axis: int, idx: Seq<int>, q: int)
    requires
        0 <= axis < s.len(),
        s[axis] > 0,
        in_bounds(s, idx),
        0 <= q < volume(s),
    ensures
        ({
            let cut = s.update(axis, 1usize);
            let u = unravel(s, q);
            &&& 0 <= u[axis] < s[axis]
            &&& broadcast_source(cut, s, q) == offset(cut, idx.update(axis, 0)) <==> q == offset(
                s,
                idx.update(axis, u[axis]),
            )
        }),
{
    let cut = s.update(axis, 1usize);
    lemma_one_axis::<i64>(s, axis);
    lemma_unravel(s, q);
    let u = unravel(s, q);
    assert(0 <= u[axis] < s[axis]);
    let (su, si) = (seen_through(u, cut), idx.update(axis, 0));
    lemma_seen_through(cut, s, u);
    lemma_seen_through(cut, s, idx);
    assert(seen_through(idx, cut) =~= si) by {
        assert forall|i: int| 0 <= i < s.len() implies #[trigger] seen_through(idx, cut)[i]
            == si[i] by {
            assert(0 <= idx[i] < s[i]);
        }
    }
    lemma_unravel_offset(cut, su);
    lemma_unravel_offset(cut, si);
    let there = idx.update(axis, u[axis]);
    lemma_moved(s, idx, axis, u[axis]);
    if offset(cut, su) == offset(cut, si) {
        assert(su == si);
        assert forall|i: int| 0 <= i < s.len() implies #[trigger] there[i] == u[i] by {
            assert(0 <= idx[i] < s[i] && 0 <= u[i] < s[i]);
            assert(su[i] == si[i]);
        }
        assert(there =~= u);
    }
    if q == offset(s, there) {
        lemma_unravel_offset(s, there);
        assert(u == there);
        assert forall|i: int| 0 <= i < s.len() implies #[trigger] su[i] == si[i] by {
            assert(0 <= idx[i] < s[i] && u[i] == there[i]);
        }
        assert(su =~= si);
    }
}

/// Whether `place` lists, in ascending order, the places below `n` that a map ties to `k`.
spec fn lists(map: Seq<Option<usize>>, k: int, n: int, m: int, place: spec_fn(int) -> int) -> bool {
    &&& forall|j: int| 0 <= j < m ==> 0 <= #[trigger] place(j) < n
    &&& forall|i: int, j: int|
        0 <= i < j < m ==> #[trigger] place(i) < #[trigger] place(j)
    &&& forall|j: int| 0 <= j < m ==> map[#[trigger] place(j)] == Some(k as usize)
    &&& forall|q: int|
        0 <= q < n && #[trigger] map[q] == Some(k as usize) ==> exists|j: int|
            0 <= j < m && #[trigger] place(j) == q
}

proof fn lemma_lists_less(
    map: Seq<Option<usize>>,
    k: int,
    n: int,
    m: int,
    place: spec_fn(int) -> int,
)
    requires
        0 < n <= map.len(),
        0 <= m,
        lists(map, k, n, m, place),
    ensures
        map[n - 1] == Some(k as usize) ==> m > 0 && place(m - 1) == n - 1 && lists(
            map,
            k,
            n - 1,
            m - 1,
            place,
        ),
        map[n - 1] != Some(k as usize) ==> lists(map, k, n - 1, m, place),
{
    if map[n - 1] == Some(k as usize) {
        let j = choose|j: int| 0 <= j < m && #[trigger] place(j) == n - 1;
        if j < m - 1 {
            assert(place(j) < place(m - 1));
        }
        assert forall|i: int| 0 <= i < m - 1 implies 0 <= #[trigger] place(i) < n - 1 by {
            assert(place(i) < place(m - 1));
        }
        assert forall|q: int| 0 <= q < n - 1 && #[trigger] map[q] == Some(k as usize) implies exists|
            i: int,
        |
            0 <= i < m - 1 && #[trigger] place(i) == q by {
            let i = choose|i: int| 0 <= i < m && #[trigger] place(i) == q;
            assert(i != m - 1);
        }
    } else {
        assert forall|i: int| 0 <= i < m implies 0 <= #[trigger] place(i) < n - 1 by {
            assert(map[place(i)] == Some(k as usize));
        }
    }
}

proof fn lemma_sum_listed<T: Scalar>(
    y: Seq<T>,
    map: Seq<Option<usize>>,
    k: int,
    n: int,
    m: int,
    place: spec_fn(int) -> int,
    term: spec_fn(int) -> T,
)
    requires
        0 <= n <= map.len(),
        0 <= m,
        0 <= k <= usize::MAX,
        lists(map, k, n, m, place),
        forall|j: int| 0 <= j < m ==> #[trigger] term(j) == y[place(j)],
    ensures
        sum_onto(y, map, k, n) == sum_of(m, term),
    decreases n,
{
    if n > 0 {
        lemma_lists_less(map, k, n, m, place);
        if map[n - 1] == Some(k as usize) {
            lemma_sum_listed(y, map, k, n - 1, m - 1, place, term);
            assert(term(m - 1) == y[place(m - 1)]);
        } else {
            lemma_sum_listed(y, map, k, n - 1, m, place, term);
        }
    } else if m > 0 {
        assert(0 <= place(0) < n);
    }
}

proof fn lemma_max_listed<T: Scalar>(
    y: Seq<T>,
    map: Seq<Option<usize>>,
    lowest: T,
    k: int,
    n: int,
    m: int,
    place: spec_fn(int) -> int,
    term: spec_fn(int) -> T,
)
    requires
        0 <= n <= map.len(),
        0 <= m,
        lists(map, k, n, m, place),
        forall|j: int| 0 <= j < m ==> #[trigger] term(j) == y[place(j)],
    ensures
        max_onto(map, y, lowest, k, n) == greatest_of(m, lowest, term),
    decreases n,
{
    if n > 0 {
        lemma_lists_less(map, k, n, m, place);
        if map[n - 1] == Some(k as usize) {
            lemma_max_listed(y, map, lowest, k, n - 1, m - 1, place, term);
            assert(term(m - 1) == y[place(m - 1)]);
        } else {
            lemma_max_listed(y, map, lowest, k, n - 1, m, place, term);
        }
    } else if m > 0 {
        assert(0 <= place(0) < n);
    }
}

/// The places that are tied to one place of the cut shape are those of a line.
proof fn lemma_line_is_listed<T: Scalar>(x: Array<T>, axis: int, idx: Seq<int>)
    requires
        x.wf(),
        0 <= axis < x.shape.len(),
        x.shape[axis] > 0,
        in_bounds(x.shape, idx),
    ensures
        ({
            let cut = x.shape.update(axis, 1usize);
            let k = offset(cut, idx.update(axis, 0));
            &&& in_bounds(cut, idx.update(axis, 0))
            &&& 0 <= k < volume(cut) <= usize::MAX
            &&& broadcast_map(cut, x.shape).len() == x.data.len()
            &&& lists(
                broadcast_map(cut, x.shape),
                k,
                x.data.len() as int,
                x.shape[axis] as int,
                |j: int| offset(x.shape, idx.update(axis, j)),
            )
        }),
{
    let s = x.shape;
    let cut = s.update(axis, 1usize);
    let to = idx.update(axis, 0);
    let k = offset(cut, to);
    let map = broadcast_map(cut, s);
    let place = |j: int| offset(s, idx.update(axis, j));
    let m = s[axis] as int;
    lemma_one_axis::<T>(s, axis);
    lemma_broadcast_map(cut, s);
    assert(in_bounds(cut, to)) by {
        assert forall|i: int| 0 <= i < cut.len() implies 0 <= #[trigger] to[i] < cut[i] by {
            assert(0 <= idx[i] < s[i]);
        }
    }
    lemma_offset_bound(cut, to);
    assert forall|j: int| 0 <= j < m implies 0 <= #[trigger] place(j) < x.data.len() by {
        lemma_moved(s, idx, axis, j);
        lemma_offset_bound(s, idx.update(axis, j));
    }
    assert forall|i: int, j: int| 0 <= i < j < m implies #[trigger] place(i) < #[trigger] place(
        j,
    ) by {
        lemma_forward(s, idx, axis, i, j);
    }
    assert forall|j: int| 0 <= j < m implies map[#[trigger] place(j)] == Some(k as usize) by {
        let q = place(j);
        lemma_moved(s, idx, axis, j);
        lemma_offset_bound(s, idx.update(axis, j));
        lemma_unravel_offset(s, idx.update(axis, j));
        lemma_on_line(s, axis, idx, q);
    }
    assert forall|q: int| 0 <= q < x.data.len() && #[trigger] map[q] == Some(
        k as usize,
    ) implies exists|j: int| 0 <= j < m && #[trigger] place(j) == q by {
        lemma_on_line(s, axis, idx, q);
        assert(0 <= broadcast_source(cut, s, q) < volume(cut));
        let j = unravel(s, q)[axis];
        assert(place(j) == q);
    }
}

/// Summing down to a shape that is cut along one axis is one sum.
pub proof fn lemma_one_sum<T: Scalar>(x: Array<T>, axis: int, n: int)
    requires
        0 <= n <= x.shape.len(),
        0 <= axis < x.shape.len(),
    ensures
        ({
            let cut = x.shape.update(axis, 1usize);
            summed_down(x, cut, n) == if n <= axis {
                axis_summed(x, cut)
            } else {
                x
            }
        }),
    decreases x.shape.len() - n,
{
    reveal(summed_down);
    let cut = x.shape.update(axis, 1usize);
    if n < x.shape.len() {
        lemma_one_sum(x, axis, n + 1);
        assert forall|i: int| 0 <= i < x.shape.len() implies #[trigger] aligned_axis(
            cut,
            x.shape.len(),
            i,
        ) == cut[i] by {}
        if n > axis {
            assert(partly(x.shape, cut, n) =~= x.shape);
        } else {
            assert(partly(x.shape, cut, n) =~= cut);
        }
    }
}

// ---------------------------------------------------------------------------
// laws
// ---------------------------------------------------------------------------
/// A sum that keeps its axis holds, in the place of every line, the sum of it.
pub proof fn sums_run_along_lines<T: Scalar>(x: Array<T>, axis: usize, idx: Seq<int>)
    requires
        x.wf(),
        axis < x.shape.len(),
        in_bounds(x.shape, idx),
    ensures
        sum_keepdims_spec(x, axis).shape == x.shape.update(axis as int, 1),
        sum_keepdims_spec(x, axis).at(idx.update(axis as int, 0)) == line_sum(
            x.shape[axis as int] as int,
            |j: int| on_line(x, idx, axis as int, j),
        ),
{
    let a = axis as int;
    let s = x.shape;
    let cut = s.update(a, 1usize);
    assert(0 <= idx[a] < s[a]);
    lemma_offset_bound(s, idx);
    lemma_one_sum(x, a, 0);
    lemma_line_is_listed(x, a, idx);
    let to = idx.update(a, 0);
    let k = offset(cut, to);
    let term = |j: int| on_line(x, idx, a, j);
    if s[a] == 1 {
        assert(cut =~= s);
    } else {
        assert(cut[a] != s[a]);
        lemma_sum_listed(
            x.data,
            broadcast_map(cut, s),
            k,
            x.data.len() as int,
            s[a] as int,
            |j: int| offset(s, idx.update(a, j)),
            term,
        );
    }
}

/// A maximum that keeps its axis holds, in the place of every line, the greatest of it.
pub proof fn maxima_run_along_lines<T: Scalar>(x: Array<T>, axis: usize, lowest: T, idx: Seq<int>)
    requires
        x.wf(),
        axis < x.shape.len(),
        in_bounds(x.shape, idx),
    ensures
        max_keepdims_spec(x, axis, lowest).shape == x.shape.update(axis as int, 1),
        max_keepdims_spec(x, axis, lowest).at(idx.update(axis as int, 0)) == line_greatest(
            x,
            idx,
            axis as int,
            lowest,
        ),
{
    let a = axis as int;
    let s = x.shape;
    assert(0 <= idx[a] < s[a]);
    lemma_line_is_listed(x, a, idx);
    let cut = s.update(a, 1usize);
    lemma_max_listed(
        x.data,
        broadcast_map(cut, s),
        lowest,
        offset(cut, idx.update(a, 0)),
        x.data.len() as int,
        s[a] as int,
        |j: int| offset(s, idx.update(a, j)),
        |j: int| on_line(x, idx, a, j),
    );
}

/// What combining an array with one that is cut along an axis makes of a place.
proof fn lemma_with_cut<T: Scalar>(x: Array<T>, m: Array<T>, axis: int, idx: Seq<int>)
    requires
        x.wf(),
        m.wf(),
        0 <= axis < x.shape.len(),
        m.shape == x.shape.update(axis, 1),
        in_bounds(x.shape, idx),
    ensures
        zip_spec(Arithmetic::Minus, x, m).shape == x.shape,
        zip_spec(Arithmetic::Minus, x, m).wf(),
        zip_spec(Arithmetic::Minus, x, m).at(idx) == x.at(idx).minus(m.at(idx.update(axis, 0))),
        zip_spec(Arithmetic::Over, x, m).shape == x.shape,
        zip_spec(Arithmetic::Over, x, m).at(idx) == x.at(idx).over(m.at(idx.update(axis, 0))),
{
    let s = x.shape;
    assert(0 <= idx[axis] < s[axis]);
    lemma_one_axis::<T>(s, axis);
    lemma_joint_absorbs(s, m.shape);
    assert forall|i: int| 0 <= i < s.len() implies 0 <= #[trigger] idx[i] < s[i] by {}
    arithmetic_goes_place_by_place(x, m, idx, idx, idx.update(axis, 0));
}

/// What the exponentials of an array less its greatest elements add up to along a line.
proof fn lemma_line_total<T: Scalar, E: Fn(T) -> T>(
    x: Array<T>,
    axis: usize,
    lowest: T,
    exp: E,
    idx: Seq<int>,
)
    requires
        x.wf(),
        axis < x.shape.len(),
        in_bounds(x.shape, idx),
    ensures
        ({
            let m = max_keepdims_spec(x, axis, lowest);
            let y = map_spec(zip_spec(Arithmetic::Minus, x, m), exp);
            &&& m.wf()
            &&& y.wf()
            &&& y.shape == x.shape
            &&& sum_keepdims_spec(y, axis).wf()
            &&& m.shape == x.shape.update(axis as int, 1)
            &&& sum_keepdims_spec(y, axis).shape == m.shape
            &&& m.at(idx.update(axis as int, 0)) == line_greatest(x, idx, axis as int, lowest)
            &&& y.at(idx) == image(
                exp,
                x.at(idx).minus(line_greatest(x, idx, axis as int, lowest)),
            )
            &&& sum_keepdims_spec(y, axis).at(idx.update(axis as int, 0)) == line_total(
                x,
                idx,
                axis as int,
                lowest,
                exp,
            )
        }),
{
    let a = axis as int;
    let s = x.shape;
    let m = max_keepdims_spec(x, axis, lowest);
    assert(0 <= idx[a] < s[a]);
    lemma_one_axis::<T>(s, a);
    maxima_run_along_lines(x, axis, lowest, idx);
    let z = zip_spec(Arithmetic::Minus, x, m);
    lemma_with_cut(x, m, a, idx);
    let y = map_spec(z, exp);
    lemma_offset_bound(s, idx);
    assert(y.at(idx) == image(exp, z.at(idx)));
    sums_run_along_lines(y, axis, idx);
    lemma_one_sum(y, a, 0);
    assert(sum_keepdims_spec(y, axis).data.len() == volume(m.shape)) by {
        if s[a] == 1 {
            assert(s.update(a, 1usize) =~= s);
        }
    }
    let top = line_greatest(x, idx, a, lowest);
    let f = |j: int| on_line(y, idx, a, j);
    let g = |j: int| image(exp, on_line(x, idx, a, j).minus(top));
    assert forall|j: int| 0 <= j < s[a] implies #[trigger] f(j) == g(j) by {
        let there = idx.update(a, j);
        lemma_moved(s, idx, a, j);
        lemma_offset_bound(s, there);
        lemma_with_cut(x, m, a, there);
        assert(there.update(a, 0) =~= idx.update(a, 0));
        assert(y.at(there) == image(exp, z.at(there)));
    }
    crate::laws::images::lemma_same_terms(s[a] as int, f, g);
    assert(f(0) == g(0));
}

/// The normalised exponential of an element is its exponential over the sum of those of its
/// line, the greatest element of the line being taken from each before.
pub proof fn softmax_shares_out_a_line<T: Scalar, E: Fn(T) -> T>(
    x: Array<T>,
    axis: usize,
    lowest: T,
    exp: E,
    idx: Seq<int>,
)
    requires
        x.wf(),
        axis < x.shape.len(),
        in_bounds(x.shape, idx),
    ensures
        softmax_spec(x, axis, lowest, exp).shape == x.shape,
        softmax_spec(x, axis, lowest, exp).at(idx) == image(
            exp,
            x.at(idx).minus(line_greatest(x, idx, axis as int, lowest)),
        ).over(line_total(x, idx, axis as int, lowest, exp)),
{
    lemma_line_total(x, axis, lowest, exp, idx);
    let m = max_keepdims_spec(x, axis, lowest);
    let y = map_spec(zip_spec(Arithmetic::Minus, x, m), exp);
    lemma_with_cut(y, sum_keepdims_spec(y, axis), axis as int, idx);
}

/// The logarithm of a sum of exponentials is that of the line's total, plus the greatest
/// element that was taken out.
pub proof fn logsumexp_adds_back_the_greatest<
    T: Scalar,
    E: Fn(T) -> T,
    L: Fn(T) -> T,
>(x: Array<T>, axis: usize, lowest: T, exp: E, ln: L, idx: Seq<int>)
    requires
        x.wf(),
        axis < x.shape.len(),
        in_bounds(x.shape, idx),
    ensures
        logsumexp_spec(x, axis, lowest, exp, ln).wf(),
        logsumexp_spec(x, axis, lowest, exp, ln).shape == x.shape.update(axis as int, 1),
        logsumexp_spec(x, axis, lowest, exp, ln).at(idx.update(axis as int, 0)) == line_greatest(
            x,
            idx,
            axis as int,
            lowest,
        ).plus(image(ln, line_total(x, idx, axis as int, lowest, exp))),
{
    lemma_line_total(x, axis, lowest, exp, idx);
    let a = axis as int;
    let m = max_keepdims_spec(x, axis, lowest);
    let y = map_spec(zip_spec(Arithmetic::Minus, x, m), exp);
    let logs = map_spec(sum_keepdims_spec(y, axis), ln);
    let cut = m.shape;
    assert(0 <= idx[a] < x.shape[a]);
    lemma_line_is_listed(x, a, idx);
    let k = offset(cut, idx.update(a, 0));
    lemma_joint_with_itself(cut);
    arithmetic_goes_element_by_element(m, logs, k);
}

/// The cross entropy is what the rows have for their labels, less the logarithm of the sum
/// of the exponentials of the row, negated and averaged over the rows.
pub proof fn cross_entropy_averages_over_rows<T: Scalar, E: Fn(T) -> T, L: Fn(T) -> T>(
    x: Array<T>,
    labels: Seq<usize>,
    lowest: T,
    exp: E,
    ln: L,
)
    requires
        x.wf(),
        x.shape.len() == 2,
        labels.len() == x.shape[0],
        selects(labels, x.shape[1] as nat),
    ensures
        cross_entropy_spec(x, labels, lowest, exp, ln).shape == Seq::<usize>::empty(),
        cross_entropy_spec(x, labels, lowest, exp, ln).data == seq![
            sum_of(
                x.shape[0] as int,
                |r: int| log_share(x, seq![r, labels[r] as int], lowest, exp, ln),
            ).negated().over(T::count_spec(x.shape[0])),
        ],
{
    let n = x.shape[0] as int;
    let logs = log_softmax_rows_spec(x, lowest, exp, ln);
    let picked = gather_rows_spec(logs, labels);
    let term = |r: int| log_share(x, seq![r, labels[r] as int], lowest, exp, ln);
    assert forall|r: int| 0 <= r < n implies #[trigger] picked.data[r] == term(r) by {
        let place = seq![r, labels[r] as int];
        let c = x.shape[1] as int;
        assert(labels[r] < c);
        assert(in_bounds(x.shape, place)) by {
            assert forall|i: int| 0 <= i < 2 implies 0 <= #[trigger] place[i] < x.shape[i] by {}
        }
        logsumexp_adds_back_the_greatest(x, 1, lowest, exp, ln, place);
        lemma_with_cut(x, logsumexp_spec(x, 1, lowest, exp, ln), 1, place);
        reveal_with_fuel(offset, 3);
        assert(x.shape.drop_last().last() == x.shape[0]);
        assert(x.shape.drop_last().drop_last() =~= Seq::<usize>::empty());
        assert(place.drop_last().last() == r);
        lemma_offset_bound(x.shape, place);
        assert(offset(x.shape, place) == r * c + labels[r]);
        assert(logs.shape == x.shape);
        assert(row_map(labels, c as nat)[r] == Some((r * c + labels[r]) as usize));
    }
    lemma_total(picked.data, n, term);
}

/// Selecting one element per row picks, in row `r`, the column that is listed for it.
pub proof fn selecting_picks_one_per_row<T: Scalar>(x: Array<T>, indices: Seq<usize>, r: int)
    requires
        x.wf(),
        x.shape.len() == 2,
        indices.len() == x.shape[0],
        selects(indices, x.shape[1] as nat),
        0 <= r < x.shape[0],
    ensures
        gather_rows_spec(x, indices).shape == seq![x.shape[0]],
        gather_rows_spec(x, indices).data.len() == x.shape[0],
        gather_rows_spec(x, indices).data[r] == entry(x, r, indices[r] as int),
{
    let c = x.shape[1] as int;
    assert(indices[r] < c);
    assert(x.shape =~= seq![x.shape[0], x.shape[1]]);
    crate::utils::conv::lemma_volume2(x.shape[0], x.shape[1]);
    assert(0 <= r * c + indices[r] < x.shape[0] * c) by (nonlinear_arith)
        requires
            0 <= r < x.shape[0],
            0 <= indices[r] < c,
    ;
    assert(row_map(indices, c as nat)[r] == Some((r * c + indices[r]) as usize));
}

proof fn lemma_total<T: Scalar>(data: Seq<T>, n: int, term: spec_fn(int) -> T)
    requires
        forall|r: int| 0 <= r < n ==> #[trigger] data[r] == term(r),
    ensures
        total(data, n) == sum_of(n, term),
    decreases n,
{
    if n > 0 {
        lemma_total(data, n - 1, term);
        assert(data[n - 1] == term(n - 1));
    }
}

proof fn lemma_squared_distance<T: Scalar>(a: Seq<T>, b: Seq<T>, n: int)
    ensures
        squared_distance(a, b, n) == sum_of(n, |k: int| a[k].minus(b[k]).times(a[k].minus(b[k]))),
    decreases n,
{
    if n > 0 {
        lemma_squared_distance(a, b, n - 1);
    }
}

/// The mean squared error is the sum of the squared differences of all elements over the
/// number of rows.
pub proof fn squared_differences_are_shared_by_the_rows<T: Scalar>(a: Array<T>, b: Array<T>)
    ensures
        mean_squared_error_spec(a, b).shape == Seq::<usize>::empty(),
        mean_squared_error_spec(a, b).data == seq![
            sum_of(
                a.data.len() as int,
                |k: int| a.data[k].minus(b.data[k]).times(a.data[k].minus(b.data[k])),
            ).over(T::count_spec(a.shape[0])),
        ],
{
    lemma_squared_distance(a.data, b.data, a.data.len() as int);
}

} // verus!
