//! Shape arithmetic: axes, broadcasting and the sums that undo it.
use crate::index::{
    checked_volume, in_bounds, lemma_offset_bound, lemma_unravel, offset, ravel, to_int, unravel,
    unravel_index, volume,
};
use crate::remap::{
    dot, gather, gather_through, maps_into, scatter, scatter_is_adjoint_to_gather, scatter_through,
};
use crate::scalar::{Ring, Scalar};
use crate::tensor::{copy_of, Array, Tensor};
use crate::utils::down::{
    lemma_partly, lemma_partly_volume, summing_axis_by_axis_is_summing_at_once,
};
use vstd::prelude::*;
use vstd::seq_lib::*;

verus! {

// ---------------------------------------------------------------------------
// axes
// ---------------------------------------------------------------------------
/// Whether `axis` names an axis of an array of `ndim` dimensions, counting from
/// the end where it is negative.
pub open spec fn valid_axis(axis: isize, ndim: nat) -> bool {
    -(ndim as int) <= axis < ndim
}

/// The axis that `axis` names.
pub open spec fn resolved_axis(axis: isize, ndim: nat) -> int {
    if axis < 0 {
        axis + ndim
    } else {
        axis as int
    }
}

/// The axis that `axis` names, a negative one counting from the end.
pub fn normalize_axis(axis: isize, ndim: usize) -> (r: usize)
    requires
        valid_axis(axis, ndim as nat),
    ensures
        r == resolved_axis(axis, ndim as nat),
        r < ndim,
{
    if axis < 0 {
        let back: usize = (-(axis + 1)) as usize;
        ndim - 1 - back
    } else {
        axis as usize
    }
}

/// Every axis of the list resolved.
pub open spec fn resolved_axes(axes: Seq<isize>, ndim: nat) -> Seq<usize> {
    Seq::new(axes.len(), |i: int| resolved_axis(axes[i], ndim) as usize)
}

pub open spec fn ascending(s: Seq<usize>) -> bool {
    forall|i: int, j: int| 0 <= i < j < s.len() ==> #[trigger] s[i] <= #[trigger] s[j]
}

pub open spec fn strictly_ascending(s: Seq<usize>) -> bool {
    forall|i: int, j: int| 0 <= i < j < s.len() ==> #[trigger] s[i] < #[trigger] s[j]
}

/// Whether `sorted` lists the entries of `s` in ascending order.
pub open spec fn is_sorting(sorted: Seq<usize>, s: Seq<usize>) -> bool {
    &&& ascending(sorted)
    &&& sorted.to_multiset() == s.to_multiset()
}

/// Resolves every axis of a list.
pub fn normalize_axes(axes: &[isize], ndim: usize) -> (r: Vec<usize>)
    requires
        forall|i: int| 0 <= i < axes@.len() ==> valid_axis(#[trigger] axes@[i], ndim as nat),
    ensures
        r@ == resolved_axes(axes@, ndim as nat),
        forall|i: int| 0 <= i < r@.len() ==> #[trigger] r@[i] < ndim,
{
    let n: usize = axes.len();
    let mut r: Vec<usize> = Vec::new();
    let mut i: usize = 0;
    while i < n
        invariant
            n == axes@.len(),
            i <= n,
            forall|j: int| 0 <= j < n ==> valid_axis(#[trigger] axes@[j], ndim as nat),
            r@ == resolved_axes(axes@, ndim as nat).take(i as int),
            forall|j: int| 0 <= j < i ==> #[trigger] r@[j] < ndim,
        decreases n - i,
    {
        assert(valid_axis(axes@[i as int], ndim as nat));
        r.push(normalize_axis(axes[i], ndim));
        proof {
            let all = resolved_axes(axes@, ndim as nat);
            assert(all.take(i + 1) =~= all.take(i as int).push(all[i as int]));
        }
        i = i + 1;
    }
    proof {
        let all = resolved_axes(axes@, ndim as nat);
        assert(all.take(n as int) =~= all);
    }
    r
}

/// Sorts a list of axes.
pub fn sort_axes(axes: &Vec<usize>) -> (r: Vec<usize>)
    ensures
        is_sorting(r@, axes@),
        r@.len() == axes@.len(),
{
    broadcast use group_to_multiset_ensures;

    let n: usize = axes.len();
    let mut r: Vec<usize> = Vec::new();
    let mut i: usize = 0;
    proof {
        assert(axes@.take(0) =~= r@);
    }
    while i < n
        invariant
            n == axes@.len(),
            i <= n,
            r@.len() == i,
            ascending(r@),
            r@.to_multiset() == axes@.take(i as int).to_multiset(),
        decreases n - i,
    {
        let v: usize = axes[i];
        let mut at: usize = i;
        while at > 0 && r[at - 1] > v
            invariant
                at <= i,
                r@.len() == i,
                ascending(r@),
                forall|j: int| at <= j < i ==> #[trigger] r@[j] > v,
            decreases at,
        {
            at = at - 1;
        }
        let ghost before = r@;
        r.insert(at, v);
        proof {
            assert(axes@.take(i + 1) =~= axes@.take(i as int).push(v));
            to_multiset_insert(before, at as int, v);
            to_multiset_build(axes@.take(i as int), v);
            assert(r@ =~= before.insert(at as int, v));
            assert forall|p: int, q: int| 0 <= p < q < r@.len() implies #[trigger] r@[p]
                <= #[trigger] r@[q] by {
                let a: int = if p < at {
                    p
                } else {
                    p - 1
                };
                let b: int = if q < at {
                    q
                } else {
                    q - 1
                };
                if p != at && q != at {
                    assert(before[a] <= before[b]);
                } else if q == at {
                    assert(at > 0);
                    assert(before[at - 1] <= v);
                    if p < at - 1 {
                        assert(before[p] <= before[at - 1]);
                    }
                } else {
                    assert(before[b] > v);
                }
            }
        }
        i = i + 1;
    }
    proof {
        assert(axes@.take(n as int) =~= axes@);
    }
    r
}

/// `shape` with every axis that `axes` lists reduced to length 1.
pub open spec fn kept_shape(shape: Seq<usize>, axes: Seq<usize>) -> Seq<usize> {
    Seq::new(
        shape.len(),
        |i: int|
            if axes.contains(i as usize) {
                1
            } else {
                shape[i]
            },
    )
}

/// `shape` without the axes that `axes` lists.
pub open spec fn dropped_shape(shape: Seq<usize>, axes: Seq<usize>) -> Seq<usize>
    decreases shape.len(),
{
    if shape.len() == 0 {
        Seq::empty()
    } else if axes.contains((shape.len() - 1) as usize) {
        dropped_shape(shape.drop_last(), axes)
    } else {
        dropped_shape(shape.drop_last(), axes).push(shape.last())
    }
}

/// `shape` with an axis of length 1 inserted at each entry of `axes` in turn.
pub open spec fn with_ones(shape: Seq<usize>, axes: Seq<usize>) -> Seq<usize>
    decreases axes.len(),
{
    if axes.len() == 0 {
        shape
    } else {
        with_ones(shape, axes.drop_last()).insert(axes.last() as int, 1)
    }
}

/// Whether each entry of `axes` is a place at which an axis can be inserted once
/// the entries before it have been.
pub open spec fn insertable(ndim: nat, axes: Seq<usize>) -> bool {
    forall|i: int| 0 <= i < axes.len() ==> #[trigger] axes[i] <= ndim + i
}

/// The shape that the gradient of a sum takes before it is spread over the summed
/// axes: the axes that the sum dropped come back with length 1.
pub fn reshape_sum_backward(
    gy_shape: &[usize],
    x_shape: &[usize],
    axis: Option<&[isize]>,
    keepdims: bool,
) -> (r: Vec<usize>)
    requires
        x_shape@.len() != 0 && !keepdims ==> (axis matches Some(axes) ==> {
            &&& forall|i: int|
                0 <= i < axes@.len() ==> valid_axis(#[trigger] axes@[i], x_shape@.len())
            &&& forall|order: Seq<usize>|
                #[trigger] is_sorting(order, resolved_axes(axes@, x_shape@.len())) ==> insertable(
                    gy_shape@.len(),
                    order,
                )
        }),
    ensures
        x_shape@.len() == 0 || keepdims || axis.is_none() ==> r@ == gy_shape@,
        x_shape@.len() != 0 && !keepdims ==> (axis matches Some(axes) ==> exists|
            order: Seq<usize>,
        |
            #[trigger] is_sorting(order, resolved_axes(axes@, x_shape@.len())) && r@ == with_ones(
                gy_shape@,
                order,
            )),
{
    let mut shape: Vec<usize> = copy_of(gy_shape);
    let ndim: usize = x_shape.len();
    if ndim == 0 || keepdims {
        return shape;
    }
    match axis {
        None => shape,
        Some(axes) => {
            let resolved = normalize_axes(axes, ndim);
            let order = sort_axes(&resolved);
            let n: usize = order.len();
            let mut i: usize = 0;
            proof {
                assert(order@.take(0) =~= Seq::<usize>::empty());
                assert(insertable(gy_shape@.len(), order@));
            }
            while i < n
                invariant
                    n == order@.len(),
                    i <= n,
                    insertable(gy_shape@.len(), order@),
                    shape@ == with_ones(gy_shape@, order@.take(i as int)),
                    shape@.len() == gy_shape@.len() + i,
                decreases n - i,
            {
                proof {
                    assert(order@[i as int] <= gy_shape@.len() + i);
                    assert(order@.take(i + 1).drop_last() =~= order@.take(i as int));
                }
                shape.insert(order[i], 1);
                i = i + 1;
            }
            proof {
                assert(order@.take(n as int) =~= order@);
            }
            shape
        },
    }
}

proof fn lemma_with_ones_push(s: Seq<usize>, v: usize, axes: Seq<usize>)
    requires
        insertable(s.len(), axes),
    ensures
        with_ones(s.push(v), axes) == with_ones(s, axes).push(v),
        with_ones(s, axes).len() == s.len() + axes.len(),
    decreases axes.len(),
{
    if axes.len() > 0 {
        let rest = axes.drop_last();
        assert forall|i: int| 0 <= i < rest.len() implies #[trigger] rest[i] <= s.len() + i by {
            assert(axes[i] <= s.len() + i);
        }
        lemma_with_ones_push(s, v, rest);
        assert(axes[axes.len() - 1] <= s.len() + axes.len() - 1);
        assert(with_ones(s.push(v), axes) =~= with_ones(s, axes).push(v));
    } else {
        assert(with_ones(s.push(v), axes) =~= with_ones(s, axes).push(v));
    }
}

/// Putting the dropped axes back with length 1 gives the shape that a sum which
/// keeps its axes has.
pub proof fn reinserting_dropped_axes_keeps_the_rest(shape: Seq<usize>, axes: Seq<usize>)
    requires
        shape.len() <= usize::MAX,
        strictly_ascending(axes),
        forall|i: int| 0 <= i < axes.len() ==> #[trigger] axes[i] < shape.len(),
    ensures
        insertable(dropped_shape(shape, axes).len(), axes),
        with_ones(dropped_shape(shape, axes), axes) == kept_shape(shape, axes),
        dropped_shape(shape, axes).len() + axes.len() == shape.len(),
    decreases shape.len(),
{
    if shape.len() == 0 {
        if axes.len() > 0 {
            assert(axes[0] < 0);
        }
        assert(with_ones(dropped_shape(shape, axes), axes) =~= kept_shape(shape, axes));
    } else {
        let n = shape.len();
        let t = shape.drop_last();
        let m = (n - 1) as usize;
        if axes.contains(m) {
            let i = axes.index_of(m);
            assert(axes[i] == m);
            if i < axes.len() - 1 {
                assert(axes[i] < axes[axes.len() - 1]);
                assert(axes[axes.len() - 1] < n);
            }
            let rest = axes.drop_last();
            assert forall|j: int| 0 <= j < rest.len() implies #[trigger] rest[j] < t.len() by {
                assert(axes[j] < axes[axes.len() - 1]);
            }
            assert forall|p: int, q: int| 0 <= p < q < rest.len() implies #[trigger] rest[p]
                < #[trigger] rest[q] by {
                assert(axes[p] < axes[q]);
            }
            reinserting_dropped_axes_keeps_the_rest(t, rest);
            lemma_dropped_same(t, axes, rest);
            assert forall|j: int| 0 <= j < axes.len() implies #[trigger] axes[j]
                <= dropped_shape(shape, axes).len() + j by {
                if j < rest.len() {
                    assert(rest[j] <= dropped_shape(t, rest).len() + j);
                }
            }
            assert(with_ones(dropped_shape(shape, axes), axes) =~= kept_shape(shape, axes)) by {
                assert forall|j: int| 0 <= j < n implies with_ones(
                    dropped_shape(shape, axes),
                    axes,
                )[j] == kept_shape(shape, axes)[j] by {
                    if j < n - 1 {
                        assert(kept_shape(t, rest)[j] == kept_shape(shape, axes)[j]) by {
                            lemma_contains_init(axes, j as usize, m);
                        }
                    }
                }
            }
        } else {
            assert forall|j: int| 0 <= j < axes.len() implies #[trigger] axes[j] < t.len() by {
                assert(axes[j] < n);
                assert(axes[j] != m);
            }
            reinserting_dropped_axes_keeps_the_rest(t, axes);
            lemma_with_ones_push(dropped_shape(t, axes), shape.last(), axes);
            assert(with_ones(dropped_shape(shape, axes), axes) =~= kept_shape(shape, axes));
        }
    }
}

proof fn lemma_contains_init(axes: Seq<usize>, a: usize, m: usize)
    requires
        axes.len() > 0,
        axes.last() == m,
        a != m,
    ensures
        axes.drop_last().contains(a) == axes.contains(a),
{
    let rest = axes.drop_last();
    if axes.contains(a) {
        let i = axes.index_of(a);
        assert(axes[i] == a);
        assert(rest[i] == a);
    }
    if rest.contains(a) {
        let i = rest.index_of(a);
        assert(axes[i] == a);
    }
}

proof fn lemma_dropped_same(s: Seq<usize>, axes: Seq<usize>, rest: Seq<usize>)
    requires
        axes.len() > 0,
        rest == axes.drop_last(),
        s.len() <= axes.last(),
    ensures
        dropped_shape(s, axes) == dropped_shape(s, rest),
    decreases s.len(),
{
    if s.len() > 0 {
        lemma_dropped_same(s.drop_last(), axes, rest);
        lemma_contains_init(axes, (s.len() - 1) as usize, axes.last());
    }
}

// ---------------------------------------------------------------------------
// broadcasting
// ---------------------------------------------------------------------------
/// The length that a shape has at place `i` of a shape of `rank` axes, aligned at
/// the last axis: a missing axis reads as 1.
pub open spec fn aligned_axis(s: Seq<usize>, rank: nat, i: int) -> usize {
    if i + s.len() >= rank {
        s[i + s.len() - rank]
    } else {
        1
    }
}

pub open spec fn larger(a: nat, b: nat) -> nat {
    if a > b {
        a
    } else {
        b
    }
}

/// Whether two shapes broadcast together: aligned at the last axis, the lengths
/// agree wherever neither is 1.
pub open spec fn broadcastable(a: Seq<usize>, b: Seq<usize>) -> bool {
    let rank = larger(a.len(), b.len());
    forall|i: int|
        0 <= i < rank ==> {
            ||| #[trigger] aligned_axis(a, rank, i) == 1
            ||| aligned_axis(b, rank, i) == 1
            ||| aligned_axis(a, rank, i) == aligned_axis(b, rank, i)
        }
}

/// The shape to which two shapes broadcast.
pub open spec fn joint_shape(a: Seq<usize>, b: Seq<usize>) -> Seq<usize> {
    let rank = larger(a.len(), b.len());
    Seq::new(
        rank,
        |i: int|
            if aligned_axis(a, rank, i) == 1 {
                aligned_axis(b, rank, i)
            } else {
                aligned_axis(a, rank, i)
            },
    )
}

/// The shape to which two shapes broadcast, or `None` where they do not.
pub fn broadcast_shape(a: &[usize], b: &[usize]) -> (r: Option<Vec<usize>>)
    ensures
        r.is_some() <==> broadcastable(a@, b@),
        r matches Some(s) ==> s@ == joint_shape(a@, b@),
{
    let rank: usize = if a.len() > b.len() {
        a.len()
    } else {
        b.len()
    };
    let mut shape: Vec<usize> = Vec::new();
    let mut i: usize = 0;
    while i < rank
        invariant
            rank == larger(a@.len(), b@.len()),
            i <= rank,
            shape@ == joint_shape(a@, b@).take(i as int),
            forall|j: int|
                0 <= j < i ==> {
                    ||| #[trigger] aligned_axis(a@, rank as nat, j) == 1
                    ||| aligned_axis(b@, rank as nat, j) == 1
                    ||| aligned_axis(a@, rank as nat, j) == aligned_axis(b@, rank as nat, j)
                },
        decreases rank - i,
    {
        let back: usize = rank - i;
        let da: usize = if a.len() >= back {
            a[a.len() - back]
        } else {
            1
        };
        let db: usize = if b.len() >= back {
            b[b.len() - back]
        } else {
            1
        };
        assert(da == aligned_axis(a@, rank as nat, i as int));
        assert(db == aligned_axis(b@, rank as nat, i as int));
        if da == 1 {
            shape.push(db);
        } else if db == 1 || da == db {
            shape.push(da);
        } else {
            return None;
        }
        proof {
            let all = joint_shape(a@, b@);
            assert(all.take(i + 1) =~= all.take(i as int).push(all[i as int]));
        }
        i = i + 1;
    }
    proof {
        let all = joint_shape(a@, b@);
        assert(all.take(rank as int) =~= all);
    }
    Some(shape)
}

/// Broadcasting two shapes does not depend on their order.
pub proof fn broadcasting_is_symmetric(a: Seq<usize>, b: Seq<usize>)
    ensures
        broadcastable(a, b) == broadcastable(b, a),
        broadcastable(a, b) ==> joint_shape(a, b) == joint_shape(b, a),
{
    let rank = larger(a.len(), b.len());
    assert(rank == larger(b.len(), a.len()));
    if broadcastable(a, b) {
        assert forall|i: int| 0 <= i < rank implies {
            ||| #[trigger] aligned_axis(b, rank, i) == 1
            ||| aligned_axis(a, rank, i) == 1
            ||| aligned_axis(b, rank, i) == aligned_axis(a, rank, i)
        } by {
            let d = aligned_axis(a, rank, i);
        }
        assert(joint_shape(a, b) =~= joint_shape(b, a)) by {
            assert forall|i: int| 0 <= i < rank implies joint_shape(a, b)[i] == joint_shape(
                b,
                a,
            )[i] by {
                let d = aligned_axis(a, rank, i);
            }
        }
    }
    if broadcastable(b, a) {
        assert forall|i: int| 0 <= i < rank implies {
            ||| #[trigger] aligned_axis(a, rank, i) == 1
            ||| aligned_axis(b, rank, i) == 1
            ||| aligned_axis(a, rank, i) == aligned_axis(b, rank, i)
        } by {
            let d = aligned_axis(b, rank, i);
        }
    }
}

/// Whether an array of shape `from` can be spread over the shape `to`.
pub open spec fn broadcasts_to(from: Seq<usize>, to: Seq<usize>) -> bool {
    &&& from.len() <= to.len()
    &&& forall|i: int|
        0 <= i < from.len() ==> #[trigger] from[i] == 1 || from[i] == to[i + to.len()
            - from.len()]
}

/// Two shapes that broadcast together both spread over their joint shape.
pub proof fn joint_shape_receives_both(a: Seq<usize>, b: Seq<usize>)
    requires
        broadcastable(a, b),
    ensures
        broadcasts_to(a, joint_shape(a, b)),
        broadcasts_to(b, joint_shape(a, b)),
{
    let rank = larger(a.len(), b.len());
    let s = joint_shape(a, b);
    assert forall|i: int| 0 <= i < a.len() implies #[trigger] a[i] == 1 || a[i] == s[i + rank
        - a.len()] by {
        let p = i + rank - a.len();
        assert(aligned_axis(a, rank, p) == a[i]);
    }
    assert forall|i: int| 0 <= i < b.len() implies #[trigger] b[i] == 1 || b[i] == s[i + rank
        - b.len()] by {
        let p = i + rank - b.len();
        assert(aligned_axis(b, rank, p) == b[i]);
        assert(aligned_axis(a, rank, p) == 1 || aligned_axis(b, rank, p) == 1 || aligned_axis(
            a,
            rank,
            p,
        ) == aligned_axis(b, rank, p));
    }
}

/// The element of an array of shape `from` that `idx` sees once the array has been
/// spread over a shape with `idx.len()` axes.
pub open spec fn seen_through(idx: Seq<int>, from: Seq<usize>) -> Seq<int> {
    Seq::new(
        from.len(),
        |i: int|
            if from[i] == 1 {
                0
            } else {
                idx[i + idx.len() - from.len()]
            },
    )
}

/// The position that position `k` of the spread array sees.
pub open spec fn broadcast_source(from: Seq<usize>, to: Seq<usize>, k: int) -> int {
    offset(from, seen_through(unravel(to, k), from))
}

/// The index map that spreads an array of shape `from` over the shape `to`.
pub open spec fn broadcast_map(from: Seq<usize>, to: Seq<usize>) -> Seq<Option<usize>> {
    Seq::new(volume(to), |k: int| Some(broadcast_source(from, to, k) as usize))
}

/// `x` spread over `shape`.
pub open spec fn broadcast_spec<T: Scalar>(x: Array<T>, shape: Seq<usize>) -> Array<T> {
    Array { shape, data: gather(x.data, broadcast_map(x.shape, shape)) }
}

/// The shape of an array of shape `from` of which the axes from `n` on have been summed
/// down to those of `shape`, with which they are aligned at the last axis.
pub open spec fn partly(from: Seq<usize>, shape: Seq<usize>, n: int) -> Seq<usize> {
    Seq::new(
        from.len(),
        |i: int|
            if i < n {
                from[i]
            } else {
                aligned_axis(shape, from.len(), i)
            },
    )
}

/// `x` summed down to `shape`, which differs from its own in one axis: every element is
/// added to the element that it would have come from had an array of that shape been
/// spread over the shape of `x`.
pub open spec fn axis_summed<T: Scalar>(x: Array<T>, shape: Seq<usize>) -> Array<T> {
    if x.shape == shape {
        x
    } else {
        Array { shape, data: scatter(x.data, broadcast_map(shape, x.shape), volume(shape)) }
    }
}

/// `x` with the axes from `n` on summed down to those of `shape`, the last axis first.
#[verifier::opaque]
pub open spec fn summed_down<T: Scalar>(x: Array<T>, shape: Seq<usize>, n: int) -> Array<T>
    decreases x.shape.len() - n,
{
    if n >= x.shape.len() {
        x
    } else {
        axis_summed(summed_down(x, shape, n + 1), partly(x.shape, shape, n))
    }
}

/// `x` summed down to `shape`, axis by axis from the last to the first; zeros where there
/// is nothing to sum.
pub open spec fn sum_to_spec<T: Scalar>(x: Array<T>, shape: Seq<usize>) -> Array<T> {
    Array {
        shape,
        data: if x.data.len() == 0 {
            Seq::new(volume(shape), |k: int| T::zero_spec())
        } else {
            summed_down(x, shape, 0).data
        },
    }
}

pub proof fn lemma_seen_through(from: Seq<usize>, to: Seq<usize>, idx: Seq<int>)
    requires
        broadcasts_to(from, to),
        in_bounds(to, idx),
    ensures
        in_bounds(from, seen_through(idx, from)),
{
    let jdx = seen_through(idx, from);
    assert forall|i: int| 0 <= i < from.len() implies 0 <= #[trigger] jdx[i] < from[i] by {
        assert(from[i] == 1 || from[i] == to[i + to.len() - from.len()]);
        assert(0 <= idx[i + to.len() - from.len()] < to[i + to.len() - from.len()]);
    }
}

pub proof fn lemma_broadcast_map(from: Seq<usize>, to: Seq<usize>)
    requires
        broadcasts_to(from, to),
        volume(from) <= usize::MAX,
    ensures
        broadcast_map(from, to).len() == volume(to),
        maps_into(broadcast_map(from, to), volume(from)),
        forall|k: int|
            0 <= k < volume(to) ==> 0 <= #[trigger] broadcast_source(from, to, k) < volume(from),
{
    assert forall|k: int| 0 <= k < volume(to) implies 0 <= #[trigger] broadcast_source(
        from,
        to,
        k,
    ) < volume(from) by {
        lemma_unravel(to, k);
        lemma_seen_through(from, to, unravel(to, k));
        lemma_offset_bound(from, seen_through(unravel(to, k), from));
    }
}

/// Spreading an array over its own shape reads every element where it stands.
pub proof fn lemma_broadcast_identity(s: Seq<usize>)
    requires
        volume(s) <= usize::MAX,
    ensures
        broadcasts_to(s, s),
        forall|k: int| 0 <= k < volume(s) ==> #[trigger] broadcast_source(s, s, k) == k,
{
    assert forall|k: int| 0 <= k < volume(s) implies #[trigger] broadcast_source(s, s, k)
        == k by {
        lemma_unravel(s, k);
        let idx = unravel(s, k);
        assert(seen_through(idx, s) =~= idx) by {
            assert forall|i: int| 0 <= i < s.len() implies seen_through(idx, s)[i] == idx[i] by {
                assert(0 <= idx[i] < s[i]);
            }
        }
    }
}

/// Spreading an array over its own shape changes nothing.
pub proof fn broadcasting_to_the_same_shape_is_the_identity<T: Scalar>(x: Array<T>)
    requires
        x.wf(),
    ensures
        broadcast_spec(x, x.shape) == x,
{
    lemma_broadcast_identity(x.shape);
    let y = broadcast_spec(x, x.shape);
    assert(y.data =~= x.data) by {
        assert forall|k: int| 0 <= k < x.data.len() implies y.data[k] == x.data[k] by {
            assert(broadcast_source(x.shape, x.shape, k) == k);
        }
    }
}

/// Summing down to a shape is the adjoint of spreading over it: the product of
/// `sum_to(y)` with `x` is the product of `y` with the broadcast `x`.
pub proof fn sum_to_is_adjoint_to_broadcast<R: Ring>(x: Array<R>, y: Array<R>)
    requires
        x.wf(),
        y.wf(),
        broadcasts_to(x.shape, y.shape),
    ensures
        dot(sum_to_spec(y, x.shape).data, x.data, x.data.len() as int) == dot(
            y.data,
            broadcast_spec(x, y.shape).data,
            y.data.len() as int,
        ),
{
    lemma_broadcast_map(x.shape, y.shape);
    summing_axis_by_axis_is_summing_at_once(y, x.shape);
    scatter_is_adjoint_to_gather(x.data, y.data, broadcast_map(x.shape, y.shape));
}

/// Computes [`broadcast_map`].
pub fn broadcast_index_map(from: &[usize], to: &[usize]) -> (map: Vec<Option<usize>>)
    requires
        broadcasts_to(from@, to@),
        volume(from@) <= usize::MAX,
        volume(to@) <= usize::MAX,
    ensures
        map@ == broadcast_map(from@, to@),
{
    let total: usize = match checked_volume(to) {
        Some(v) => v,
        None => 0,
    };
    let n: usize = from.len();
    let rank: usize = to.len();
    let lead: usize = rank - n;
    let ghost want = broadcast_map(from@, to@);
    let mut map: Vec<Option<usize>> = Vec::new();
    let mut k: usize = 0;
    while k < total
        invariant
            k <= total,
            total == volume(to@),
            n == from@.len(),
            rank == to@.len(),
            lead == rank - n,
            broadcasts_to(from@, to@),
            volume(from@) <= usize::MAX,
            want == broadcast_map(from@, to@),
            map@ == want.take(k as int),
        decreases total - k,
    {
        let idx: Vec<usize> = unravel_index(to, k);
        let ghost ui = to_int(idx@);
        let mut src: Vec<usize> = Vec::new();
        let mut i: usize = 0;
        while i < n
            invariant
                i <= n,
                n == from@.len(),
                lead == rank - n,
                n <= rank,
                idx@.len() == rank,
                ui == to_int(idx@),
                src@.len() == i,
                forall|j: int| 0 <= j < i ==> #[trigger] src@[j] == seen_through(ui, from@)[j],
            decreases n - i,
        {
            if from[i] == 1 {
                src.push(0);
            } else {
                src.push(idx[i + lead]);
            }
            i = i + 1;
        }
        proof {
            lemma_seen_through(from@, to@, ui);
            assert(to_int(src@) =~= seen_through(ui, from@));
        }
        let o: usize = ravel(from, src.as_slice());
        map.push(Some(o));
        proof {
            assert(want[k as int] == Some(o));
            assert(want.take(k + 1) =~= want.take(k as int).push(want[k as int]));
        }
        k = k + 1;
    }
    proof {
        assert(want.take(total as int) =~= want);
    }
    map
}

/// `x` spread over `shape`.
pub fn broadcast_array<T: Scalar>(x: &Tensor<T>, shape: &[usize]) -> (r: Tensor<T>)
    requires
        x.wf(),
        broadcasts_to(x@.shape, shape@),
        volume(shape@) <= usize::MAX,
    ensures
        r.wf(),
        r@ == broadcast_spec(x@, shape@),
{
    let map = broadcast_index_map(x.shape.as_slice(), shape);
    proof {
        lemma_broadcast_map(x@.shape, shape@);
    }
    let data = gather_through(&x.data, &map);
    Tensor { shape: copy_of(shape), data }
}

/// `x` summed down to `shape`: leading axes that `shape` lacks are summed away, and
/// axes of length 1 in `shape` are summed and kept.
pub fn sum_to<T: Scalar>(x: &Tensor<T>, shape: &[usize]) -> (r: Tensor<T>)
    requires
        x.wf(),
        broadcasts_to(shape@, x@.shape),
        volume(shape@) <= usize::MAX,
    ensures
        r.wf(),
        r@ == sum_to_spec(x@, shape@),
{
    if x.data.len() == 0 {
        let r = Tensor::full(shape, T::zero());
        assert(r@.data =~= sum_to_spec(x@, shape@).data);
        return r;
    }
    let rank: usize = x.shape.len();
    let lead: usize = rank - shape.len();
    let mut y = x.duplicate();
    let mut n: usize = rank;
    proof {
        reveal(summed_down);
        assert(partly(x@.shape, shape@, rank as int) =~= x@.shape);
    }
    while n > 0
        invariant
            n <= rank,
            rank == x@.shape.len(),
            lead == rank - shape@.len(),
            x.wf(),
            x@.data.len() > 0,
            broadcasts_to(shape@, x@.shape),
            y.wf(),
            y@ == summed_down(x@, shape@, n as int),
            y@.shape == partly(x@.shape, shape@, n as int),
        decreases n,
    {
        n = n - 1;
        let target: usize = if n < lead {
            1
        } else {
            shape[n - lead]
        };
        let ghost above = y@;
        proof {
            reveal(summed_down);
            lemma_partly(x@.shape, shape@, n as int);
            assert(partly(x@.shape, shape@, n as int) =~= above.shape.update(
                n as int,
                target,
            ));
        }
        if y.shape[n] != target {
            let mut cut: Vec<usize> = copy_of(y.shape.as_slice());
            cut.set(n, target);
            let map = broadcast_index_map(cut.as_slice(), y.shape.as_slice());
            proof {
                lemma_broadcast_map(cut@, above.shape);
                assert(cut@[n as int] != above.shape[n as int]);
            }
            let len: usize = match checked_volume(cut.as_slice()) {
                Some(v) => v,
                None => 0,
            };
            let data = scatter_through(&y.data, &map, len);
            y = Tensor { shape: cut, data };
        } else {
            assert(partly(x@.shape, shape@, n as int) =~= above.shape);
        }
    }
    proof {
        lemma_partly_volume(x@.shape, shape@);
    }
    Tensor { shape: copy_of(shape), data: y.data }
}

} // verus!
