//! Sums over axes.
use crate::index::volume;
use crate::scalar::Scalar;
use crate::tensor::{copy_of, reshape_spec, Array, Tensor};
use crate::utils::shape::{
    broadcast_spec, broadcasting_to_the_same_shape_is_the_identity, broadcasts_to, dropped_shape,
    is_sorting, kept_shape, normalize_axes, resolved_axes, sort_axes, strictly_ascending,
    sum_to_spec, valid_axis,
};
use crate::engine::builtin::{apply_unary, derives, held, holds, Builtin};
use crate::engine::function::{applied, Op};
use crate::engine::graph::{Graph, Variable};
use crate::engine::rule::{fold_spec, Rule};
use crate::functions::shape::has_shape;
use vstd::prelude::*;
use vstd::seq_lib::*;
use vstd::std_specs::convert::FromSpecImpl;

verus! {

/// Which axes a sum runs over.
#[derive(Debug, Clone, PartialEq, Eq)]
pub enum Axes {
    /// Every axis.
    All,
    /// Those listed, negative ones counting from the end.
    Only(Vec<isize>),
}

impl View for Axes {
    type V = Option<Seq<isize>>;

    open spec fn view(&self) -> Option<Seq<isize>> {
        match self {
            Axes::All => None,
            Axes::Only(axes) => Some(axes@),
        }
    }
}

/// The axes of an array of `ndim` dimensions that are meant.
pub open spec fn listed(axes: Option<Seq<isize>>, ndim: nat) -> Seq<usize> {
    match axes {
        None => Seq::new(ndim, |i: int| i as usize),
        Some(axes) => resolved_axes(axes, ndim),
    }
}

/// Whether the axes exist in an array of `ndim` dimensions, and none is listed twice.
pub open spec fn axes_fit(axes: Option<Seq<isize>>, ndim: nat) -> bool {
    axes matches Some(axes) ==> {
        &&& forall|i: int| 0 <= i < axes.len() ==> valid_axis(#[trigger] axes[i], ndim)
        &&& resolved_axes(axes, ndim).no_duplicates()
    }
}

pub proof fn lemma_sorting_without_duplicates(sorted: Seq<usize>, s: Seq<usize>)
    requires
        is_sorting(sorted, s),
        s.no_duplicates(),
    ensures
        strictly_ascending(sorted),
        sorted.len() == s.len(),
        forall|a: usize| #[trigger] sorted.contains(a) <==> s.contains(a),
{
    broadcast use group_to_multiset_ensures;

    s.lemma_multiset_has_no_duplicates();
    sorted.lemma_multiset_has_no_duplicates_conv();
    assert forall|a: usize| #[trigger] sorted.contains(a) <==> s.contains(a) by {
        assert(sorted.contains(a) <==> sorted.to_multiset().count(a) > 0);
        assert(s.contains(a) <==> s.to_multiset().count(a) > 0);
    }
    assert(sorted.to_multiset().len() == s.to_multiset().len());
}

impl Axes {
    /// The listed axes, or `None` where all are meant.
    pub fn as_slice(&self) -> (r: Option<&[isize]>)
        ensures
            r.is_some() <==> self@.is_some(),
            r matches Some(s) ==> self@ == Some(s@),
    {
        match self {
            Axes::All => None,
            Axes::Only(axes) => Some(axes.as_slice()),
        }
    }

    /// The axes of an array of `ndim` dimensions that are meant, in ascending order.
    pub fn resolve(&self, ndim: usize) -> (r: Vec<usize>)
        requires
            axes_fit(self@, ndim as nat),
        ensures
            strictly_ascending(r@),
            r@.len() == listed(self@, ndim as nat).len(),
            forall|i: int| 0 <= i < r@.len() ==> #[trigger] r@[i] < ndim,
            forall|a: usize| #[trigger] r@.contains(a) <==> listed(self@, ndim as nat).contains(a),
    {
        match self {
            Axes::All => {
                let mut r: Vec<usize> = Vec::new();
                let mut i: usize = 0;
                while i < ndim
                    invariant
                        i <= ndim,
                        r@.len() == i,
                        forall|j: int| 0 <= j < i ==> #[trigger] r@[j] == j,
                    decreases ndim - i,
                {
                    r.push(i);
                    i = i + 1;
                }
                proof {
                    assert(r@ =~= listed(self@, ndim as nat));
                }
                r
            },
            Axes::Only(axes) => {
                let resolved = normalize_axes(axes.as_slice(), ndim);
                let r = sort_axes(&resolved);
                proof {
                    lemma_sorting_without_duplicates(r@, resolved@);
                    assert forall|i: int| 0 <= i < r@.len() implies #[trigger] r@[i] < ndim by {
                        assert(r@.contains(r@[i]));
                        let j = resolved@.index_of(r@[i]);
                        assert(resolved@[j] < ndim);
                    }
                }
                r
            },
        }
    }

    pub fn duplicate(&self) -> (r: Axes)
        ensures
            r@ == self@,
    {
        match self {
            Axes::All => Axes::All,
            Axes::Only(axes) => {
                let n: usize = axes.len();
                let mut copy: Vec<isize> = Vec::new();
                let mut i: usize = 0;
                while i < n
                    invariant
                        n == axes@.len(),
                        i <= n,
                        copy@ == axes@.take(i as int),
                    decreases n - i,
                {
                    copy.push(axes[i]);
                    proof {
                        assert(axes@.take(i + 1) =~= axes@.take(i as int).push(axes@[i as int]));
                    }
                    i = i + 1;
                }
                proof {
                    assert(axes@.take(n as int) =~= axes@);
                }
                Axes::Only(copy)
            },
        }
    }
}

impl Default for Axes {
    fn default() -> (r: Axes)
        ensures
            r@ == None::<Seq<isize>>,
    {
        Axes::All
    }
}

impl From<Vec<isize>> for Axes {
    fn from(axes: Vec<isize>) -> (r: Axes) {
        Axes::Only(axes)
    }
}

impl FromSpecImpl<Vec<isize>> for Axes {
    open spec fn obeys_from_spec() -> bool {
        true
    }

    open spec fn from_spec(axes: Vec<isize>) -> Axes {
        Axes::Only(axes)
    }
}

impl From<isize> for Axes {
    fn from(axis: isize) -> (r: Axes)
        ensures
            r@ == Some(seq![axis]),
    {
        let mut axes: Vec<isize> = Vec::new();
        axes.push(axis);
        proof {
            assert(axes@ =~= seq![axis]);
        }
        Axes::Only(axes)
    }
}

impl FromSpecImpl<isize> for Axes {
    /// The list is copied, so the result is described by its view alone.
    open spec fn obeys_from_spec() -> bool {
        false
    }

    open spec fn from_spec(axes: isize) -> Axes {
        arbitrary()
    }
}

impl From<&[isize]> for Axes {
    fn from(axes: &[isize]) -> (r: Axes)
        ensures
            r@ == Some(axes@),
    {
        let n: usize = axes.len();
        let mut copy: Vec<isize> = Vec::new();
        let mut i: usize = 0;
        while i < n
            invariant
                n == axes@.len(),
                i <= n,
                copy@ == axes@.take(i as int),
            decreases n - i,
        {
            copy.push(axes[i]);
            proof {
                assert(axes@.take(i + 1) =~= axes@.take(i as int).push(axes@[i as int]));
            }
            i = i + 1;
        }
        proof {
            assert(axes@.take(n as int) =~= axes@);
        }
        Axes::Only(copy)
    }
}

impl FromSpecImpl<&[isize]> for Axes {
    /// The list is copied, so the result is described by its view alone.
    open spec fn obeys_from_spec() -> bool {
        false
    }

    open spec fn from_spec(axes: &[isize]) -> Axes {
        arbitrary()
    }
}

impl<const N: usize> From<[isize; N]> for Axes {
    fn from(axes: [isize; N]) -> (r: Axes)
        ensures
            r@ == Some(axes@),
    {
        Axes::from(axes.as_slice())
    }
}

impl<const N: usize> FromSpecImpl<[isize; N]> for Axes {
    /// The list is copied, so the result is described by its view alone.
    open spec fn obeys_from_spec() -> bool {
        false
    }

    open spec fn from_spec(axes: [isize; N]) -> Axes {
        arbitrary()
    }
}

// ---------------------------------------------------------------------------
// sums
// ---------------------------------------------------------------------------
/// The shape of a sum over `axes`.
pub open spec fn sum_shape(
    shape: Seq<usize>,
    axes: Option<Seq<isize>>,
    keepdims: bool,
) -> Seq<usize> {
    let over = listed(axes, shape.len());
    if keepdims {
        kept_shape(shape, over)
    } else {
        dropped_shape(shape, over)
    }
}

/// The sum of an array over `axes`, which are kept with length 1 or dropped.
pub open spec fn sum_spec<T: Scalar>(
    x: Array<T>,
    axes: Option<Seq<isize>>,
    keepdims: bool,
) -> Array<T> {
    let kept = kept_shape(x.shape, listed(axes, x.shape.len()));
    reshape_spec(sum_to_spec(x, kept), sum_shape(x.shape, axes, keepdims))
}

/// Whether an array of this shape can be summed over `axes`.
pub open spec fn sum_fits(shape: Seq<usize>, axes: Option<Seq<isize>>) -> bool {
    &&& axes_fit(axes, shape.len())
    &&& volume(kept_shape(shape, listed(axes, shape.len()))) <= usize::MAX
}

pub proof fn lemma_kept_shape(shape: Seq<usize>, axes: Seq<usize>)
    ensures
        broadcasts_to(kept_shape(shape, axes), shape),
{
}

/// Dropping axes of length 1 keeps the number of elements.
pub proof fn lemma_dropped_volume(shape: Seq<usize>, axes: Seq<usize>)
    ensures
        volume(dropped_shape(shape, axes)) == volume(kept_shape(shape, axes)),
    decreases shape.len(),
{
    if shape.len() > 0 {
        let t = shape.drop_last();
        lemma_dropped_volume(t, axes);
        let kept = kept_shape(shape, axes);
        assert(kept.drop_last() =~= kept_shape(t, axes));
        let v = volume(kept_shape(t, axes));
        assert(v * 1 == v) by (nonlinear_arith);
        if !axes.contains((shape.len() - 1) as usize) {
            assert(dropped_shape(shape, axes).drop_last() =~= dropped_shape(t, axes));
        }
    }
}

/// Both shapes depend on which axes are listed, not on their order.
pub proof fn lemma_shapes_by_membership(shape: Seq<usize>, a: Seq<usize>, b: Seq<usize>)
    requires
        shape.len() <= usize::MAX,
        forall|i: usize| #[trigger] a.contains(i) <==> b.contains(i),
    ensures
        kept_shape(shape, a) == kept_shape(shape, b),
        dropped_shape(shape, a) == dropped_shape(shape, b),
    decreases shape.len(),
{
    assert(kept_shape(shape, a) =~= kept_shape(shape, b)) by {
        assert forall|i: int| 0 <= i < shape.len() implies kept_shape(shape, a)[i] == kept_shape(
            shape,
            b,
        )[i] by {
            assert(a.contains(i as usize) <==> b.contains(i as usize));
        }
    }
    if shape.len() > 0 {
        lemma_shapes_by_membership(shape.drop_last(), a, b);
        let m = (shape.len() - 1) as usize;
        assert(a.contains(m) <==> b.contains(m));
    }
}

/// Whether a list of axes in ascending order holds `a`.
fn lists_axis(axes: &Vec<usize>, a: usize) -> (r: bool)
    ensures
        r == axes@.contains(a),
{
    let n: usize = axes.len();
    let mut i: usize = 0;
    while i < n
        invariant
            n == axes@.len(),
            i <= n,
            forall|j: int| 0 <= j < i ==> axes@[j] != a,
        decreases n - i,
    {
        if axes[i] == a {
            assert(axes@[i as int] == a);
            return true;
        }
        i = i + 1;
    }
    false
}

/// The shape of a sum over `axes`, with and without the summed axes.
pub fn summed_shapes(shape: &[usize], axes: &Vec<usize>) -> (r: (Vec<usize>, Vec<usize>))
    ensures
        r.0@ == kept_shape(shape@, axes@),
        r.1@ == dropped_shape(shape@, axes@),
{
    let n: usize = shape.len();
    let mut kept: Vec<usize> = Vec::new();
    let mut dropped: Vec<usize> = Vec::new();
    let mut i: usize = 0;
    proof {
        assert(shape@.take(0) =~= Seq::<usize>::empty());
    }
    while i < n
        invariant
            n == shape@.len(),
            i <= n,
            kept@ == kept_shape(shape@, axes@).take(i as int),
            dropped@ == dropped_shape(shape@.take(i as int), axes@),
        decreases n - i,
    {
        proof {
            assert(shape@.take(i + 1).drop_last() =~= shape@.take(i as int));
            let all = kept_shape(shape@, axes@);
            assert(all.take(i + 1) =~= all.take(i as int).push(all[i as int]));
        }
        if lists_axis(axes, i) {
            kept.push(1);
        } else {
            kept.push(shape[i]);
            dropped.push(shape[i]);
        }
        i = i + 1;
    }
    proof {
        assert(shape@.take(n as int) =~= shape@);
        let all = kept_shape(shape@, axes@);
        assert(all.take(n as int) =~= all);
    }
    (kept, dropped)
}

/// Sums an array over `axes`.
pub fn sum_array<T: Scalar>(x: &Tensor<T>, axes: &Axes, keepdims: bool) -> (r: Tensor<T>)
    requires
        x.wf(),
        sum_fits(x@.shape, axes@),
    ensures
        r.wf(),
        r@ == sum_spec(x@, axes@, keepdims),
        r@.shape == sum_shape(x@.shape, axes@, keepdims),
{
    let resolved = axes.resolve(x.shape.len());
    let ghost over = listed(axes@, x@.shape.len());
    let (kept, dropped) = summed_shapes(x.shape.as_slice(), &resolved);
    proof {
        lemma_shapes_by_membership(x@.shape, resolved@, over);
        lemma_kept_shape(x@.shape, over);
        lemma_dropped_volume(x@.shape, over);
    }
    let y = crate::utils::shape::sum_to(x, kept.as_slice());
    if keepdims {
        y
    } else {
        y.reshaped(dropped.as_slice())
    }
}

// ---------------------------------------------------------------------------
// operations
// ---------------------------------------------------------------------------
/// The sum over axes as an operation.
#[derive(Debug)]
pub struct Sum {
    pub axis: Axes,
    pub keepdims: bool,
}

impl Sum {
    pub fn new<A: Into<Axes>>(axis: A, keepdims: bool) -> (r: Sum)
        ensures
            call_ensures(A::into, (axis,), r.axis),
            r.keepdims == keepdims,
    {
        Sum { axis: axis.into(), keepdims }
    }
}

/// Summing down to a shape as an operation.
#[derive(Debug)]
pub struct SumTo {
    pub shape: Vec<usize>,
}

impl SumTo {
    pub fn new(shape: &[usize]) -> (r: SumTo)
        ensures
            r.shape@ == shape@,
    {
        SumTo { shape: copy_of(shape) }
    }
}

/// Spreading over a shape as an operation.
#[derive(Debug)]
pub struct BroadcastTo {
    pub shape: Vec<usize>,
}

impl BroadcastTo {
    pub fn new(shape: &[usize]) -> (r: BroadcastTo)
        ensures
            r.shape@ == shape@,
    {
        BroadcastTo { shape: copy_of(shape) }
    }
}

/// The sum of a variable over `axis`.
pub fn sum<T: Scalar, O: Op<T>, A: Into<Axes>>(
    g: &mut Graph<T, O>,
    x: &Variable,
    axis: A,
    keepdims: bool,
) -> (r: Variable)
    requires
        old(g).wf(),
        holds(*old(g), *x),
        forall|axes: Axes|
            call_ensures(A::into, (axis,), axes) ==> #[trigger] sum_fits(
                held(*old(g), *x).shape,
                axes@,
            ),
    ensures
        exists|axes: Axes| #[trigger]
            call_ensures(A::into, (axis,), axes) && applied(
                *old(g),
                *final(g),
                O::embed(Rule::Sum { axes: axes@, keepdims }),
                seq![*x],
                seq![r],
            ) && derives(
                *old(g),
                *final(g),
                r,
                sum_spec(held(*old(g), *x), axes@, keepdims),
            ),
{
    let op = Sum::new(axis, keepdims);
    let ghost axes = op.axis;
    proof {
        assert(call_ensures(A::into, (axis,), axes));
        assert(sum_fits(held(*g, *x).shape, axes@));
    }
    apply_unary(g, Builtin::Sum(op), x)
}

impl Variable {
    /// [`sum`] as a method.
    pub fn sum<T: Scalar, O: Op<T>, A: Into<Axes>>(
        &self,
        g: &mut Graph<T, O>,
        axis: A,
        keepdims: bool,
    ) -> (r: Variable)
        requires
            old(g).wf(),
            holds(*old(g), *self),
            forall|axes: Axes|
                call_ensures(A::into, (axis,), axes) ==> #[trigger] sum_fits(
                    held(*old(g), *self).shape,
                    axes@,
                ),
        ensures
            exists|axes: Axes| #[trigger]
                call_ensures(A::into, (axis,), axes) && applied(
                    *old(g),
                    *final(g),
                    O::embed(Rule::Sum { axes: axes@, keepdims }),
                    seq![*self],
                    seq![r],
                ) && derives(
                    *old(g),
                    *final(g),
                    r,
                    sum_spec(held(*old(g), *self), axes@, keepdims),
                ),
    {
        sum(g, self, axis, keepdims)
    }
}

/// The sum of a variable over the axes of a list.
pub fn sum_over<T: Scalar, O: Op<T>>(
    g: &mut Graph<T, O>,
    x: &Variable,
    axes: Axes,
    keepdims: bool,
) -> (r: Variable)
    requires
        old(g).wf(),
        holds(*old(g), *x),
        sum_fits(held(*old(g), *x).shape, axes@),
    ensures
        applied(
            *old(g),
            *final(g),
            O::embed(Rule::Sum { axes: axes@, keepdims }),
            seq![*x],
            seq![r],
        ),
        derives(*old(g), *final(g), r, sum_spec(held(*old(g), *x), axes@, keepdims)),
{
    apply_unary(g, Builtin::Sum(Sum { axis: axes, keepdims }), x)
}

/// The sum of all elements.
pub fn sum_all<T: Scalar, O: Op<T>>(g: &mut Graph<T, O>, x: &Variable) -> (r: Variable)
    requires
        old(g).wf(),
        holds(*old(g), *x),
    ensures
        applied(
            *old(g),
            *final(g),
            O::embed(Rule::Sum { axes: None, keepdims: false }),
            seq![*x],
            seq![r],
        ),
        derives(*old(g), *final(g), r, sum_spec(held(*old(g), *x), None, false)),
        held(*final(g), r).shape == Seq::<usize>::empty(),
{
    proof {
        let t = g.node(*x).data->0;
        assert(t.shape.len() == t.shape@.len());
        lemma_all_kept(held(*g, *x).shape);
    }
    sum_over(g, x, Axes::All, false)
}

/// Summing over every axis leaves a single element.
pub proof fn lemma_all_kept(s: Seq<usize>)
    requires
        s.len() <= usize::MAX,
    ensures
        sum_fits(s, None),
        dropped_shape(s, listed(None, s.len())) == Seq::<usize>::empty(),
{
    let all = listed(None, s.len());
    lemma_all_dropped(s, all);
    lemma_dropped_volume(s, all);
}

proof fn lemma_all_dropped(s: Seq<usize>, all: Seq<usize>)
    requires
        s.len() <= all.len() <= usize::MAX,
        forall|i: int| 0 <= i < all.len() ==> #[trigger] all[i] == i,
    ensures
        dropped_shape(s, all) == Seq::<usize>::empty(),
    decreases s.len(),
{
    if s.len() > 0 {
        lemma_all_dropped(s.drop_last(), all);
        assert(all[s.len() - 1] == (s.len() - 1) as usize);
        assert(all.contains((s.len() - 1) as usize));
    }
}

/// A variable summed down to `shape`; the variable itself where the shape is the one
/// it has.
pub fn sum_to<T: Scalar, O: Op<T>>(g: &mut Graph<T, O>, x: &Variable, shape: &[usize]) -> (r:
    Variable)
    requires
        old(g).wf(),
        holds(*old(g), *x),
        broadcasts_to(shape@, held(*old(g), *x).shape),
        volume(shape@) <= usize::MAX,
    ensures
        derives(*old(g), *final(g), r, fold_spec(held(*old(g), *x), shape@)),
        held(*old(g), *x).shape == shape@ ==> r == *x && *final(g) == *old(g),
        held(*old(g), *x).shape != shape@ ==> applied(
            *old(g),
            *final(g),
            O::embed(Rule::SumTo { shape: shape@ }),
            seq![*x],
            seq![r],
        ),
{
    if has_shape(g, x, shape) {
        return *x;
    }
    apply_unary(g, Builtin::SumTo(SumTo::new(shape)), x)
}

/// A variable spread over `shape`; the variable itself where the shape is the one it
/// has.
pub fn broadcast_to<T: Scalar, O: Op<T>>(g: &mut Graph<T, O>, x: &Variable, shape: &[usize]) -> (r:
    Variable)
    requires
        old(g).wf(),
        holds(*old(g), *x),
        broadcasts_to(held(*old(g), *x).shape, shape@),
        volume(shape@) <= usize::MAX,
    ensures
        derives(*old(g), *final(g), r, broadcast_spec(held(*old(g), *x), shape@)),
        held(*old(g), *x).shape == shape@ ==> r == *x && *final(g) == *old(g),
        held(*old(g), *x).shape != shape@ ==> applied(
            *old(g),
            *final(g),
            O::embed(Rule::BroadcastTo { shape: shape@ }),
            seq![*x],
            seq![r],
        ),
{
    if has_shape(g, x, shape) {
        proof {
            crate::engine::graph::lemma_nodes_ok(*g);
            assert(g.nodes@[x.id as int].data is Some);
            broadcasting_to_the_same_shape_is_the_identity(held(*g, *x));
        }
        return *x;
    }
    apply_unary(g, Builtin::BroadcastTo(BroadcastTo::new(shape)), x)
}

} // verus!
