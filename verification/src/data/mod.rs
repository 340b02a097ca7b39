//! Datasets, and what a dataset is.

pub mod dataloader;
pub mod idx;
pub mod mnist;
pub mod spiral;

use crate::index::volume;
use crate::scalar::Scalar;
use crate::tensor::{Array, Tensor};
use vstd::prelude::*;

verus! {

/// A finite, indexable collection of examples.
///
/// The two halves of an example are stated as relations, because a transform
/// between the store and the reader need not be a function.
pub trait Dataset<T: Scalar> {
    /// The examples can be read.
    closed spec fn valid(&self) -> bool {
        arbitrary()
    }

    /// The number of examples.
    closed spec fn size(&self) -> nat {
        arbitrary()
    }

    /// Whether `x` can be the input half of example `i`.
    closed spec fn yields(&self, i: int, x: Array<T>) -> bool {
        arbitrary()
    }

    /// Whether `t` can be the label of example `i`, `None` being no label.
    closed spec fn labels(&self, i: int, t: Option<usize>) -> bool {
        arbitrary()
    }

    /// The number of examples.
    fn len(&self) -> (r: usize)
        requires
            self.valid(),
        ensures
            r == self.size(),
    ;

    /// The input half of example `index`.
    fn input(&self, index: usize) -> (r: Tensor<T>)
        requires
            self.valid(),
            index < self.size(),
        ensures
            r.wf(),
            self.yields(index as int, r@),
    ;

    /// The class label of example `index`, or `None` for an unlabelled dataset.
    fn label(&self, index: usize) -> (r: Option<usize>)
        requires
            self.valid(),
            index < self.size(),
        ensures
            self.labels(index as int, r),
    ;

    /// Whether the dataset holds no examples at all.
    fn is_empty(&self) -> (r: bool)
        requires
            self.valid(),
        ensures
            r == (self.size() == 0),
    {
        self.len() == 0
    }

    /// The same dataset with every input put through `transform`.
    fn map_input<F: Fn(Tensor<T>) -> Tensor<T>>(self, transform: F) -> (r: MapInput<Self, F>) where
        Self: Sized,

        ensures
            r.inner == self,
            r.transform == transform,
    {
        MapInput { inner: self, transform }
    }

    /// The same dataset with every label put through `transform`.
    fn map_label<F: Fn(usize) -> usize>(self, transform: F) -> (r: MapLabel<Self, F>) where
        Self: Sized,

        ensures
            r.inner == self,
            r.transform == transform,
    {
        MapLabel { inner: self, transform }
    }
}

/// A dataset whose inputs pass through a transform.
#[derive(Debug, Clone)]
pub struct MapInput<D, F> {
    pub inner: D,
    pub transform: F,
}

impl<D, F> MapInput<D, F> {
    /// The dataset underneath the transform.
    pub fn inner(&self) -> (r: &D)
        ensures
            *r == self.inner,
    {
        &self.inner
    }
}

/// Whether `z` can be what `f` makes of an array with the view `x`.
pub open spec fn transforms<T: Scalar, F: Fn(Tensor<T>) -> Tensor<T>>(
    f: F,
    x: Array<T>,
    z: Array<T>,
) -> bool {
    exists|a: Tensor<T>, b: Tensor<T>|
        a@ == x && b@ == z && #[trigger] call_ensures(f, (a,), b)
}

impl<T: Scalar, D: Dataset<T>, F: Fn(Tensor<T>) -> Tensor<T>> Dataset<T> for MapInput<D, F> {
    /// The transform takes every input, and gives an array for it.
    open spec fn valid(&self) -> bool {
        &&& self.inner.valid()
        &&& forall|i: int, a: Tensor<T>|
            0 <= i < self.inner.size() && a.wf() && #[trigger] self.inner.yields(i, a@)
                ==> call_requires(self.transform, (a,))
        &&& forall|a: Tensor<T>, b: Tensor<T>| #[trigger]
            call_ensures(self.transform, (a,), b) ==> b.wf()
    }

    open spec fn size(&self) -> nat {
        self.inner.size()
    }

    open spec fn yields(&self, i: int, x: Array<T>) -> bool {
        exists|a: Array<T>|
            #[trigger] self.inner.yields(i, a) && transforms(self.transform, a, x)
    }

    open spec fn labels(&self, i: int, t: Option<usize>) -> bool {
        self.inner.labels(i, t)
    }

    fn len(&self) -> (r: usize) {
        self.inner.len()
    }

    fn input(&self, index: usize) -> (r: Tensor<T>) {
        let a = self.inner.input(index);
        let ghost before = a;
        let b = (self.transform)(a);
        assert(call_ensures(self.transform, (before,), b));
        assert(transforms(self.transform, before@, b@));
        assert(self.inner.yields(index as int, before@));
        b
    }

    fn label(&self, index: usize) -> (r: Option<usize>) {
        self.inner.label(index)
    }
}

/// A dataset whose labels pass through a transform.
#[derive(Debug, Clone)]
pub struct MapLabel<D, F> {
    pub inner: D,
    pub transform: F,
}

impl<D, F> MapLabel<D, F> {
    /// The dataset underneath the transform.
    pub fn inner(&self) -> (r: &D)
        ensures
            *r == self.inner,
    {
        &self.inner
    }
}

/// Whether `t` can be what `f` makes of the label `s`, no label staying none.
pub open spec fn relabels<F: Fn(usize) -> usize>(f: F, s: Option<usize>, t: Option<usize>) -> bool {
    match (s, t) {
        (Some(a), Some(b)) => call_ensures(f, (a,), b),
        (None, None) => true,
        _ => false,
    }
}

impl<T: Scalar, D: Dataset<T>, F: Fn(usize) -> usize> Dataset<T> for MapLabel<D, F> {
    /// The transform takes every label.
    open spec fn valid(&self) -> bool {
        &&& self.inner.valid()
        &&& forall|i: int, a: usize|
            0 <= i < self.inner.size() && #[trigger] self.inner.labels(i, Some(a))
                ==> call_requires(self.transform, (a,))
    }

    open spec fn size(&self) -> nat {
        self.inner.size()
    }

    open spec fn yields(&self, i: int, x: Array<T>) -> bool {
        self.inner.yields(i, x)
    }

    open spec fn labels(&self, i: int, t: Option<usize>) -> bool {
        exists|s: Option<usize>| #[trigger] self.inner.labels(i, s) && relabels(self.transform, s, t)
    }

    fn len(&self) -> (r: usize) {
        self.inner.len()
    }

    fn input(&self, index: usize) -> (r: Tensor<T>) {
        self.inner.input(index)
    }

    fn label(&self, index: usize) -> (r: Option<usize>) {
        let s = self.inner.label(index);
        assert(self.inner.labels(index as int, s));
        match s {
            Some(a) => {
                let b: usize = (self.transform)(a);
                assert(relabels(self.transform, s, Some(b)));
                Some(b)
            },
            None => {
                assert(relabels(self.transform, s, None));
                None
            },
        }
    }
}

/// The elements of the arrays, one array after the other.
pub open spec fn laid_out<T: Scalar>(rows: Seq<Array<T>>) -> Seq<T>
    decreases rows.len(),
{
    if rows.len() == 0 {
        Seq::empty()
    } else {
        laid_out(rows.drop_last()) + rows.last().data
    }
}

/// Equally-shaped arrays along a new leading axis; no arrays give an empty one.
pub open spec fn stacked<T: Scalar>(rows: Seq<Array<T>>) -> Array<T> {
    if rows.len() == 0 {
        Array { shape: seq![0usize], data: Seq::empty() }
    } else {
        Array { shape: seq![rows.len() as usize] + rows[0].shape, data: laid_out(rows) }
    }
}

/// The arrays behind a list of tensors.
pub open spec fn contents<T>(rows: Seq<Tensor<T>>) -> Seq<Array<T>> {
    Seq::new(rows.len(), |i: int| rows[i]@)
}

/// Every array has the shape `shape`.
pub open spec fn all_shaped<T>(rows: Seq<Array<T>>, shape: Seq<usize>) -> bool {
    forall|i: int| 0 <= i < rows.len() ==> (#[trigger] rows[i]).shape == shape
}

/// A leading axis multiplies the number of elements.
pub proof fn lemma_leading_axis(n: usize, shape: Seq<usize>)
    ensures
        volume(seq![n] + shape) == n * volume(shape),
    decreases shape.len(),
{
    let whole = seq![n] + shape;
    if shape.len() == 0 {
        assert(whole =~= seq![n]);
        assert(whole.drop_last() =~= Seq::<usize>::empty());
        assert(volume(Seq::<usize>::empty()) == 1);
        assert(volume(whole) == 1 * n);
        let v = volume(shape);
        assert(n * v == n) by (nonlinear_arith)
            requires
                v == 1,
        ;
    } else {
        lemma_leading_axis(n, shape.drop_last());
        assert(whole.drop_last() =~= seq![n] + shape.drop_last());
        let v = volume(shape.drop_last());
        let l = shape.last() as nat;
        assert(whole.last() == shape.last());
        assert(volume(whole) == (n * v) * l);
        assert(volume(shape) == v * l);
        assert((n * v) * l == n * (v * l)) by (nonlinear_arith);
        assert(volume(whole) == n * volume(shape));
    }
}

proof fn lemma_laid_out<T: Scalar>(rows: Seq<Array<T>>, shape: Seq<usize>)
    requires
        all_shaped(rows, shape),
        forall|i: int| 0 <= i < rows.len() ==> (#[trigger] rows[i]).wf(),
    ensures
        laid_out(rows).len() == rows.len() * volume(shape),
    decreases rows.len(),
{
    let v = volume(shape);
    if rows.len() == 0 {
        assert(0 * v == 0) by (nonlinear_arith);
    } else {
        lemma_laid_out(rows.drop_last(), shape);
        let n = rows.len();
        assert(rows[n - 1].wf());
        assert((n - 1) * v + v == n * v) by (nonlinear_arith);
    }
}

/// Stacks equally-shaped arrays along a new leading axis.
pub fn stack_rows<T: Scalar>(rows: &[Tensor<T>]) -> (r: Tensor<T>)
    requires
        forall|i: int| 0 <= i < rows@.len() ==> (#[trigger] rows@[i]).wf(),
        rows@.len() > 0 ==> all_shaped(contents(rows@), rows@[0]@.shape),
        rows@.len() > 0 ==> rows@.len() * volume(rows@[0]@.shape) <= usize::MAX,
    ensures
        r@ == stacked(contents(rows@)),
        r.wf(),
{
    let n: usize = rows.len();
    if n == 0 {
        let shape: Vec<usize> = vec![0];
        let data: Vec<T> = Vec::new();
        proof {
            assert(shape@ =~= seq![0usize]);
            assert(shape@ =~= seq![0usize] + Seq::<usize>::empty());
            lemma_leading_axis(0, Seq::<usize>::empty());
        }
        return Tensor { shape, data };
    }
    let ghost all = contents(rows@);
    let ghost first = rows@[0]@.shape;
    let mut shape: Vec<usize> = vec![n];
    let mut a: usize = 0;
    let dims: usize = rows[0].shape.len();
    while a < dims
        invariant
            n == rows@.len(),
            n > 0,
            first == rows@[0]@.shape,
            dims == first.len(),
            a <= dims,
            shape@ == seq![n] + first.take(a as int),
        decreases dims - a,
    {
        shape.push(rows[0].shape[a]);
        assert(shape@ =~= seq![n] + first.take(a + 1));
        a = a + 1;
    }
    assert(first.take(dims as int) =~= first);
    let mut flat: Vec<T> = Vec::new();
    let mut i: usize = 0;
    assert(all.take(0).len() == 0);
    while i < n
        invariant
            n == rows@.len(),
            all == contents(rows@),
            i <= n,
            flat@ == laid_out(all.take(i as int)),
        decreases n - i,
    {
        let m: usize = rows[i].data.len();
        let mut k: usize = 0;
        let ghost before = flat@;
        while k < m
            invariant
                i < n,
                n == rows@.len(),
                m == rows@[i as int].data@.len(),
                k <= m,
                flat@ == before + rows@[i as int].data@.take(k as int),
            decreases m - k,
        {
            let x: T = rows[i].data[k];
            flat.push(x);
            assert(flat@ =~= before + rows@[i as int].data@.take(k + 1));
            k = k + 1;
        }
        proof {
            let now = all.take(i + 1);
            assert(now.drop_last() =~= all.take(i as int));
            assert(now.last().data == rows@[i as int].data@);
            assert(rows@[i as int].data@.take(m as int) =~= rows@[i as int].data@);
        }
        i = i + 1;
    }
    proof {
        assert(all.take(n as int) =~= all);
        assert forall|j: int| 0 <= j < all.len() implies (#[trigger] all[j]).wf() by {
            assert(rows@[j].wf());
        }
        lemma_laid_out(all, first);
        lemma_leading_axis(n, first);
    }
    Tensor { shape, data: flat }
}

} // verus!
