//! Dense arrays in row-major order.
use crate::index::{
    checked_volume, in_bounds, lemma_offset_bound, lemma_unravel, lemma_unravel_offset, offset,
    ravel, to_int, unravel, unravel_index, volume,
};
use crate::remap::{gather, gather_through, maps_into};
use crate::scalar::Scalar;
use vstd::prelude::*;

verus! {

/// The mathematical array: a shape, and the elements in row-major order.
#[verifier::ext_equal]
pub struct Array<T> {
    pub shape: Seq<usize>,
    pub data: Seq<T>,
}

impl<T> Array<T> {
    /// There are as many elements as the shape says, and no more than can be
    /// counted.
    pub open spec fn wf(self) -> bool {
        &&& self.data.len() == volume(self.shape)
        &&& self.data.len() <= usize::MAX
    }

    /// The element at a multi-index.
    pub open spec fn at(self, idx: Seq<int>) -> T {
        self.data[offset(self.shape, idx)]
    }
}

/// A dense array.
#[derive(Debug, Clone, PartialEq)]
pub struct Tensor<T> {
    pub shape: Vec<usize>,
    pub data: Vec<T>,
}

impl<T> View for Tensor<T> {
    type V = Array<T>;

    open spec fn view(&self) -> Array<T> {
        Array { shape: self.shape@, data: self.data@ }
    }
}

/// A copy of a list of integers.
pub fn copy_of(xs: &[usize]) -> (r: Vec<usize>)
    ensures
        r@ == xs@,
{
    let n: usize = xs.len();
    let mut r: Vec<usize> = Vec::new();
    let mut i: usize = 0;
    while i < n
        invariant
            n == xs@.len(),
            i <= n,
            r@ == xs@.take(i as int),
        decreases n - i,
    {
        r.push(xs[i]);
        proof {
            assert(xs@.take(i + 1) =~= xs@.take(i as int).push(xs@[i as int]));
        }
        i = i + 1;
    }
    proof {
        assert(xs@.take(n as int) =~= xs@);
    }
    r
}

/// Whether two lists of integers are equal.
pub fn same(a: &[usize], b: &[usize]) -> (r: bool)
    ensures
        r == (a@ == b@),
{
    if a.len() != b.len() {
        return false;
    }
    let n: usize = a.len();
    let mut i: usize = 0;
    while i < n
        invariant
            n == a@.len(),
            n == b@.len(),
            i <= n,
            forall|j: int| 0 <= j < i ==> a@[j] == b@[j],
        decreases n - i,
    {
        if a[i] != b[i] {
            return false;
        }
        i = i + 1;
    }
    proof {
        assert(a@ =~= b@);
    }
    true
}

/// An array with the same element everywhere.
pub open spec fn full_spec<T>(shape: Seq<usize>, value: T) -> Array<T> {
    Array { shape, data: Seq::new(volume(shape), |k: int| value) }
}

/// The array without axes that holds just `value`.
pub open spec fn scalar_spec<T>(value: T) -> Array<T> {
    Array { shape: Seq::empty(), data: seq![value] }
}

/// The same elements under another shape.
pub open spec fn reshape_spec<T>(x: Array<T>, shape: Seq<usize>) -> Array<T> {
    Array { shape, data: x.data }
}

/// The axis lengths of `shape` in the order that `axes` lists them.
pub open spec fn permuted(shape: Seq<usize>, axes: Seq<usize>) -> Seq<usize> {
    Seq::new(axes.len(), |i: int| shape[axes[i] as int])
}

/// Whether `axes` lists each of the first `n` axes exactly once.
pub open spec fn is_permutation(axes: Seq<usize>, n: nat) -> bool {
    &&& axes.len() == n <= usize::MAX
    &&& forall|i: int| 0 <= i < n ==> #[trigger] axes[i] < n
    &&& forall|i: int, j: int| 0 <= i < j < n ==> #[trigger] axes[i] != #[trigger] axes[j]
    &&& forall|a: int| 0 <= a < n ==> #[trigger] axes.contains(a as usize)
}

/// The multi-index from which `idx` reads once the axes are reordered: what `idx`
/// holds at place `i` belongs to axis `axes[i]`.
pub open spec fn unpermuted(idx: Seq<int>, axes: Seq<usize>) -> Seq<int> {
    Seq::new(axes.len(), |a: int| idx[axes.index_of(a as usize)])
}

/// The position from which position `k` of the reordered array reads.
pub open spec fn permute_source(shape: Seq<usize>, axes: Seq<usize>, k: int) -> int {
    offset(shape, unpermuted(unravel(permuted(shape, axes), k), axes))
}

pub open spec fn permute_map(shape: Seq<usize>, axes: Seq<usize>) -> Seq<Option<usize>> {
    Seq::new(
        volume(permuted(shape, axes)),
        |k: int| Some(permute_source(shape, axes, k) as usize),
    )
}

/// The array with its axes in the order that `axes` lists them.
pub open spec fn permute_spec<T: Scalar>(x: Array<T>, axes: Seq<usize>) -> Array<T> {
    Array { shape: permuted(x.shape, axes), data: gather(x.data, permute_map(x.shape, axes)) }
}

/// The axes from last to first.
pub open spec fn reversed_axes(n: nat) -> Seq<usize> {
    Seq::new(n, |i: int| (n - 1 - i) as usize)
}

/// The array with its axes in reverse order.
pub open spec fn transpose_spec<T: Scalar>(x: Array<T>) -> Array<T> {
    permute_spec(x, reversed_axes(x.shape.len()))
}

/// Taking an axis out divides the number of elements by its length.
proof fn lemma_volume_remove(s: Seq<usize>, m: int)
    requires
        0 <= m < s.len(),
    ensures
        volume(s) == volume(s.remove(m)) * (s[m] as nat),
    decreases s.len(),
{
    if m == s.len() - 1 {
        assert(s.remove(m) =~= s.drop_last());
    } else {
        let t = s.drop_last();
        lemma_volume_remove(t, m);
        assert(s.remove(m).drop_last() =~= t.remove(m));
        assert(s.remove(m).last() == s.last());
        let v = volume(t.remove(m));
        let a = s[m] as nat;
        let b = s.last() as nat;
        assert((v * a) * b == (v * b) * a) by (nonlinear_arith);
    }
}

/// Reordering the axes keeps the number of elements.
pub proof fn lemma_volume_permuted(s: Seq<usize>, axes: Seq<usize>)
    requires
        is_permutation(axes, s.len()),
    ensures
        volume(permuted(s, axes)) == volume(s),
    decreases s.len(),
{
    let n = s.len();
    if n == 0 {
        assert(permuted(s, axes) =~= s);
    } else {
        let m = axes.last();
        assert(axes[n - 1] < n);
        let t = s.remove(m as int);
        let rest = Seq::new(
            (n - 1) as nat,
            |i: int|
                if axes[i] > m {
                    (axes[i] - 1) as usize
                } else {
                    axes[i]
                },
        );
        assert forall|i: int| 0 <= i < n - 1 implies #[trigger] rest[i] < n - 1 by {
            assert(axes[i] != axes[n - 1]);
        }
        assert forall|i: int, j: int| 0 <= i < j < n - 1 implies #[trigger] rest[i]
            != #[trigger] rest[j] by {
            assert(axes[i] != axes[j]);
            assert(axes[i] != axes[n - 1]);
            assert(axes[j] != axes[n - 1]);
        }
        assert forall|a: int| 0 <= a < n - 1 implies #[trigger] rest.contains(a as usize) by {
            let b: int = if a >= m {
                a + 1
            } else {
                a
            };
            assert(axes.contains(b as usize));
            let i = axes.index_of(b as usize);
            assert(axes[i] == b as usize);
            assert(i != n - 1);
            assert(rest[i] == a as usize);
        }
        lemma_volume_permuted(t, rest);
        let p = permuted(s, axes);
        assert(p.drop_last() =~= permuted(t, rest)) by {
            assert forall|i: int| 0 <= i < n - 1 implies p[i] == permuted(t, rest)[i] by {
                assert(axes[i] != axes[n - 1]);
            }
        }
        lemma_volume_remove(s, m as int);
    }
}

/// An index into the reordered array reads within bounds.
pub proof fn lemma_unpermuted(s: Seq<usize>, axes: Seq<usize>, idx: Seq<int>)
    requires
        is_permutation(axes, s.len()),
        in_bounds(permuted(s, axes), idx),
    ensures
        in_bounds(s, unpermuted(idx, axes)),
        forall|i: int|
            0 <= i < s.len() ==> unpermuted(idx, axes)[#[trigger] axes[i] as int] == idx[i],
{
    let src = unpermuted(idx, axes);
    assert forall|a: int| 0 <= a < s.len() implies 0 <= #[trigger] src[a] < s[a] by {
        assert(axes.contains(a as usize));
        let i = axes.index_of(a as usize);
        assert(axes[i] == a as usize);
        assert(0 <= idx[i] < permuted(s, axes)[i]);
    }
    assert forall|i: int| 0 <= i < s.len() implies src[#[trigger] axes[i] as int] == idx[i] by {
        let a = axes[i];
        assert(axes.contains(a));
        let j = axes.index_of(a);
        assert(axes[j] == a);
        if i < j {
            assert(axes[i] != axes[j]);
        } else if j < i {
            assert(axes[j] != axes[i]);
        }
    }
}

pub proof fn lemma_permute_map(s: Seq<usize>, axes: Seq<usize>)
    requires
        is_permutation(axes, s.len()),
        volume(s) <= usize::MAX,
    ensures
        permute_map(s, axes).len() == volume(s),
        maps_into(permute_map(s, axes), volume(s)),
        forall|k: int|
            0 <= k < volume(s) ==> 0 <= #[trigger] permute_source(s, axes, k) < volume(s),
{
    lemma_volume_permuted(s, axes);
    let out = permuted(s, axes);
    assert forall|k: int| 0 <= k < volume(s) implies 0 <= #[trigger] permute_source(s, axes, k)
        < volume(s) by {
        lemma_unravel(out, k);
        lemma_unpermuted(s, axes, unravel(out, k));
        lemma_offset_bound(s, unpermuted(unravel(out, k), axes));
    }
}

/// Reordering the axes by `p` and then by its inverse `q` gives the array back.
pub proof fn permuting_back_is_the_identity<T: Scalar>(
    x: Array<T>,
    p: Seq<usize>,
    q: Seq<usize>,
)
    requires
        x.wf(),
        is_permutation(p, x.shape.len()),
        is_permutation(q, x.shape.len()),
        forall|i: int| 0 <= i < p.len() ==> q[#[trigger] p[i] as int] == i,
    ensures
        permute_spec(permute_spec(x, p), q) == x,
{
    let s = x.shape;
    let n = s.len();
    let mid = permuted(s, p);
    let y = permute_spec(x, p);
    let z = permute_spec(y, q);
    lemma_permute_map(s, p);
    lemma_volume_permuted(s, p);
    lemma_permute_map(mid, q);
    lemma_volume_permuted(mid, q);
    assert forall|i: int| 0 <= i < n implies p[q[i] as int] == i by {
        assert(p.contains(i as usize));
        let j = p.index_of(i as usize);
        assert(p[j] == i as usize);
        assert(q[p[j] as int] == j);
    }
    assert(z.shape =~= s) by {
        assert forall|i: int| 0 <= i < n implies z.shape[i] == s[i] by {
            assert(q[i] < n);
            assert(p[q[i] as int] == i);
        }
    }
    assert(z.data =~= x.data) by {
        assert forall|k: int| 0 <= k < x.data.len() implies z.data[k] == x.data[k] by {
            let idx = unravel(s, k);
            lemma_unravel(s, k);
            let jdx = unpermuted(idx, q);
            assert(permuted(mid, q) =~= s);
            lemma_unpermuted(mid, q, idx);
            let m = offset(mid, jdx);
            lemma_offset_bound(mid, jdx);
            assert(permute_map(mid, q)[k] == Some(m as usize));
            assert(z.data[k] == y.data[m]);
            lemma_unravel_offset(mid, jdx);
            assert(unravel(mid, m) == jdx);
            lemma_unpermuted(s, p, jdx);
            let back = unpermuted(jdx, p);
            assert(back =~= idx) by {
                assert forall|a: int| 0 <= a < n implies back[a] == idx[a] by {
                    assert(p.contains(a as usize));
                    let i = p.index_of(a as usize);
                    assert(p[i] == a as usize);
                    assert(back[p[i] as int] == jdx[i]);
                    assert(q[p[i] as int] == i);
                    assert(jdx[q[a] as int] == idx[a]);
                }
            }
            assert(permute_map(s, p)[m] == Some(offset(s, back) as usize));
        }
    }
}

pub proof fn lemma_reversed_axes(n: nat)
    requires
        n <= usize::MAX,
    ensures
        is_permutation(reversed_axes(n), n),
        forall|i: int|
            0 <= i < n ==> reversed_axes(n)[#[trigger] reversed_axes(n)[i] as int] == i,
{
    let r = reversed_axes(n);
    assert forall|a: int| 0 <= a < n implies #[trigger] r.contains(a as usize) by {
        assert(r[n - 1 - a] == a as usize);
    }
}

/// Transposing twice gives the array back.
pub proof fn transposing_twice_is_the_identity<T: Scalar>(x: Array<T>)
    requires
        x.wf(),
        x.shape.len() <= usize::MAX,
    ensures
        transpose_spec(transpose_spec(x)) == x,
{
    lemma_reversed_axes(x.shape.len());
    let r = reversed_axes(x.shape.len());
    permuting_back_is_the_identity(x, r, r);
}

impl<T> Tensor<T> {
    pub open spec fn wf(self) -> bool {
        self@.wf()
    }

    /// An array of the given shape, or `None` where the number of elements is not
    /// what the shape asks for.
    pub fn from_shape_vec(shape: Vec<usize>, data: Vec<T>) -> (r: Option<Tensor<T>>)
        ensures
            r.is_some() <==> data@.len() == volume(shape@),
            r matches Some(t) ==> t.wf() && t@ == (Array { shape: shape@, data: data@ }),
    {
        let n: usize = data.len();
        match checked_volume(shape.as_slice()) {
            Some(v) => {
                if v == n {
                    Some(Tensor { shape, data })
                } else {
                    None
                }
            },
            None => None,
        }
    }

    pub fn shape(&self) -> (r: &Vec<usize>)
        ensures
            r@ == self@.shape,
    {
        &self.shape
    }

    /// The elements in row-major order.
    pub fn data(&self) -> (r: &Vec<T>)
        ensures
            r@ == self@.data,
    {
        &self.data
    }

    pub fn ndim(&self) -> (r: usize)
        ensures
            r == self@.shape.len(),
    {
        self.shape.len()
    }

    /// The number of elements.
    pub fn size(&self) -> (r: usize)
        ensures
            r == self@.data.len(),
    {
        self.data.len()
    }
}

impl<T: Scalar> Tensor<T> {
    pub fn duplicate(&self) -> (r: Tensor<T>)
        ensures
            r@ == self@,
    {
        let n: usize = self.data.len();
        let mut data: Vec<T> = Vec::new();
        let mut i: usize = 0;
        while i < n
            invariant
                n == self.data@.len(),
                i <= n,
                data@ == self.data@.take(i as int),
            decreases n - i,
        {
            data.push(self.data[i]);
            proof {
                assert(self.data@.take(i + 1) =~= self.data@.take(i as int).push(
                    self.data@[i as int],
                ));
            }
            i = i + 1;
        }
        proof {
            assert(self.data@.take(n as int) =~= self.data@);
        }
        Tensor { shape: copy_of(self.shape.as_slice()), data }
    }

    pub fn full(shape: &[usize], value: T) -> (r: Tensor<T>)
        requires
            volume(shape@) <= usize::MAX,
        ensures
            r.wf(),
            r@ == full_spec(shape@, value),
    {
        let n: usize = match checked_volume(shape) {
            Some(v) => v,
            None => 0,
        };
        let mut data: Vec<T> = Vec::new();
        let mut i: usize = 0;
        while i < n
            invariant
                i <= n,
                data@.len() == i,
                forall|j: int| 0 <= j < i ==> #[trigger] data@[j] == value,
            decreases n - i,
        {
            data.push(value);
            i = i + 1;
        }
        proof {
            assert(data@ =~= full_spec(shape@, value).data);
        }
        Tensor { shape: copy_of(shape), data }
    }

    pub fn scalar(value: T) -> (r: Tensor<T>)
        ensures
            r.wf(),
            r@ == scalar_spec(value),
    {
        let mut data: Vec<T> = Vec::new();
        data.push(value);
        let shape: Vec<usize> = Vec::new();
        proof {
            assert(shape@ =~= Seq::<usize>::empty());
            assert(data@ =~= seq![value]);
        }
        Tensor { shape, data }
    }

    pub fn reshaped(&self, shape: &[usize]) -> (r: Tensor<T>)
        requires
            self.wf(),
            volume(shape@) == volume(self@.shape),
        ensures
            r.wf(),
            r@ == reshape_spec(self@, shape@),
    {
        let copy = self.duplicate();
        Tensor { shape: copy_of(shape), data: copy.data }
    }

    pub fn permuted_axes(&self, axes: &[usize]) -> (r: Tensor<T>)
        requires
            self.wf(),
            is_permutation(axes@, self@.shape.len()),
        ensures
            r.wf(),
            r@ == permute_spec(self@, axes@),
    {
        let ghost s = self@.shape;
        let ghost want = permute_map(s, axes@);
        let n: usize = axes.len();
        let mut shape: Vec<usize> = Vec::new();
        let mut i: usize = 0;
        while i < n
            invariant
                n == axes@.len(),
                i <= n,
                s == self.shape@,
                is_permutation(axes@, s.len()),
                shape@.len() == i,
                forall|j: int| 0 <= j < i ==> #[trigger] shape@[j] == s[axes@[j] as int],
            decreases n - i,
        {
            assert(axes@[i as int] < n);
            shape.push(self.shape[axes[i]]);
            i = i + 1;
        }
        proof {
            assert(shape@ =~= permuted(s, axes@));
            lemma_permute_map(s, axes@);
            lemma_volume_permuted(s, axes@);
        }
        let total: usize = self.data.len();
        let mut map: Vec<Option<usize>> = Vec::new();
        let mut k: usize = 0;
        while k < total
            invariant
                k <= total,
                total == volume(s),
                total == volume(shape@),
                s == self.shape@,
                n == axes@.len(),
                is_permutation(axes@, s.len()),
                shape@ == permuted(s, axes@),
                want == permute_map(s, axes@),
                map@ == want.take(k as int),
                want.len() == total,
            decreases total - k,
        {
            let idx: Vec<usize> = unravel_index(shape.as_slice(), k);
            let mut src: Vec<usize> = copy_of(idx.as_slice());
            let mut i: usize = 0;
            while i < n
                invariant
                    i <= n,
                    n == axes@.len(),
                    n == src@.len(),
                    n == idx@.len(),
                    is_permutation(axes@, n as nat),
                    forall|j: int| 0 <= j < i ==> src@[#[trigger] axes@[j] as int] == idx@[j],
                decreases n - i,
            {
                assert(axes@[i as int] < n);
                src.set(axes[i], idx[i]);
                proof {
                    assert forall|j: int| 0 <= j < i + 1 implies src@[#[trigger] axes@[j] as int]
                        == idx@[j] by {
                        if j < i {
                            assert(axes@[j] != axes@[i as int]);
                            assert(axes@[j] < n);
                        }
                    }
                }
                i = i + 1;
            }
            proof {
                let ui = to_int(idx@);
                let want_src = unpermuted(ui, axes@);
                lemma_unpermuted(s, axes@, ui);
                assert(to_int(src@) =~= want_src) by {
                    assert forall|a: int| 0 <= a < n implies to_int(src@)[a] == want_src[a] by {
                        assert(axes@.contains(a as usize));
                        let j = axes@.index_of(a as usize);
                        assert(axes@[j] == a as usize);
                        assert(src@[axes@[j] as int] == idx@[j]);
                    }
                }
            }
            let o: usize = ravel(self.shape.as_slice(), src.as_slice());
            map.push(Some(o));
            proof {
                assert(want[k as int] == Some(o));
                assert(want.take(k + 1) =~= want.take(k as int).push(want[k as int]));
            }
            k = k + 1;
        }
        proof {
            assert(want.take(total as int) =~= want);
        }
        let data = gather_through(&self.data, &map);
        Tensor { shape, data }
    }

    pub fn transposed(&self) -> (r: Tensor<T>)
        requires
            self.wf(),
        ensures
            r.wf(),
            r@ == transpose_spec(self@),
    {
        let n: usize = self.shape.len();
        let mut axes: Vec<usize> = Vec::new();
        let mut i: usize = 0;
        while i < n
            invariant
                i <= n,
                axes@.len() == i,
                forall|j: int| 0 <= j < i ==> #[trigger] axes@[j] == n - 1 - j,
            decreases n - i,
        {
            axes.push(n - 1 - i);
            i = i + 1;
        }
        proof {
            assert(axes@ =~= reversed_axes(n as nat));
            lemma_reversed_axes(n as nat);
        }
        self.permuted_axes(axes.as_slice())
    }
}

} // verus!
