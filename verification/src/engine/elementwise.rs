//! Elementwise arithmetic on arrays that broadcast together.
use crate::index::volume;
use crate::laws::elements::is_rectified;
use crate::scalar::Scalar;
use crate::tensor::{copy_of, same, Array, Tensor};
use crate::utils::shape::{
    aligned_axis, broadcast_array, broadcast_shape, broadcast_spec, broadcastable,
    broadcasting_to_the_same_shape_is_the_identity, broadcasts_to, joint_shape,
    joint_shape_receives_both, larger,
};
use vstd::prelude::*;

verus! {

/// An arithmetic operation on two elements.
#[derive(Debug, Clone, Copy, PartialEq, Eq, Structural)]
pub enum Arithmetic {
    Plus,
    Minus,
    Times,
    Over,
}

impl Arithmetic {
    pub open spec fn value<T: Scalar>(self, a: T, b: T) -> T {
        match self {
            Arithmetic::Plus => a.plus(b),
            Arithmetic::Minus => a.minus(b),
            Arithmetic::Times => a.times(b),
            Arithmetic::Over => a.over(b),
        }
    }

    pub fn eval<T: Scalar>(self, a: T, b: T) -> (r: T)
        ensures
            r == self.value(a, b),
    {
        match self {
            Arithmetic::Plus => a.add(b),
            Arithmetic::Minus => a.sub(b),
            Arithmetic::Times => a.mul(b),
            Arithmetic::Over => a.div(b),
        }
    }
}

/// `op` applied to the elements of two arrays that have been broadcast together.
pub open spec fn zip_spec<T: Scalar>(op: Arithmetic, a: Array<T>, b: Array<T>) -> Array<T> {
    let shape = joint_shape(a.shape, b.shape);
    Array {
        shape,
        data: Seq::new(
            volume(shape),
            |k: int|
                op.value(broadcast_spec(a, shape).data[k], broadcast_spec(b, shape).data[k]),
        ),
    }
}

/// Whether two shapes broadcast together to one that can be counted.
pub open spec fn zips(a: Seq<usize>, b: Seq<usize>) -> bool {
    &&& broadcastable(a, b)
    &&& volume(joint_shape(a, b)) <= usize::MAX
}

fn zip_aligned<T: Scalar>(op: Arithmetic, a: &Tensor<T>, b: &Tensor<T>) -> (r: Vec<T>)
    requires
        a@.data.len() == b@.data.len(),
    ensures
        r@.len() == a@.data.len(),
        forall|k: int|
            0 <= k < a@.data.len() ==> #[trigger] r@[k] == op.value(a@.data[k], b@.data[k]),
{
    let n: usize = a.data.len();
    let mut r: Vec<T> = Vec::new();
    let mut k: usize = 0;
    while k < n
        invariant
            n == a.data@.len(),
            n == b.data@.len(),
            k <= n,
            r@.len() == k,
            forall|i: int| 0 <= i < k ==> #[trigger] r@[i] == op.value(a.data@[i], b.data@[i]),
        decreases n - k,
    {
        r.push(op.eval(a.data[k], b.data[k]));
        k = k + 1;
    }
    r
}

/// Applies `op` to the elements of two arrays, broadcasting them together first.
pub fn zip_map<T: Scalar>(op: Arithmetic, a: &Tensor<T>, b: &Tensor<T>) -> (r: Tensor<T>)
    requires
        a.wf(),
        b.wf(),
        zips(a@.shape, b@.shape),
    ensures
        r.wf(),
        r@ == zip_spec(op, a@, b@),
{
    proof {
        joint_shape_receives_both(a@.shape, b@.shape);
    }
    if same(a.shape.as_slice(), b.shape.as_slice()) {
        let data = zip_aligned(op, a, b);
        proof {
            lemma_joint_with_itself(a@.shape);
            broadcasting_to_the_same_shape_is_the_identity(a@);
            broadcasting_to_the_same_shape_is_the_identity(b@);
            assert(data@ =~= zip_spec(op, a@, b@).data);
        }
        return Tensor { shape: copy_of(a.shape.as_slice()), data };
    }
    match broadcast_shape(a.shape.as_slice(), b.shape.as_slice()) {
        Some(shape) => {
            let x = broadcast_array(a, shape.as_slice());
            let y = broadcast_array(b, shape.as_slice());
            let data = zip_aligned(op, &x, &y);
            proof {
                assert(data@ =~= zip_spec(op, a@, b@).data);
            }
            Tensor { shape, data }
        },
        None => a.duplicate(),
    }
}

pub proof fn lemma_joint_with_itself(s: Seq<usize>)
    ensures
        broadcastable(s, s),
        joint_shape(s, s) == s,
{
    assert(joint_shape(s, s) =~= s);
}

/// A shape absorbs whatever can be spread over it.
pub proof fn lemma_joint_absorbs(s: Seq<usize>, b: Seq<usize>)
    requires
        broadcasts_to(b, s),
    ensures
        broadcastable(s, b),
        joint_shape(s, b) == s,
        broadcastable(b, s),
        joint_shape(b, s) == s,
{
    let rank = s.len();
    assert(larger(s.len(), b.len()) == rank);
    assert(larger(b.len(), s.len()) == rank);
    assert forall|i: int| 0 <= i < rank implies (#[trigger] aligned_axis(b, rank, i) == 1
        || aligned_axis(b, rank, i) == aligned_axis(s, rank, i)) by {
        if i + b.len() >= rank {
            let j = i + b.len() - rank;
            assert(b[j] == 1 || b[j] == s[j + s.len() - b.len()]);
        }
    }
    assert forall|i: int| 0 <= i < rank implies {
        ||| #[trigger] aligned_axis(s, rank, i) == 1
        ||| aligned_axis(b, rank, i) == 1
        ||| aligned_axis(s, rank, i) == aligned_axis(b, rank, i)
    } by {
        let d = aligned_axis(b, rank, i);
    }
    assert(joint_shape(s, b) =~= s) by {
        assert forall|i: int| 0 <= i < rank implies joint_shape(s, b)[i] == s[i] by {
            let d = aligned_axis(b, rank, i);
        }
    }
    assert(joint_shape(b, s) =~= s) by {
        assert forall|i: int| 0 <= i < rank implies joint_shape(b, s)[i] == s[i] by {
            let d = aligned_axis(b, rank, i);
        }
    }
}

/// The array without axes spreads over every shape.
pub proof fn lemma_scalar_broadcasts(s: Seq<usize>)
    ensures
        broadcasts_to(Seq::<usize>::empty(), s),
{
}

/// Every element negated.
pub open spec fn neg_spec<T: Scalar>(x: Array<T>) -> Array<T> {
    Array { shape: x.shape, data: Seq::new(x.data.len(), |k: int| x.data[k].negated()) }
}

pub fn neg_array<T: Scalar>(x: &Tensor<T>) -> (r: Tensor<T>)
    requires
        x.wf(),
    ensures
        r.wf(),
        r@ == neg_spec(x@),
{
    let n: usize = x.data.len();
    let mut data: Vec<T> = Vec::new();
    let mut k: usize = 0;
    while k < n
        invariant
            n == x.data@.len(),
            k <= n,
            data@.len() == k,
            forall|i: int| 0 <= i < k ==> #[trigger] data@[i] == x.data@[i].negated(),
        decreases n - k,
    {
        data.push(x.data[k].neg());
        k = k + 1;
    }
    proof {
        assert(data@ =~= neg_spec(x@).data);
    }
    Tensor { shape: copy_of(x.shape.as_slice()), data }
}

/// Every element times itself.
pub open spec fn square_spec<T: Scalar>(x: Array<T>) -> Array<T> {
    Array { shape: x.shape, data: Seq::new(x.data.len(), |k: int| x.data[k].times(x.data[k])) }
}

pub fn square_array<T: Scalar>(x: &Tensor<T>) -> (r: Tensor<T>)
    requires
        x.wf(),
    ensures
        r.wf(),
        r@ == square_spec(x@),
{
    let n: usize = x.data.len();
    let mut data: Vec<T> = Vec::new();
    let mut k: usize = 0;
    while k < n
        invariant
            n == x.data@.len(),
            k <= n,
            data@.len() == k,
            forall|i: int| 0 <= i < k ==> #[trigger] data@[i] == x.data@[i].times(x.data@[i]),
        decreases n - k,
    {
        data.push(x.data[k].mul(x.data[k]));
        k = k + 1;
    }
    proof {
        assert(data@ =~= square_spec(x@).data);
    }
    Tensor { shape: copy_of(x.shape.as_slice()), data }
}

/// Every positive element kept, and zero in place of the others.
pub open spec fn relu_spec<T: Scalar>(x: Array<T>) -> Array<T> {
    Array {
        shape: x.shape,
        data: Seq::new(
            x.data.len(),
            |k: int|
                if x.data[k].exceeds(T::zero_spec()) {
                    x.data[k]
                } else {
                    T::zero_spec()
                },
        ),
    }
}

/// One where an element is positive, and zero elsewhere.
pub open spec fn positive_mask_spec<T: Scalar>(x: Array<T>) -> Array<T> {
    Array {
        shape: x.shape,
        data: Seq::new(
            x.data.len(),
            |k: int|
                if x.data[k].exceeds(T::zero_spec()) {
                    T::one_spec()
                } else {
                    T::zero_spec()
                },
        ),
    }
}

pub fn relu_array<T: Scalar>(x: &Tensor<T>) -> (r: Tensor<T>)
    requires
        x.wf(),
    ensures
        r.wf(),
        r@ == relu_spec(x@),
        is_rectified(r@, x@),
{
    let n: usize = x.data.len();
    let mut data: Vec<T> = Vec::new();
    let mut k: usize = 0;
    while k < n
        invariant
            n == x.data@.len(),
            k <= n,
            data@.len() == k,
            forall|i: int| 0 <= i < k ==> #[trigger] data@[i] == relu_spec(x@).data[i],
        decreases n - k,
    {
        if x.data[k].gt(T::zero()) {
            data.push(x.data[k]);
        } else {
            data.push(T::zero());
        }
        k = k + 1;
    }
    proof {
        assert(data@ =~= relu_spec(x@).data);
    }
    Tensor { shape: copy_of(x.shape.as_slice()), data }
}

pub fn positive_mask<T: Scalar>(x: &Tensor<T>) -> (r: Tensor<T>)
    requires
        x.wf(),
    ensures
        r.wf(),
        r@ == positive_mask_spec(x@),
{
    let n: usize = x.data.len();
    let mut data: Vec<T> = Vec::new();
    let mut k: usize = 0;
    while k < n
        invariant
            n == x.data@.len(),
            k <= n,
            data@.len() == k,
            forall|i: int| 0 <= i < k ==> #[trigger] data@[i] == positive_mask_spec(x@).data[i],
        decreases n - k,
    {
        if x.data[k].gt(T::zero()) {
            data.push(T::one());
        } else {
            data.push(T::zero());
        }
        k = k + 1;
    }
    proof {
        assert(data@ =~= positive_mask_spec(x@).data);
    }
    Tensor { shape: copy_of(x.shape.as_slice()), data }
}

} // verus!
