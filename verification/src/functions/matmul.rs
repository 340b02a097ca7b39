//! Matrix products.
use crate::engine::elementwise::{lemma_joint_absorbs, zip_map, zip_spec, Arithmetic};
use crate::laws::elements::{is_affine, linear_is_affine};
use crate::remap::dot;
use crate::scalar::Scalar;
use crate::tensor::{Array, Tensor};
use crate::utils::conv::lemma_volume2;
use crate::utils::shape::broadcasts_to;
use crate::engine::builtin::{apply_biased, apply_binary, derives, held, holds, operands, Builtin};
use crate::engine::function::{applied, Op};
use crate::engine::graph::{Graph, Variable};
use crate::engine::rule::Rule;
use vstd::prelude::*;

verus! {

/// Row `i` of a matrix.
pub open spec fn row<T>(a: Array<T>, i: int) -> Seq<T> {
    Seq::new(a.shape[1] as nat, |k: int| a.data[i * a.shape[1] + k])
}

/// Column `j` of a matrix.
pub open spec fn column<T>(b: Array<T>, j: int) -> Seq<T> {
    Seq::new(b.shape[0] as nat, |k: int| b.data[k * b.shape[1] + j])
}

/// Whether two shapes are those of matrices whose product can be formed.
pub open spec fn multiplies(a: Seq<usize>, b: Seq<usize>) -> bool {
    &&& a.len() == 2
    &&& b.len() == 2
    &&& a[1] == b[0]
    &&& a[0] * b[1] <= usize::MAX
}

/// The matrix product: each entry is the product of a row of `a` with a column of
/// `b`, summed from left to right.
pub open spec fn matmul_spec<T: Scalar>(a: Array<T>, b: Array<T>) -> Array<T> {
    let n = b.shape[1] as int;
    Array {
        shape: seq![a.shape[0], b.shape[1]],
        data: Seq::new(
            (a.shape[0] * b.shape[1]) as nat,
            |e: int| dot(row(a, e / n), column(b, e % n), a.shape[1] as int),
        ),
    }
}

proof fn lemma_entry(i: int, j: int, m: int, n: int)
    requires
        0 <= i < m,
        0 <= j < n,
    ensures
        0 <= i * n,
        i * n + n <= m * n,
        0 <= i * n + j < m * n,
        (i * n + j) / n == i,
        (i * n + j) % n == j,
{
    assert(0 <= i * n && i * n + n <= m * n) by (nonlinear_arith)
        requires
            0 <= i < m,
            0 <= j < n,
    ;
    vstd::arithmetic::div_mod::lemma_fundamental_div_mod_converse(i * n + j, n, i, j);
}

/// The product of two matrices.
pub fn dot2<T: Scalar>(a: &Tensor<T>, b: &Tensor<T>) -> (r: Tensor<T>)
    requires
        a.wf(),
        b.wf(),
        multiplies(a@.shape, b@.shape),
    ensures
        r.wf(),
        r@ == matmul_spec(a@, b@),
{
    let m: usize = a.shape[0];
    let inner: usize = a.shape[1];
    let n: usize = b.shape[1];
    let ghost want = matmul_spec(a@, b@).data;
    proof {
        assert(a@.shape =~= seq![m, inner]);
        assert(b@.shape =~= seq![inner, n]);
        lemma_volume2(m, inner);
        lemma_volume2(inner, n);
        lemma_volume2(m, n);
    }
    let mut data: Vec<T> = Vec::new();
    let mut i: usize = 0;
    while i < m
        invariant
            i <= m,
            a.wf(),
            b.wf(),
            m == a@.shape[0],
            inner == a@.shape[1],
            inner == b@.shape[0],
            n == b@.shape[1],
            a@.data.len() == m * inner,
            b@.data.len() == inner * n,
            a@.shape.len() == 2,
            m * n <= usize::MAX,
            want == matmul_spec(a@, b@).data,
            data@.len() == i * n,
            forall|e: int| 0 <= e < i * n ==> #[trigger] data@[e] == want[e],
        decreases m - i,
    {
        let mut j: usize = 0;
        while j < n
            invariant
                i < m,
                j <= n,
                a.wf(),
                b.wf(),
                m == a@.shape[0],
                inner == a@.shape[1],
                inner == b@.shape[0],
                n == b@.shape[1],
                a@.data.len() == m * inner,
                b@.data.len() == inner * n,
                m * n <= usize::MAX,
                want == matmul_spec(a@, b@).data,
                data@.len() == i * n + j,
                forall|e: int| 0 <= e < i * n + j ==> #[trigger] data@[e] == want[e],
            decreases n - j,
        {
            let mut sum: T = T::zero();
            let mut k: usize = 0;
            while k < inner
                invariant
                    i < m,
                    j < n,
                    k <= inner,
                    a.wf(),
                    b.wf(),
                    inner == a@.shape[1],
                    inner == b@.shape[0],
                    n == b@.shape[1],
                    a@.data.len() == m * inner,
                    b@.data.len() == inner * n,
                    sum == dot(row(a@, i as int), column(b@, j as int), k as int),
                decreases inner - k,
            {
                proof {
                    lemma_entry(i as int, k as int, m as int, inner as int);
                    lemma_entry(k as int, j as int, inner as int, n as int);
                }
                let p: T = a.data[i * inner + k].mul(b.data[k * n + j]);
                sum = sum.add(p);
                k = k + 1;
            }
            proof {
                lemma_entry(i as int, j as int, m as int, n as int);
            }
            data.push(sum);
            j = j + 1;
        }
        proof {
            assert((i + 1) * n == i * n + n) by (nonlinear_arith);
        }
        i = i + 1;
    }
    let mut shape: Vec<usize> = Vec::new();
    shape.push(m);
    shape.push(n);
    proof {
        assert(shape@ =~= seq![m, n]);
        assert(data@ =~= want);
    }
    Tensor { shape, data }
}

/// The affine map of a matrix: the product with the weights, plus a bias that is
/// spread over the rows.
pub open spec fn linear_spec<T: Scalar>(x: Array<T>, w: Array<T>, b: Option<Array<T>>) -> Array<
    T,
> {
    match b {
        Some(b) => zip_spec(Arithmetic::Plus, matmul_spec(x, w), b),
        None => matmul_spec(x, w),
    }
}

/// Without a bias, an affine map is the matrix product: it computes the same and passes
/// the same gradients back.
pub proof fn without_a_bias_linear_is_matmul<T: Scalar>(x: Array<T>, w: Array<T>, gy: Array<T>)
    ensures
        Rule::Linear.value(seq![x, w]) == Rule::MatMul.value(seq![x, w]),
        Rule::Linear.gradient(seq![x, w], gy) == Rule::MatMul.gradient(seq![x, w], gy),
{
}

/// Whether the shapes are those of an input, weights and a bias that fit together.
pub open spec fn linear_fits(x: Seq<usize>, w: Seq<usize>, b: Option<Seq<usize>>) -> bool {
    &&& multiplies(x, w)
    &&& b matches Some(b) ==> broadcasts_to(b, seq![x[0], w[1]])
}

pub fn linear_array<T: Scalar>(x: &Tensor<T>, w: &Tensor<T>, b: Option<&Tensor<T>>) -> (r: Tensor<
    T,
>)
    requires
        x.wf(),
        w.wf(),
        b matches Some(b) ==> b.wf(),
        linear_fits(
            x@.shape,
            w@.shape,
            match b {
                Some(b) => Some(b@.shape),
                None => None,
            },
        ),
    ensures
        r.wf(),
        r@ == linear_spec(
            x@,
            w@,
            match b {
                Some(b) => Some(b@),
                None => None,
            },
        ),
        r@.shape == seq![x@.shape[0], w@.shape[1]],
        is_affine(
            r@,
            x@,
            w@,
            match b {
                Some(b) => Some(b@),
                None => None,
            },
        ),
{
    proof {
        linear_is_affine(
            x@,
            w@,
            match b {
                Some(b) => Some(b@),
                None => None,
            },
        );
    }
    let y = dot2(x, w);
    match b {
        Some(b) => {
            proof {
                lemma_joint_absorbs(y@.shape, b@.shape);
                lemma_volume2(y@.shape[0], y@.shape[1]);
            }
            zip_map(Arithmetic::Plus, &y, b)
        },
        None => y,
    }
}

/// The matrix product as an operation.
#[derive(Debug, Clone, Copy)]
pub struct MatMul;

/// The affine map as an operation on an input, weights and an optional bias.
#[derive(Debug, Clone, Copy)]
pub struct Linear;

/// The product of two matrices.
pub fn matmul<T: Scalar, O: Op<T>>(g: &mut Graph<T, O>, x: &Variable, w: &Variable) -> (r: Variable)
    requires
        old(g).wf(),
        holds(*old(g), *x),
        holds(*old(g), *w),
        multiplies(held(*old(g), *x).shape, held(*old(g), *w).shape),
    ensures
        applied(*old(g), *final(g), O::embed(Rule::MatMul), seq![*x, *w], seq![r]),
        derives(*old(g), *final(g), r, matmul_spec(held(*old(g), *x), held(*old(g), *w))),
        is_affine(held(*final(g), r), held(*old(g), *x), held(*old(g), *w), None),
{
    proof {
        linear_is_affine(held(*g, *x), held(*g, *w), None);
    }
    apply_binary(g, Builtin::MatMul(MatMul), x, w)
}

/// The affine map of an input.
pub fn linear<T: Scalar, O: Op<T>>(
    g: &mut Graph<T, O>,
    x: &Variable,
    w: &Variable,
    b: Option<&Variable>,
) -> (r: Variable)
    requires
        old(g).wf(),
        holds(*old(g), *x),
        holds(*old(g), *w),
        b matches Some(b) ==> holds(*old(g), *b),
        linear_fits(
            held(*old(g), *x).shape,
            held(*old(g), *w).shape,
            match b {
                Some(b) => Some(held(*old(g), *b).shape),
                None => None,
            },
        ),
    ensures
        applied(*old(g), *final(g), O::embed(Rule::Linear), operands(*x, *w, b), seq![r]),
        derives(
            *old(g),
            *final(g),
            r,
            linear_spec(
                held(*old(g), *x),
                held(*old(g), *w),
                match b {
                    Some(b) => Some(held(*old(g), *b)),
                    None => None,
                },
            ),
        ),
        is_affine(
            held(*final(g), r),
            held(*old(g), *x),
            held(*old(g), *w),
            match b {
                Some(b) => Some(held(*old(g), *b)),
                None => None,
            },
        ),
{
    proof {
        if let Some(b) = b {
            assert(g.node_ok(b.id as int));
        }
        linear_is_affine(
            held(*g, *x),
            held(*g, *w),
            match b {
                Some(b) => Some(held(*g, *b)),
                None => None,
            },
        );
    }
    apply_biased(g, Builtin::Linear(Linear), x, w, b)
}

} // verus!
