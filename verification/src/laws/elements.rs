//! Arithmetic, rectification and matrix products, element by element.
use crate::engine::elementwise::{zip_spec, zips, Arithmetic};
use crate::engine::rule::Rule;
use crate::functions::matmul::{linear_fits, linear_spec, matmul_spec, multiplies};
use crate::index::{in_bounds, lemma_offset_bound, lemma_unravel_offset, offset, unravel, volume};
use crate::remap::dot;
use crate::scalar::Scalar;
use crate::tensor::Array;
use crate::utils::conv::lemma_volume2;
use crate::utils::shape::{
    aligned_axis, broadcast_source, broadcast_spec, broadcasts_to, joint_shape,
    joint_shape_receives_both, lemma_broadcast_map, seen_through,
};
use vstd::arithmetic::div_mod::lemma_fundamental_div_mod_converse;
use vstd::prelude::*;

verus! {

// ---------------------------------------------------------------------------
// words
// ---------------------------------------------------------------------------
/// `term(0)` up to `term(n - 1)`, added up from left to right.
pub open spec fn sum_of<T: Scalar>(n: int, term: spec_fn(int) -> T) -> T
    decreases n,
{
    if n <= 0 {
        T::zero_spec()
    } else {
        sum_of(n - 1, term).plus(term(n - 1))
    }
}

/// The entry of a matrix in row `i` and column `j`.
pub open spec fn entry<T>(a: Array<T>, i: int, j: int) -> T {
    a.data[i * a.shape[1] + j]
}

/// How many rows an array has once it stands beside a matrix.
pub open spec fn rows<T>(a: Array<T>) -> int {
    if a.shape.len() == 2 {
        a.shape[0] as int
    } else {
        1
    }
}

/// How many columns an array has once it stands beside a matrix.
pub open spec fn columns<T>(a: Array<T>) -> int {
    if a.shape.len() == 2 {
        a.shape[1] as int
    } else if a.shape.len() == 1 {
        a.shape[0] as int
    } else {
        1
    }
}

/// What an array of at most two axes contributes to row `i` and column `j` of a matrix: a
/// single row stands for every row, and a single column for every column.
pub open spec fn contributes<T>(a: Array<T>, i: int, j: int) -> T {
    let r: int = if rows(a) == 1 {
        0
    } else {
        i
    };
    let c: int = if columns(a) == 1 {
        0
    } else {
        j
    };
    a.data[r * columns(a) + c]
}

/// Whether `y` is a whole matrix of so many rows and columns.
pub open spec fn is_matrix<T>(y: Array<T>, m: int, n: int) -> bool {
    &&& y.shape.len() == 2
    &&& y.shape[0] == m
    &&& y.shape[1] == n
    &&& y.data.len() == m * n
}

/// Whether the matrix `y` has the rows and columns of `a` and `b` together.
pub open spec fn spans<T>(y: Array<T>, a: Array<T>, b: Array<T>) -> bool {
    is_matrix(
        y,
        if rows(a) == 1 {
            rows(b)
        } else {
            rows(a)
        },
        if columns(a) == 1 {
            columns(b)
        } else {
            columns(a)
        },
    )
}

/// Whether every entry of `y` is the entry of `a` plus the entry of `b`.
pub open spec fn is_sum<T: Scalar>(y: Array<T>, a: Array<T>, b: Array<T>) -> bool {
    &&& spans(y, a, b)
    &&& forall|i: int, j: int|
        0 <= i < y.shape[0] && 0 <= j < y.shape[1] ==> #[trigger] entry(y, i, j) == contributes(
            a,
            i,
            j,
        ).plus(contributes(b, i, j))
}

/// Whether every entry of `y` is the entry of `a` times the entry of `b`.
pub open spec fn is_product<T: Scalar>(y: Array<T>, a: Array<T>, b: Array<T>) -> bool {
    &&& spans(y, a, b)
    &&& forall|i: int, j: int|
        0 <= i < y.shape[0] && 0 <= j < y.shape[1] ==> #[trigger] entry(y, i, j) == contributes(
            a,
            i,
            j,
        ).times(contributes(b, i, j))
}

/// Row `i` of `x` times column `j` of `w`.
pub open spec fn row_times_column<T: Scalar>(x: Array<T>, w: Array<T>, i: int, j: int) -> T {
    sum_of(x.shape[1] as int, |k: int| entry(x, i, k).times(entry(w, k, j)))
}

/// Whether `y` is the affine map of `x`: every entry is a row of `x` times a column of `w`,
/// plus the bias of its column where there is one.
pub open spec fn is_affine<T: Scalar>(
    y: Array<T>,
    x: Array<T>,
    w: Array<T>,
    b: Option<Array<T>>,
) -> bool {
    &&& is_matrix(y, x.shape[0] as int, w.shape[1] as int)
    &&& forall|i: int, j: int|
        0 <= i < y.shape[0] && 0 <= j < y.shape[1] ==> #[trigger] entry(y, i, j) == match b {
            Some(b) => row_times_column(x, w, i, j).plus(contributes(b, i, j)),
            None => row_times_column(x, w, i, j),
        }
}

/// Whether `y` is `x` rectified: what is positive stays, and zero takes the place of the
/// rest.
pub open spec fn is_rectified<T: Scalar>(y: Array<T>, x: Array<T>) -> bool {
    &&& y.shape == x.shape
    &&& y.data.len() == x.data.len()
    &&& forall|k: int|
        0 <= k < y.data.len() ==> {
            &&& x.data[k].exceeds(T::zero_spec()) ==> #[trigger] y.data[k] == x.data[k]
            &&& !x.data[k].exceeds(T::zero_spec()) ==> y.data[k] == T::zero_spec()
        }
}

// ---------------------------------------------------------------------------
// laws
// ---------------------------------------------------------------------------
proof fn lemma_place2(s: Seq<usize>, i: int, j: int)
    requires
        s.len() == 2,
        0 <= i < s[0],
        0 <= j < s[1],
    ensures
        0 <= i * s[1] + j < volume(s),
        volume(s) == s[0] * s[1],
        offset(s, seq![i, j]) == i * s[1] + j,
        unravel(s, i * s[1] + j) == seq![i, j],
        in_bounds(s, seq![i, j]),
{
    let idx = seq![i, j];
    reveal_with_fuel(offset, 3);
    assert(s.drop_last().drop_last() =~= Seq::<usize>::empty());
    assert(s.drop_last().last() == s[0]);
    assert(idx.drop_last().last() == i);
    assert(in_bounds(s, idx)) by {
        assert forall|a: int| 0 <= a < s.len() implies 0 <= #[trigger] idx[a] < s[a] by {}
    }
    lemma_offset_bound(s, idx);
    lemma_unravel_offset(s, idx);
    lemma_volume2(s[0], s[1]);
    assert(s =~= seq![s[0], s[1]]);
}

/// What an array contributes to a matrix that it is spread over.
pub proof fn lemma_contributes<T: Scalar>(a: Array<T>, to: Seq<usize>, i: int, j: int)
    requires
        a.wf(),
        to.len() == 2,
        broadcasts_to(a.shape, to),
        0 <= i < to[0],
        0 <= j < to[1],
    ensures
        broadcast_spec(a, to).data[i * to[1] + j] == contributes(a, i, j),
        broadcast_spec(a, to).data.len() == volume(to),
{
    let s = a.shape;
    let k = i * to[1] + j;
    lemma_place2(to, i, j);
    lemma_broadcast_map(s, to);
    let idx = seq![i, j];
    let from = seen_through(idx, s);
    assert(broadcast_source(s, to, k) == offset(s, from));
    reveal_with_fuel(offset, 3);
    if s.len() == 2 {
        assert(s.drop_last().drop_last() =~= Seq::<usize>::empty());
        assert(s.drop_last().last() == s[0]);
        assert(from.drop_last().last() == from[0]);
        assert(s[0] == 1 || s[0] == to[0]);
    } else if s.len() == 1 {
        assert(s.drop_last() =~= Seq::<usize>::empty());
        assert(offset(s, from) == from[0]);
    } else {
        assert(offset(s, from) == 0);
    }
}

/// Combining two arrays into a matrix combines what each of them contributes.
proof fn lemma_zip_entry<T: Scalar>(op: Arithmetic, a: Array<T>, b: Array<T>, i: int, j: int)
    requires
        a.wf(),
        b.wf(),
        zips(a.shape, b.shape),
        joint_shape(a.shape, b.shape).len() == 2,
        0 <= i < joint_shape(a.shape, b.shape)[0],
        0 <= j < joint_shape(a.shape, b.shape)[1],
    ensures
        entry(zip_spec(op, a, b), i, j) == op.value(contributes(a, i, j), contributes(b, i, j)),
{
    let to = joint_shape(a.shape, b.shape);
    joint_shape_receives_both(a.shape, b.shape);
    lemma_place2(to, i, j);
    lemma_contributes(a, to, i, j);
    lemma_contributes(b, to, i, j);
}

proof fn lemma_spans<T: Scalar>(op: Arithmetic, a: Array<T>, b: Array<T>)
    requires
        zips(a.shape, b.shape),
        a.shape.len() <= 2,
        b.shape.len() <= 2,
        a.shape.len() == 2 || b.shape.len() == 2,
    ensures
        joint_shape(a.shape, b.shape).len() == 2,
        spans(zip_spec(op, a, b), a, b),
{
    let to = joint_shape(a.shape, b.shape);
    lemma_volume2(to[0], to[1]);
    assert(to =~= seq![to[0], to[1]]);
    assert(aligned_axis(a.shape, 2, 0) == rows(a));
    assert(aligned_axis(b.shape, 2, 0) == rows(b));
    assert(aligned_axis(a.shape, 2, 1) == columns(a));
    assert(aligned_axis(b.shape, 2, 1) == columns(b));
}

/// Adding arrays into a matrix adds entry to entry.
pub proof fn adding_adds_entries<T: Scalar>(a: Array<T>, b: Array<T>)
    requires
        a.wf(),
        b.wf(),
        zips(a.shape, b.shape),
        a.shape.len() <= 2,
        b.shape.len() <= 2,
        a.shape.len() == 2 || b.shape.len() == 2,
    ensures
        is_sum(Rule::Add.value(seq![a, b]), a, b),
{
    let y = Rule::Add.value(seq![a, b]);
    lemma_spans(Arithmetic::Plus, a, b);
    assert forall|i: int, j: int|
        0 <= i < y.shape[0] && 0 <= j < y.shape[1] implies #[trigger] entry(y, i, j) == contributes(
        a,
        i,
        j,
    ).plus(contributes(b, i, j)) by {
        lemma_zip_entry(Arithmetic::Plus, a, b, i, j);
    }
}

/// Multiplying arrays into a matrix multiplies entry by entry.
pub proof fn multiplying_multiplies_entries<T: Scalar>(a: Array<T>, b: Array<T>)
    requires
        a.wf(),
        b.wf(),
        zips(a.shape, b.shape),
        a.shape.len() <= 2,
        b.shape.len() <= 2,
        a.shape.len() == 2 || b.shape.len() == 2,
    ensures
        is_product(Rule::Mul.value(seq![a, b]), a, b),
{
    let y = Rule::Mul.value(seq![a, b]);
    lemma_spans(Arithmetic::Times, a, b);
    assert forall|i: int, j: int|
        0 <= i < y.shape[0] && 0 <= j < y.shape[1] implies #[trigger] entry(y, i, j) == contributes(
        a,
        i,
        j,
    ).times(contributes(b, i, j)) by {
        lemma_zip_entry(Arithmetic::Times, a, b, i, j);
    }
}

/// Whether `jdx` names what an array of shape `s` contributes to the place `idx`: aligned
/// at the last axis, and the only place of every axis of length one.
pub open spec fn contributes_from(jdx: Seq<int>, s: Seq<usize>, idx: Seq<int>) -> bool {
    &&& jdx.len() == s.len() <= idx.len()
    &&& forall|a: int|
        0 <= a < s.len() ==> #[trigger] jdx[a] == if s[a] == 1 {
            0
        } else {
            idx[idx.len() - s.len() + a]
        }
}

/// Arithmetic on arrays of any shapes that go together combines, at every place, what each
/// of the two has there.
pub proof fn arithmetic_goes_place_by_place<T: Scalar>(
    a: Array<T>,
    b: Array<T>,
    idx: Seq<int>,
    ia: Seq<int>,
    ib: Seq<int>,
)
    requires
        a.wf(),
        b.wf(),
        zips(a.shape, b.shape),
        in_bounds(Rule::Add.value(seq![a, b]).shape, idx),
        contributes_from(ia, a.shape, idx),
        contributes_from(ib, b.shape, idx),
    ensures
        Rule::Add.value(seq![a, b]).at(idx) == a.at(ia).plus(b.at(ib)),
        Rule::Sub.value(seq![a, b]).at(idx) == a.at(ia).minus(b.at(ib)),
        Rule::Mul.value(seq![a, b]).at(idx) == a.at(ia).times(b.at(ib)),
        Rule::Div.value(seq![a, b]).at(idx) == a.at(ia).over(b.at(ib)),
{
    let to = joint_shape(a.shape, b.shape);
    let k = offset(to, idx);
    joint_shape_receives_both(a.shape, b.shape);
    lemma_offset_bound(to, idx);
    lemma_unravel_offset(to, idx);
    lemma_broadcast_map(a.shape, to);
    lemma_broadcast_map(b.shape, to);
    assert(seen_through(idx, a.shape) =~= ia);
    assert(seen_through(idx, b.shape) =~= ib);
    assert(0 <= broadcast_source(a.shape, to, k) < volume(a.shape));
    assert(0 <= broadcast_source(b.shape, to, k) < volume(b.shape));
}

/// Arithmetic on arrays of one shape combines their elements one by one.
pub proof fn arithmetic_goes_element_by_element<T: Scalar>(a: Array<T>, b: Array<T>, k: int)
    requires
        a.wf(),
        b.wf(),
        a.shape == b.shape,
        0 <= k < a.data.len(),
    ensures
        Rule::Add.value(seq![a, b]).shape == a.shape,
        Rule::Add.value(seq![a, b]).data[k] == a.data[k].plus(b.data[k]),
        Rule::Sub.value(seq![a, b]).data[k] == a.data[k].minus(b.data[k]),
        Rule::Mul.value(seq![a, b]).data[k] == a.data[k].times(b.data[k]),
        Rule::Div.value(seq![a, b]).data[k] == a.data[k].over(b.data[k]),
        Rule::Neg.value(seq![a]).data[k] == a.data[k].negated(),
        Rule::Square.value(seq![a]).data[k] == a.data[k].times(a.data[k]),
{
    crate::engine::elementwise::lemma_joint_with_itself(a.shape);
    crate::utils::shape::broadcasting_to_the_same_shape_is_the_identity(a);
    crate::utils::shape::broadcasting_to_the_same_shape_is_the_identity(b);
}

/// Rectifying keeps what is positive and nothing else.
pub proof fn rectifying_keeps_what_is_positive<T: Scalar>(x: Array<T>)
    ensures
        is_rectified(Rule::ReLU.value(seq![x]), x),
{
}

proof fn lemma_dot_is_sum<T: Scalar>(a: Seq<T>, b: Seq<T>, n: int, term: spec_fn(int) -> T)
    requires
        forall|k: int| 0 <= k < n ==> #[trigger] term(k) == a[k].times(b[k]),
    ensures
        dot(a, b, n) == sum_of(n, term),
    decreases n,
{
    if n > 0 {
        lemma_dot_is_sum(a, b, n - 1, term);
        assert(term(n - 1) == a[n - 1].times(b[n - 1]));
    }
}

/// The entries of a matrix product are rows times columns.
pub proof fn matrix_products_are_rows_times_columns<T: Scalar>(
    a: Array<T>,
    b: Array<T>,
    i: int,
    j: int,
)
    requires
        multiplies(a.shape, b.shape),
        0 <= i < a.shape[0],
        0 <= j < b.shape[1],
    ensures
        entry(Rule::MatMul.value(seq![a, b]), i, j) == row_times_column(a, b, i, j),
{
    let y = matmul_spec(a, b);
    let n = b.shape[1] as int;
    let e = i * n + j;
    lemma_place2(seq![a.shape[0], b.shape[1]], i, j);
    lemma_fundamental_div_mod_converse(e, n, i, j);
    let (r, c) = (crate::functions::matmul::row(a, i), crate::functions::matmul::column(b, j));
    let term = |k: int| entry(a, i, k).times(entry(b, k, j));
    lemma_dot_is_sum(r, c, a.shape[1] as int, term);
}

/// A fully connected operation is the affine map of its input.
pub proof fn linear_is_affine<T: Scalar>(x: Array<T>, w: Array<T>, b: Option<Array<T>>)
    requires
        linear_fits(
            x.shape,
            w.shape,
            match b {
                Some(b) => Some(b.shape),
                None => None,
            },
        ),
        b matches Some(b) ==> b.wf(),
    ensures
        is_affine(linear_spec(x, w, b), x, w, b),
{
    let y = linear_spec(x, w, b);
    let p = matmul_spec(x, w);
    let s = seq![x.shape[0], w.shape[1]];
    lemma_volume2(x.shape[0], w.shape[1]);
    assert(p.shape =~= s);
    if let Some(b) = b {
        crate::engine::elementwise::lemma_joint_absorbs(s, b.shape);
    }
    assert forall|i: int, j: int|
        0 <= i < y.shape[0] && 0 <= j < y.shape[1] implies #[trigger] entry(y, i, j) == match b {
        Some(b) => row_times_column(x, w, i, j).plus(contributes(b, i, j)),
        None => row_times_column(x, w, i, j),
    } by {
        matrix_products_are_rows_times_columns(x, w, i, j);
        if let Some(b) = b {
            lemma_place2(s, i, j);
            assert(p.wf());
            lemma_contributes(b, s, i, j);
            crate::utils::shape::broadcasting_to_the_same_shape_is_the_identity(p);
        }
    }
}

} // verus!
