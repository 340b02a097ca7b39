//! What a change of its inputs does to the output of a built-in operation: to first order
//! the tangent, and what is left is a product of changes.

use vstd::prelude::*;

use crate::engine::elementwise::{
    lemma_joint_absorbs, lemma_joint_with_itself, square_spec, zip_spec, zips, Arithmetic,
};
use crate::engine::rule::{shapes, third, Rule};
use crate::functions::adjoint::{lemma_convolution_wf, lemma_convolved};
use crate::functions::conv::{
    conv2d_fits, conv2d_grad_w_spec, conv2d_shape, conv2d_spec, conv_patches, deconv2d_fits,
    deconv2d_shape, deconv2d_spec, filters_as_rows, filters_by_input, lemma_transposed_matrix,
    lemma_window_start, winner_map,
};
use crate::functions::matmul::{column, linear_fits, matmul_spec, row};
use crate::functions::reduce::{lemma_kept_shape, listed};
use crate::index::volume;
use crate::inner::{lemma_cancel, lemma_dot_commutes, lemma_dot_plus, lemma_pairs};
use crate::remap::{gather, last_onto, maps_into, place, scatter, sum_onto};
use crate::scalar::{Ring, Scalar};
use crate::tensor::{
    full_spec, lemma_permute_map, lemma_reversed_axes, permute_map, reshape_spec, reversed_axes,
    transpose_spec, Array,
};
use crate::utils::conv::{
    channels_first, channels_last, im2col_spec, lemma_channel_orders, lemma_patches_wf,
    lemma_position_orders, lemma_volume2, lemma_volume4, nchw_to_rows_spec, patches_spec,
    positions_first, positions_last, rows_to_nchw_spec,
};
use crate::utils::down::summing_axis_by_axis_is_summing_at_once;
use crate::utils::shape::{
    broadcast_map, broadcast_spec, broadcasting_to_the_same_shape_is_the_identity, broadcasts_to,
    joint_shape, joint_shape_receives_both, kept_shape, lemma_broadcast_map,
};

verus! {

/// The elements of two lists, added one by one.
pub open spec fn sums<T: Scalar>(u: Seq<T>, v: Seq<T>) -> Seq<T> {
    Seq::new(u.len(), |k: int| u[k].plus(v[k]))
}

/// Two arrays of one shape, added element by element.
pub open spec fn summed<T: Scalar>(a: Array<T>, b: Array<T>) -> Array<T> {
    Array { shape: a.shape, data: sums(a.data, b.data) }
}

/// The inputs after each has changed.
pub open spec fn moved<T: Scalar>(xs: Seq<Array<T>>, dxs: Seq<Array<T>>) -> Seq<Array<T>> {
    Seq::new(xs.len(), |i: int| summed(xs[i], dxs[i]))
}

impl Rule {
    /// Whether the operation neither divides nor chooses by comparing.
    pub open spec fn polynomial(self) -> bool {
        !self.divides() && !(self is ReLU) && !(self is Pooling)
    }

    /// What the changes of the factors make of each other where the operation multiplies.
    pub open spec fn second_order<T: Scalar>(self, dxs: Seq<Array<T>>) -> Option<Array<T>> {
        match self {
            Rule::Mul => Some(zip_spec(Arithmetic::Times, dxs[0], dxs[1])),
            Rule::Square => Some(square_spec(dxs[0])),
            Rule::MatMul | Rule::Linear => Some(matmul_spec(dxs[0], dxs[1])),
            Rule::Conv2d { stride, pad } => Some(
                conv2d_spec(dxs[0], dxs[1], None, stride, pad),
            ),
            Rule::Deconv2d { stride, pad, outsize } => Some(
                deconv2d_spec(dxs[0], dxs[1], None, stride, pad, outsize),
            ),
            Rule::Conv2dGradW { kernel, stride, pad } => Some(
                conv2d_grad_w_spec(dxs[0], dxs[1], kernel, stride, pad),
            ),
            _ => None,
        }
    }
}

/// An array with what it changes by: the first order, and the second where there is one.
pub open spec fn expanded<T: Scalar>(
    y: Array<T>,
    dy: Array<T>,
    rest: Option<Array<T>>,
) -> Array<T> {
    match rest {
        Some(rest) => summed(summed(y, dy), rest),
        None => summed(y, dy),
    }
}

/// Adding arrays of one shape needs no broadcasting.
proof fn lemma_summed<T: Scalar>(a: Array<T>, b: Array<T>)
    requires
        a.wf(),
        b.wf(),
        a.shape == b.shape,
    ensures
        zip_spec(Arithmetic::Plus, a, b) == summed(a, b),
        summed(a, b).wf(),
{
    lemma_joint_with_itself(a.shape);
    broadcasting_to_the_same_shape_is_the_identity(a);
    broadcasting_to_the_same_shape_is_the_identity(b);
    assert(zip_spec(Arithmetic::Plus, a, b).data =~= summed(a, b).data);
}

/// Reading adds up.
proof fn lemma_gather_adds<R: Ring>(u: Seq<R>, v: Seq<R>, map: Seq<Option<usize>>)
    requires
        u.len() == v.len(),
        maps_into(map, u.len()),
    ensures
        gather(sums(u, v), map) == sums(gather(u, map), gather(v, map)),
{
    R::zero_is_neutral(R::zero_spec());
    let (l, r) = (gather(sums(u, v), map), sums(gather(u, map), gather(v, map)));
    assert forall|k: int| 0 <= k < map.len() implies l[k] == r[k] by {
        let m = map[k];
    }
    assert(l =~= r);
}

proof fn lemma_sum_onto_adds<R: Ring>(
    u: Seq<R>,
    v: Seq<R>,
    map: Seq<Option<usize>>,
    j: int,
    n: int,
)
    requires
        u.len() == v.len(),
        0 <= n <= u.len(),
    ensures
        sum_onto(sums(u, v), map, j, n) == sum_onto(u, map, j, n).plus(sum_onto(v, map, j, n)),
    decreases n,
{
    if n == 0 {
        R::zero_is_neutral(R::zero_spec());
    } else {
        lemma_sum_onto_adds(u, v, map, j, n - 1);
        lemma_pairs(
            sum_onto(u, map, j, n - 1),
            sum_onto(v, map, j, n - 1),
            u[n - 1],
            v[n - 1],
        );
    }
}

/// Adding onto positions adds up.
proof fn lemma_scatter_adds<R: Ring>(u: Seq<R>, v: Seq<R>, map: Seq<Option<usize>>, len: nat)
    requires
        u.len() == v.len(),
    ensures
        scatter(sums(u, v), map, len) == sums(scatter(u, map, len), scatter(v, map, len)),
{
    let (l, r) = (
        scatter(sums(u, v), map, len),
        sums(scatter(u, map, len), scatter(v, map, len)),
    );
    assert forall|j: int| 0 <= j < len implies l[j] == r[j] by {
        lemma_sum_onto_adds(u, v, map, j, u.len() as int);
    }
    assert(l =~= r);
}

proof fn lemma_last_onto_adds<R: Ring>(
    u: Seq<R>,
    v: Seq<R>,
    map: Seq<Option<usize>>,
    j: int,
    n: int,
)
    requires
        u.len() == v.len(),
        0 <= n <= u.len(),
    ensures
        last_onto(sums(u, v), map, j, n) == last_onto(u, map, j, n).plus(last_onto(v, map, j, n)),
    decreases n,
{
    if n == 0 {
        R::zero_is_neutral(R::zero_spec());
    } else {
        lemma_last_onto_adds(u, v, map, j, n - 1);
    }
}

/// Writing to positions adds up.
proof fn lemma_place_adds<R: Ring>(u: Seq<R>, v: Seq<R>, map: Seq<Option<usize>>, len: nat)
    requires
        u.len() == v.len(),
    ensures
        place(sums(u, v), map, len) == sums(place(u, map, len), place(v, map, len)),
{
    let (l, r) = (
        place(sums(u, v), map, len),
        sums(place(u, map, len), place(v, map, len)),
    );
    assert forall|j: int| 0 <= j < len implies l[j] == r[j] by {
        lemma_last_onto_adds(u, v, map, j, u.len() as int);
    }
    assert(l =~= r);
}

/// The row and the column of an entry of a product.
proof fn lemma_entry_of(e: int, m: int, n: int)
    requires
        0 <= e < m * n,
        0 <= n,
    ensures
        0 < n,
        0 <= e / n < m,
        0 <= e % n < n,
{
    assert(0 < n && 0 <= e / n < m && 0 <= e % n < n) by (nonlinear_arith)
        requires
            0 <= e < m * n,
            0 <= n,
    ;
}

proof fn lemma_inside(i: int, k: int, m: int, n: int)
    requires
        0 <= i < m,
        0 <= k < n,
    ensures
        0 <= i * n + k < m * n,
{
    assert(0 <= i * n + k < m * n) by (nonlinear_arith)
        requires
            0 <= i < m,
            0 <= k < n,
    ;
}

/// A product adds up over its first factor, and over its second.
proof fn lemma_matmul_adds<R: Ring>(a: Array<R>, c: Array<R>, b: Array<R>, d: Array<R>)
    requires
        a.shape.len() == 2,
        b.shape.len() == 2,
        a.shape[1] == b.shape[0],
        c.shape == a.shape,
        d.shape == b.shape,
        a.data.len() == a.shape[0] * a.shape[1],
        c.data.len() == a.data.len(),
        b.data.len() == b.shape[0] * b.shape[1],
        d.data.len() == b.data.len(),
    ensures
        matmul_spec(summed(a, c), b).data == sums(matmul_spec(a, b).data, matmul_spec(c, b).data),
        matmul_spec(a, summed(b, d)).data == sums(matmul_spec(a, b).data, matmul_spec(a, d).data),
{
    let (m, k, n) = (a.shape[0] as int, a.shape[1] as int, b.shape[1] as int);
    let (ac, bd) = (summed(a, c), summed(b, d));
    let (p, q) = (matmul_spec(ac, b).data, matmul_spec(a, bd).data);
    let (r, s) = (
        sums(matmul_spec(a, b).data, matmul_spec(c, b).data),
        sums(matmul_spec(a, b).data, matmul_spec(a, d).data),
    );
    assert forall|e: int| 0 <= e < m * n implies p[e] == r[e] && q[e] == s[e] by {
        let (i, j) = (e / n, e % n);
        lemma_entry_of(e, m, n);
        let (ra, rc, rac) = (row(a, i), row(c, i), row(ac, i));
        let (cb, cd, cbd) = (column(b, j), column(d, j), column(bd, j));
        assert forall|t: int| 0 <= t < k implies #[trigger] rac[t] == ra[t].plus(rc[t]) by {
            lemma_inside(i, t, m, k);
        }
        assert forall|t: int| 0 <= t < k implies #[trigger] cbd[t] == cb[t].plus(cd[t]) by {
            lemma_inside(t, j, k, n);
        }
        lemma_dot_plus(cb, ra, rc, rac, k);
        lemma_dot_commutes(cb, ra, k);
        lemma_dot_commutes(cb, rc, k);
        lemma_dot_commutes(cb, rac, k);
        lemma_dot_plus(ra, cb, cd, cbd, k);
    }
    assert(p =~= r);
    assert(q =~= s);
}

/// What a product of two sums expands to, elementwise.
proof fn lemma_expands<R: Ring>(
    y: Seq<R>,
    by_first: Seq<R>,
    by_second: Seq<R>,
    by_both: Seq<R>,
    all: Seq<R>,
)
    requires
        by_first.len() == y.len(),
        by_second.len() == y.len(),
        by_both.len() == y.len(),
        all == sums(sums(y, by_second), sums(by_first, by_both)),
    ensures
        all == sums(sums(y, sums(by_first, by_second)), by_both),
{
    let r = sums(sums(y, sums(by_first, by_second)), by_both);
    assert forall|k: int| 0 <= k < y.len() implies all[k] == r[k] by {
        lemma_cross(y[k], by_first[k], by_second[k], by_both[k]);
    }
    assert(all =~= r);
}

/// Four summands, the middle ones swapped.
proof fn lemma_cross<R: Ring>(a: R, b: R, c: R, d: R)
    ensures
        a.plus(c).plus(b.plus(d)) == a.plus(b.plus(c)).plus(d),
{
    R::plus_associates(a.plus(c), b, d);
    R::plus_associates(a, c, b);
    R::plus_commutes(c, b);
}

/// The sum of two arrays.
proof fn lemma_moved_sums<R: Ring>(rule: Rule, xs: Seq<Array<R>>, dxs: Seq<Array<R>>)
    requires
        rule == Rule::Add || rule == Rule::Sub,
        xs.len() == 2,
        dxs.len() == 2,
        zips(xs[0].shape, xs[1].shape),
        xs[0].wf(),
        xs[1].wf(),
        dxs[0].wf(),
        dxs[1].wf(),
        dxs[0].shape == xs[0].shape,
        dxs[1].shape == xs[1].shape,
    ensures
        rule.value(moved(xs, dxs)) == summed(rule.value(xs), rule.tangent(xs, dxs)),
{
    let s = joint_shape(xs[0].shape, xs[1].shape);
    let (a, b, c, d) = (xs[0], xs[1], dxs[0], dxs[1]);
    let (l, y, t) = (rule.value(moved(xs, dxs)), rule.value(xs), rule.tangent(xs, dxs));
    joint_shape_receives_both(a.shape, b.shape);
    lemma_broadcast_map(a.shape, s);
    lemma_broadcast_map(b.shape, s);
    lemma_spread_adds(a, c, s);
    lemma_spread_adds(b, d, s);
    let (p, q) = (broadcast_spec(a, s).data, broadcast_spec(b, s).data);
    let (u, v) = (broadcast_spec(c, s).data, broadcast_spec(d, s).data);
    assert forall|k: int| 0 <= k < volume(s) implies l.data[k] == summed(y, t).data[k] by {
        if rule == Rule::Add {
            lemma_pairs(p[k], u[k], q[k], v[k]);
        } else {
            R::minus_adds_the_negation(p[k].plus(u[k]), q[k].plus(v[k]));
            R::minus_adds_the_negation(p[k], q[k]);
            R::minus_adds_the_negation(u[k], v[k]);
            lemma_negated_sum(q[k], v[k]);
            lemma_pairs(p[k], u[k], q[k].negated(), v[k].negated());
        }
    }
    assert(l.data =~= summed(y, t).data);
}

/// Spreading adds up.
proof fn lemma_spread_adds<R: Ring>(a: Array<R>, c: Array<R>, s: Seq<usize>)
    requires
        a.wf(),
        c.wf(),
        c.shape == a.shape,
        broadcasts_to(a.shape, s),
    ensures
        broadcast_spec(summed(a, c), s).data == sums(
            broadcast_spec(a, s).data,
            broadcast_spec(c, s).data,
        ),
{
    lemma_broadcast_map(a.shape, s);
    lemma_gather_adds(a.data, c.data, broadcast_map(a.shape, s));
}

/// The negation of a sum.
proof fn lemma_negated_sum<R: Ring>(a: R, b: R)
    ensures
        a.plus(b).negated() == a.negated().plus(b.negated()),
{
    let (l, r) = (a.plus(b).negated(), a.negated().plus(b.negated()));
    let s = a.plus(b);
    // both cancel a + b
    R::negation_cancels(s);
    lemma_pairs(a, b, a.negated(), b.negated());
    R::negation_cancels(a);
    R::negation_cancels(b);
    R::zero_is_neutral(R::zero_spec());
    R::plus_commutes(s, l);
    R::plus_commutes(s, r);
    lemma_cancel(l, r, s);
}

/// The product of two arrays.
proof fn lemma_moved_products<R: Ring>(xs: Seq<Array<R>>, dxs: Seq<Array<R>>)
    requires
        xs.len() == 2,
        dxs.len() == 2,
        zips(xs[0].shape, xs[1].shape),
        xs[0].wf(),
        xs[1].wf(),
        dxs[0].wf(),
        dxs[1].wf(),
        dxs[0].shape == xs[0].shape,
        dxs[1].shape == xs[1].shape,
    ensures
        Rule::Mul.value(moved(xs, dxs)) == expanded(
            Rule::Mul.value(xs),
            Rule::Mul.tangent(xs, dxs),
            Rule::Mul.second_order(dxs),
        ),
{
    let rule = Rule::Mul;
    let s = joint_shape(xs[0].shape, xs[1].shape);
    let (a, b, c, d) = (xs[0], xs[1], dxs[0], dxs[1]);
    let (l, y, t) = (rule.value(moved(xs, dxs)), rule.value(xs), rule.tangent(xs, dxs));
    joint_shape_receives_both(a.shape, b.shape);
    lemma_spread_adds(a, c, s);
    lemma_spread_adds(b, d, s);
    let (p, q) = (broadcast_spec(a, s).data, broadcast_spec(b, s).data);
    let (u, v) = (broadcast_spec(c, s).data, broadcast_spec(d, s).data);
    let left = zip_spec(Arithmetic::Times, c, b);
    let right = zip_spec(Arithmetic::Times, a, d);
    lemma_summed(left, right);
    let r = expanded(y, t, rule.second_order(dxs));
    assert forall|k: int| 0 <= k < volume(s) implies l.data[k] == r.data[k] by {
        lemma_product_of_sums(p[k], u[k], q[k], v[k]);
    }
    assert(l.data =~= r.data);
}

/// A product of two sums.
proof fn lemma_product_of_sums<R: Ring>(p: R, u: R, q: R, v: R)
    ensures
        p.plus(u).times(q.plus(v)) == p.times(q).plus(u.times(q).plus(p.times(v))).plus(
            u.times(v),
        ),
{
    R::times_distributes(p, u, q.plus(v));
    R::times_commutes(p, q.plus(v));
    R::times_distributes(q, v, p);
    R::times_commutes(q, p);
    R::times_commutes(v, p);
    R::times_commutes(u, q.plus(v));
    R::times_distributes(q, v, u);
    R::times_commutes(q, u);
    R::times_commutes(v, u);
    lemma_cross(p.times(q), u.times(q), p.times(v), u.times(v));
}

/// Squares and negations.
proof fn lemma_moved_one_by_one<R: Ring>(rule: Rule, xs: Seq<Array<R>>, dxs: Seq<Array<R>>)
    requires
        rule == Rule::Square || rule == Rule::Neg,
        xs.len() == 1,
        dxs.len() == 1,
        xs[0].wf(),
        dxs[0].wf(),
        dxs[0].shape == xs[0].shape,
    ensures
        rule.value(moved(xs, dxs)) == expanded(
            rule.value(xs),
            rule.tangent(xs, dxs),
            rule.second_order(dxs),
        ),
{
    let (a, c) = (xs[0], dxs[0]);
    let (l, y, t) = (rule.value(moved(xs, dxs)), rule.value(xs), rule.tangent(xs, dxs));
    lemma_joint_with_itself(a.shape);
    broadcasting_to_the_same_shape_is_the_identity(a);
    broadcasting_to_the_same_shape_is_the_identity(c);
    if rule == Rule::Square {
        lemma_summed(
            zip_spec(Arithmetic::Times, c, a),
            zip_spec(Arithmetic::Times, a, c),
        );
    }
    let r = expanded(y, t, rule.second_order(dxs));
    assert forall|k: int| 0 <= k < a.data.len() implies l.data[k] == r.data[k] by {
        if rule == Rule::Square {
            lemma_product_of_sums(a.data[k], c.data[k], a.data[k], c.data[k]);
        } else {
            lemma_negated_sum(a.data[k], c.data[k]);
        }
    }
    assert(l.data =~= r.data);
}

/// What a biased product of sums expands to, elementwise.
proof fn lemma_expands_biased<R: Ring>(
    y: Seq<R>,
    by_first: Seq<R>,
    by_second: Seq<R>,
    by_both: Seq<R>,
    bias: Seq<R>,
    by_bias: Seq<R>,
)
    requires
        by_first.len() == y.len(),
        by_second.len() == y.len(),
        by_both.len() == y.len(),
        bias.len() == y.len(),
        by_bias.len() == y.len(),
    ensures
        sums(sums(sums(y, by_second), sums(by_first, by_both)), sums(bias, by_bias)) == sums(
            sums(sums(y, bias), sums(sums(by_first, by_bias), by_second)),
            by_both,
        ),
{
    let l = sums(sums(sums(y, by_second), sums(by_first, by_both)), sums(bias, by_bias));
    let r = sums(sums(sums(y, bias), sums(sums(by_first, by_bias), by_second)), by_both);
    assert forall|k: int| 0 <= k < y.len() implies l[k] == r[k] by {
        let (a, b, c, d) = (y[k], by_first[k], by_second[k], by_both[k]);
        let (e, f) = (bias[k], by_bias[k]);
        lemma_cross(a, b, c, d);
        // (a + (b + c)) + d + (e + f) = ((a + e) + ((b + f) + c)) + d
        let bc = b.plus(c);
        R::plus_associates(a.plus(bc), d, e.plus(f));
        R::plus_commutes(d, e.plus(f));
        R::plus_associates(a.plus(bc), e.plus(f), d);
        lemma_pairs(a, bc, e, f);
        R::plus_associates(b, c, f);
        R::plus_commutes(c, f);
        R::plus_associates(b, f, c);
    }
    assert(l =~= r);
}

/// Matrix products, with or without a bias.
proof fn lemma_moved_matrix_products<R: Ring>(rule: Rule, xs: Seq<Array<R>>, dxs: Seq<Array<R>>)
    requires
        rule == Rule::MatMul && xs.len() == 2 || rule == Rule::Linear && 2 <= xs.len() <= 3,
        dxs.len() == xs.len(),
        linear_fits(xs[0].shape, xs[1].shape, third(shapes(xs))),
        forall|i: int| 0 <= i < xs.len() ==> (#[trigger] xs[i]).wf(),
        forall|i: int| 0 <= i < xs.len() ==> (#[trigger] dxs[i]).wf(),
        shapes(dxs) == shapes(xs),
    ensures
        rule.value(moved(xs, dxs)) == expanded(
            rule.value(xs),
            rule.tangent(xs, dxs),
            rule.second_order(dxs),
        ),
{
    let (a, b, c, d) = (xs[0], xs[1], dxs[0], dxs[1]);
    assert(a.wf() && b.wf() && c.wf() && d.wf());
    assert(shapes(dxs)[0] == shapes(xs)[0] && shapes(dxs)[1] == shapes(xs)[1]);
    assert(a.shape =~= seq![a.shape[0], a.shape[1]]);
    assert(b.shape =~= seq![b.shape[0], b.shape[1]]);
    lemma_volume2(a.shape[0], a.shape[1]);
    lemma_volume2(b.shape[0], b.shape[1]);
    lemma_volume2(a.shape[0], b.shape[1]);
    let (ac, bd) = (summed(a, c), summed(b, d));
    let (ab, cb) = (matmul_spec(a, b), matmul_spec(c, b));
    let (ad, cd) = (matmul_spec(a, d), matmul_spec(c, d));
    let all = matmul_spec(ac, bd);
    lemma_matmul_adds(a, c, bd, d);
    lemma_matmul_adds(a, c, b, d);
    lemma_matmul_adds(c, c, b, d);
    lemma_expands(ab.data, cb.data, ad.data, cd.data, all.data);
    let l = rule.value(moved(xs, dxs));
    let t = rule.tangent(xs, dxs);
    let r = expanded(rule.value(xs), t, rule.second_order(dxs));
    if xs.len() == 2 {
        lemma_summed(cb, ad);
        assert(l.data =~= r.data);
    } else {
        let (e, f) = (xs[2], dxs[2]);
        assert(e.wf() && f.wf());
        assert(shapes(dxs)[2] == shapes(xs)[2]);
        let s = ab.shape;
        lemma_joint_absorbs(s, e.shape);
        lemma_spread_adds(e, f, s);
        lemma_broadcast_map(e.shape, s);
        broadcasting_to_the_same_shape_is_the_identity(ab);
        broadcasting_to_the_same_shape_is_the_identity(cb);
        broadcasting_to_the_same_shape_is_the_identity(all);
        let (be, bf) = (broadcast_spec(e, s).data, broadcast_spec(f, s).data);
        let (y, p) = (zip_spec(Arithmetic::Plus, ab, e), zip_spec(Arithmetic::Plus, cb, f));
        assert(y.data =~= sums(ab.data, be));
        assert(p.data =~= sums(cb.data, bf));
        assert(l.data =~= sums(all.data, sums(be, bf)));
        lemma_summed(p, ad);
        lemma_expands_biased(ab.data, cb.data, ad.data, cd.data, be, bf);
        assert(l.data =~= r.data);
    }
}

/// The matrix product behind a convolution adds up over images and over filters.
proof fn lemma_conv_adds<R: Ring>(
    x: Array<R>,
    c: Array<R>,
    w: Array<R>,
    d: Array<R>,
    stride: (usize, usize),
    pad: (usize, usize),
)
    requires
        x.wf(),
        c.wf(),
        w.wf(),
        d.wf(),
        c.shape == x.shape,
        d.shape == w.shape,
        conv2d_fits(x.shape, w.shape, None, stride, pad),
    ensures
        conv2d_spec(summed(x, c), w, None, stride, pad).data == sums(
            conv2d_spec(x, w, None, stride, pad).data,
            conv2d_spec(c, w, None, stride, pad).data,
        ),
        conv2d_spec(x, summed(w, d), None, stride, pad).data == sums(
            conv2d_spec(x, w, None, stride, pad).data,
            conv2d_spec(x, d, None, stride, pad).data,
        ),
{
    let kernel = (w.shape[2], w.shape[3]);
    let p = patches_spec(x.shape, kernel, stride, pad);
    let g = full_spec(conv2d_shape(x.shape, w.shape, stride, pad), R::zero_spec());
    lemma_conv_volume(x.shape, w.shape, stride, pad);
    lemma_convolved(x, w, g, stride, pad);
    p.lemma_map_into();
    lemma_patches_wf(x.shape, kernel, stride, pad);
    let (cx, cc) = (im2col_spec(x, kernel, stride, pad), im2col_spec(c, kernel, stride, pad));
    let (f, h) = (filters_as_rows(w), filters_as_rows(d));
    let (ft, ht) = (transpose_spec(f), transpose_spec(h));
    // the factors
    lemma_gather_adds(x.data, c.data, p.map());
    let (xc, wd) = (summed(x, c), summed(w, d));
    assert(im2col_spec(xc, kernel, stride, pad) == summed(cx, cc));
    let map = permute_map(f.shape, reversed_axes(2));
    lemma_reversed_axes(2);
    lemma_permute_map(f.shape, reversed_axes(2));
    lemma_gather_adds(w.data, d.data, map);
    lemma_transposed_matrix(f);
    assert(transpose_spec(filters_as_rows(wd)) == summed(ft, ht));
    // the product
    lemma_volume2(p.rows_spec() as usize, p.columns_spec() as usize);
    lemma_volume2(w.shape[0], p.columns_spec() as usize);
    let (rows, cols, o) = (p.rows_spec() as int, p.columns_spec() as int, w.shape[0] as int);
    assert(o * cols == cols * o) by (nonlinear_arith);
    assert(ft.data.len() == cols * o);
    lemma_matmul_adds(cx, cc, ft, ht);
    // the pixels
    let tall = seq![p.batch, p.out_h, p.out_w, w.shape[0]];
    lemma_channel_orders();
    lemma_volume4(p.batch, p.out_h, p.out_w, w.shape[0]);
    lemma_permute_map(tall, channels_first());
    let back = permute_map(tall, channels_first());
    let (y, yc) = (matmul_spec(cx, ft).data, matmul_spec(cc, ft).data);
    let yd = matmul_spec(cx, ht).data;
    lemma_gather_adds(y, yc, back);
    lemma_gather_adds(y, yd, back);
}

/// A convolution has no more elements than can be counted.
proof fn lemma_conv_volume(
    x: Seq<usize>,
    w: Seq<usize>,
    stride: (usize, usize),
    pad: (usize, usize),
)
    requires
        conv2d_fits(x, w, None, stride, pad),
    ensures
        volume(conv2d_shape(x, w, stride, pad)) <= usize::MAX,
{
    let p = patches_spec(x, (w[2], w[3]), stride, pad);
    let (n, o, h, v) = (p.batch, w[0], p.out_h, p.out_w);
    lemma_volume4(n, o, h, v);
    assert((n as nat) * (o as nat) * (h as nat) * (v as nat) == (n as nat) * (h as nat) * (
    v as nat) * (o as nat)) by (nonlinear_arith);
}

/// What a bias adds to each element of a convolution.
spec fn bias_part<T: Scalar>(
    b: Array<T>,
    x: Seq<usize>,
    w: Seq<usize>,
    stride: (usize, usize),
    pad: (usize, usize),
) -> Seq<T> {
    let p = conv_patches(x, w, stride, pad);
    let spread = broadcast_spec(b, seq![p.rows_spec() as usize, w[0]]);
    rows_to_nchw_spec(spread, p.batch, w[0], p.out_h, p.out_w).data
}

/// A biased convolution is the convolution with the bias added.
proof fn lemma_conv_biased<R: Ring>(
    x: Array<R>,
    w: Array<R>,
    b: Array<R>,
    stride: (usize, usize),
    pad: (usize, usize),
)
    requires
        x.wf(),
        w.wf(),
        b.wf(),
        b.shape == seq![w.shape[0]],
        conv2d_fits(x.shape, w.shape, None, stride, pad),
    ensures
        conv2d_spec(x, w, Some(b), stride, pad).data == sums(
            conv2d_spec(x, w, None, stride, pad).data,
            bias_part(b, x.shape, w.shape, stride, pad),
        ),
        bias_part(b, x.shape, w.shape, stride, pad).len() == volume(
            conv2d_shape(x.shape, w.shape, stride, pad),
        ),
{
    let kernel = (w.shape[2], w.shape[3]);
    let p = patches_spec(x.shape, kernel, stride, pad);
    let g = full_spec(conv2d_shape(x.shape, w.shape, stride, pad), R::zero_spec());
    lemma_conv_volume(x.shape, w.shape, stride, pad);
    lemma_convolved(x, w, g, stride, pad);
    let f = filters_as_rows(w);
    lemma_transposed_matrix(f);
    let y = matmul_spec(im2col_spec(x, kernel, stride, pad), transpose_spec(f));
    lemma_volume2(p.rows_spec() as usize, w.shape[0]);
    assert(y.wf());
    lemma_joint_absorbs(y.shape, b.shape);
    lemma_broadcast_map(b.shape, y.shape);
    broadcasting_to_the_same_shape_is_the_identity(y);
    let spread = broadcast_spec(b, y.shape);
    let biased = zip_spec(Arithmetic::Plus, y, b);
    assert(biased.data =~= sums(y.data, spread.data));
    let tall = seq![p.batch, p.out_h, p.out_w, w.shape[0]];
    lemma_channel_orders();
    lemma_volume4(p.batch, p.out_h, p.out_w, w.shape[0]);
    lemma_permute_map(tall, channels_first());
    lemma_gather_adds(y.data, spread.data, permute_map(tall, channels_first()));
    assert(spread.wf());
    let folded = rows_to_nchw_spec(spread, p.batch, w.shape[0], p.out_h, p.out_w);
    assert(folded.wf());
}

/// Biases add up.
proof fn lemma_bias_part_adds<R: Ring>(
    b: Array<R>,
    e: Array<R>,
    x: Seq<usize>,
    w: Seq<usize>,
    stride: (usize, usize),
    pad: (usize, usize),
)
    requires
        b.wf(),
        e.wf(),
        b.shape == seq![w[0]],
        e.shape == b.shape,
        conv2d_fits(x, w, None, stride, pad),
    ensures
        bias_part(summed(b, e), x, w, stride, pad) == sums(
            bias_part(b, x, w, stride, pad),
            bias_part(e, x, w, stride, pad),
        ),
{
    let p = conv_patches(x, w, stride, pad);
    let flat = seq![p.rows_spec() as usize, w[0]];
    lemma_spread_adds(b, e, flat);
    lemma_broadcast_map(b.shape, flat);
    let tall = seq![p.batch, p.out_h, p.out_w, w[0]];
    lemma_channel_orders();
    lemma_volume2(p.rows_spec() as usize, w[0]);
    lemma_volume4(p.batch, p.out_h, p.out_w, w[0]);
    lemma_permute_map(tall, channels_first());
    lemma_gather_adds(
        broadcast_spec(b, flat).data,
        broadcast_spec(e, flat).data,
        permute_map(tall, channels_first()),
    );
}

/// Convolutions, with or without a bias.
proof fn lemma_moved_convolutions<R: Ring>(
    stride: (usize, usize),
    pad: (usize, usize),
    xs: Seq<Array<R>>,
    dxs: Seq<Array<R>>,
)
    requires
        (Rule::Conv2d { stride, pad }).differentiable(shapes(xs)),
        dxs.len() == xs.len(),
        forall|i: int| 0 <= i < xs.len() ==> (#[trigger] xs[i]).wf(),
        forall|i: int| 0 <= i < xs.len() ==> (#[trigger] dxs[i]).wf(),
        shapes(dxs) == shapes(xs),
    ensures
        (Rule::Conv2d { stride, pad }).value(moved(xs, dxs)) == expanded(
            (Rule::Conv2d { stride, pad }).value(xs),
            (Rule::Conv2d { stride, pad }).tangent(xs, dxs),
            (Rule::Conv2d { stride, pad }).second_order(dxs),
        ),
{
    let rule = Rule::Conv2d { stride, pad };
    let (x, w, c, d) = (xs[0], xs[1], dxs[0], dxs[1]);
    assert(x.wf() && w.wf() && c.wf() && d.wf());
    assert(shapes(xs)[0] == x.shape && shapes(xs)[1] == w.shape);
    assert(shapes(dxs)[0] == shapes(xs)[0] && shapes(dxs)[1] == shapes(xs)[1]);
    let g = full_spec(conv2d_shape(x.shape, w.shape, stride, pad), R::zero_spec());
    lemma_conv_volume(x.shape, w.shape, stride, pad);
    let (xc, wd) = (summed(x, c), summed(w, d));
    let y = conv2d_spec(x, w, None, stride, pad);
    let by_first = conv2d_spec(c, w, None, stride, pad);
    let by_second = conv2d_spec(x, d, None, stride, pad);
    let by_both = conv2d_spec(c, d, None, stride, pad);
    let all = conv2d_spec(xc, wd, None, stride, pad);
    lemma_convolution_wf(x, w, None, g, stride, pad);
    lemma_convolution_wf(c, w, None, g, stride, pad);
    lemma_convolution_wf(x, d, None, g, stride, pad);
    lemma_convolution_wf(c, d, None, g, stride, pad);
    lemma_convolution_wf(xc, wd, None, g, stride, pad);
    lemma_conv_adds(x, c, wd, d, stride, pad);
    lemma_conv_adds(x, c, w, d, stride, pad);
    lemma_conv_adds(c, c, w, d, stride, pad);
    lemma_expands(y.data, by_first.data, by_second.data, by_both.data, all.data);
    let l = rule.value(moved(xs, dxs));
    let t = rule.tangent(xs, dxs);
    let r = expanded(rule.value(xs), t, rule.second_order(dxs));
    if xs.len() == 2 {
        lemma_summed(by_first, by_second);
        assert(l.data =~= r.data);
    } else {
        let (b, e) = (xs[2], dxs[2]);
        assert(b.wf() && e.wf());
        assert(shapes(dxs)[2] == shapes(xs)[2]);
        let be = summed(b, e);
        lemma_conv_biased(x, w, b, stride, pad);
        lemma_conv_biased(c, w, e, stride, pad);
        lemma_conv_biased(xc, wd, be, stride, pad);
        lemma_bias_part_adds(b, e, x.shape, w.shape, stride, pad);
        let p = conv2d_spec(c, w, Some(e), stride, pad);
        lemma_convolution_wf(c, w, Some(e), g, stride, pad);
        lemma_convolution_wf(x, w, Some(b), g, stride, pad);
        lemma_convolution_wf(xc, wd, Some(be), g, stride, pad);
        lemma_summed(p, by_second);
        lemma_expands_biased(
            y.data,
            by_first.data,
            by_second.data,
            by_both.data,
            bias_part(b, x.shape, w.shape, stride, pad),
            bias_part(e, x.shape, w.shape, stride, pad),
        );
        assert(l.data =~= r.data);
    }
}

/// The transposed convolution adds up over images and over filters.
proof fn lemma_deconv_adds<R: Ring>(
    x: Array<R>,
    c: Array<R>,
    w: Array<R>,
    d: Array<R>,
    stride: (usize, usize),
    pad: (usize, usize),
    outsize: Option<(usize, usize)>,
)
    requires
        x.wf(),
        c.wf(),
        w.wf(),
        d.wf(),
        c.shape == x.shape,
        d.shape == w.shape,
        deconv2d_fits(x.shape, w.shape, None, stride, pad, outsize),
    ensures
        deconv2d_spec(summed(x, c), w, None, stride, pad, outsize).data == sums(
            deconv2d_spec(x, w, None, stride, pad, outsize).data,
            deconv2d_spec(c, w, None, stride, pad, outsize).data,
        ),
        deconv2d_spec(x, summed(w, d), None, stride, pad, outsize).data == sums(
            deconv2d_spec(x, w, None, stride, pad, outsize).data,
            deconv2d_spec(x, d, None, stride, pad, outsize).data,
        ),
{
    let kernel = (w.shape[2], w.shape[3]);
    let out = deconv2d_shape(x.shape, w.shape, stride, pad, outsize);
    let p = patches_spec(out, kernel, stride, pad);
    lemma_rows_add(x, c);
    let (rx, rc) = (nchw_to_rows_spec(x), nchw_to_rows_spec(c));
    let (f, h) = (filters_by_input(w), filters_by_input(d));
    lemma_filters_len(w);
    lemma_filters_len(d);
    lemma_matmul_adds(rx, rc, f, h);
    let (y, yc) = (matmul_spec(rx, f).data, matmul_spec(rc, f).data);
    let yd = matmul_spec(rx, h).data;
    lemma_scatter_adds(y, yc, p.map(), volume(out));
    lemma_scatter_adds(y, yd, p.map(), volume(out));
    let (xc, wd) = (summed(x, c), summed(w, d));
    assert(nchw_to_rows_spec(xc) == summed(rx, rc));
    assert(filters_by_input(wd) == summed(f, h));
}

/// Filters as a matrix hold as many elements as before.
proof fn lemma_filters_len<T: Scalar>(w: Array<T>)
    requires
        w.wf(),
        w.shape.len() == 4,
        (w.shape[1] as nat) * (w.shape[2] as nat) * (w.shape[3] as nat) <= usize::MAX,
    ensures
        filters_by_input(w).data.len() == filters_by_input(w).shape[0]
            * filters_by_input(w).shape[1],
{
    assert(w.shape =~= seq![w.shape[0], w.shape[1], w.shape[2], w.shape[3]]);
    lemma_volume4(w.shape[0], w.shape[1], w.shape[2], w.shape[3]);
    let (a, b, c, d) = (
        w.shape[0] as nat,
        w.shape[1] as nat,
        w.shape[2] as nat,
        w.shape[3] as nat,
    );
    assert(a * b * c * d == a * (b * c * d)) by (nonlinear_arith);
}

/// Pixels as rows add up.
proof fn lemma_rows_add<R: Ring>(x: Array<R>, c: Array<R>)
    requires
        x.wf(),
        c.wf(),
        x.shape.len() == 4,
        c.shape == x.shape,
        (x.shape[0] as nat) * (x.shape[2] as nat) * (x.shape[3] as nat) <= usize::MAX,
    ensures
        nchw_to_rows_spec(summed(x, c)) == summed(nchw_to_rows_spec(x), nchw_to_rows_spec(c)),
        nchw_to_rows_spec(x).data.len() == nchw_to_rows_spec(x).shape[0]
            * nchw_to_rows_spec(x).shape[1],
        nchw_to_rows_spec(x).data.len() == x.data.len(),
        nchw_to_rows_spec(c).data.len() == x.data.len(),
        nchw_to_rows_spec(c).shape == nchw_to_rows_spec(x).shape,
{
    lemma_channel_orders();
    lemma_permute_map(x.shape, channels_last());
    lemma_gather_adds(x.data, c.data, permute_map(x.shape, channels_last()));
    assert(x.shape =~= seq![x.shape[0], x.shape[1], x.shape[2], x.shape[3]]);
    lemma_volume4(x.shape[0], x.shape[1], x.shape[2], x.shape[3]);
    let (n, o, h, v) = (
        x.shape[0] as nat,
        x.shape[1] as nat,
        x.shape[2] as nat,
        x.shape[3] as nat,
    );
    assert(n * o * h * v == n * h * v * o) by (nonlinear_arith);
}

/// Transposed convolutions, with or without a bias.
proof fn lemma_moved_transposed_convolutions<R: Ring>(
    stride: (usize, usize),
    pad: (usize, usize),
    outsize: Option<(usize, usize)>,
    xs: Seq<Array<R>>,
    dxs: Seq<Array<R>>,
)
    requires
        (Rule::Deconv2d { stride, pad, outsize }).differentiable(shapes(xs)),
        dxs.len() == xs.len(),
        forall|i: int| 0 <= i < xs.len() ==> (#[trigger] xs[i]).wf(),
        forall|i: int| 0 <= i < xs.len() ==> (#[trigger] dxs[i]).wf(),
        shapes(dxs) == shapes(xs),
    ensures
        (Rule::Deconv2d { stride, pad, outsize }).value(moved(xs, dxs)) == expanded(
            (Rule::Deconv2d { stride, pad, outsize }).value(xs),
            (Rule::Deconv2d { stride, pad, outsize }).tangent(xs, dxs),
            (Rule::Deconv2d { stride, pad, outsize }).second_order(dxs),
        ),
{
    let rule = Rule::Deconv2d { stride, pad, outsize };
    let (x, w, c, d) = (xs[0], xs[1], dxs[0], dxs[1]);
    assert(x.wf() && w.wf() && c.wf() && d.wf());
    assert(shapes(xs)[0] == x.shape && shapes(xs)[1] == w.shape);
    assert(shapes(dxs)[0] == shapes(xs)[0] && shapes(dxs)[1] == shapes(xs)[1]);
    let s = deconv2d_shape(x.shape, w.shape, stride, pad, outsize);
    lemma_patches_wf(s, (w.shape[2], w.shape[3]), stride, pad);
    let (xc, wd) = (summed(x, c), summed(w, d));
    let y = deconv2d_spec(x, w, None, stride, pad, outsize);
    let by_first = deconv2d_spec(c, w, None, stride, pad, outsize);
    let by_second = deconv2d_spec(x, d, None, stride, pad, outsize);
    let by_both = deconv2d_spec(c, d, None, stride, pad, outsize);
    let all = deconv2d_spec(xc, wd, None, stride, pad, outsize);
    assert(y.wf() && by_first.wf() && by_second.wf() && by_both.wf() && all.wf());
    lemma_deconv_adds(x, c, wd, d, stride, pad, outsize);
    lemma_deconv_adds(x, c, w, d, stride, pad, outsize);
    lemma_deconv_adds(c, c, w, d, stride, pad, outsize);
    lemma_expands(y.data, by_first.data, by_second.data, by_both.data, all.data);
    let l = rule.value(moved(xs, dxs));
    let t = rule.tangent(xs, dxs);
    let r = expanded(rule.value(xs), t, rule.second_order(dxs));
    if xs.len() == 2 {
        lemma_summed(by_first, by_second);
        assert(l.data =~= r.data);
    } else {
        let (b, e) = (xs[2], dxs[2]);
        assert(b.wf() && e.wf());
        assert(shapes(dxs)[2] == shapes(xs)[2]);
        let one = seq![1, w.shape[1], 1, 1];
        let (bc, ec) = (reshape_spec(b, one), reshape_spec(e, one));
        lemma_volume4(1, w.shape[1], 1, 1);
        assert(b.shape =~= seq![w.shape[1]]);
        reveal_with_fuel(volume, 2);
        lemma_joint_absorbs(s, one);
        lemma_spread_adds(bc, ec, s);
        lemma_broadcast_map(one, s);
        broadcasting_to_the_same_shape_is_the_identity(y);
        broadcasting_to_the_same_shape_is_the_identity(by_first);
        broadcasting_to_the_same_shape_is_the_identity(all);
        let (be, bf) = (broadcast_spec(bc, s).data, broadcast_spec(ec, s).data);
        let (v, p) = (zip_spec(Arithmetic::Plus, y, bc), zip_spec(Arithmetic::Plus, by_first, ec));
        assert(v.data =~= sums(y.data, be));
        assert(p.data =~= sums(by_first.data, bf));
        assert(reshape_spec(summed(b, e), one) == summed(bc, ec));
        assert(l.data =~= sums(all.data, sums(be, bf)));
        lemma_summed(p, by_second);
        lemma_expands_biased(y.data, by_first.data, by_second.data, by_both.data, be, bf);
        assert(l.data =~= r.data);
    }
}

/// The gradient of filters.
proof fn lemma_moved_gradients_of_filters<R: Ring>(
    kernel: (usize, usize),
    stride: (usize, usize),
    pad: (usize, usize),
    xs: Seq<Array<R>>,
    dxs: Seq<Array<R>>,
)
    requires
        (Rule::Conv2dGradW { kernel, stride, pad }).accepts(shapes(xs)),
        dxs.len() == xs.len(),
        forall|i: int| 0 <= i < xs.len() ==> (#[trigger] xs[i]).wf(),
        forall|i: int| 0 <= i < xs.len() ==> (#[trigger] dxs[i]).wf(),
        shapes(dxs) == shapes(xs),
    ensures
        (Rule::Conv2dGradW { kernel, stride, pad }).value(moved(xs, dxs)) == expanded(
            (Rule::Conv2dGradW { kernel, stride, pad }).value(xs),
            (Rule::Conv2dGradW { kernel, stride, pad }).tangent(xs, dxs),
            (Rule::Conv2dGradW { kernel, stride, pad }).second_order(dxs),
        ),
{
    let rule = Rule::Conv2dGradW { kernel, stride, pad };
    let (x, h, c, d) = (xs[0], xs[1], dxs[0], dxs[1]);
    assert(x.wf() && h.wf() && c.wf() && d.wf());
    assert(shapes(xs)[0] == x.shape && shapes(xs)[1] == h.shape);
    assert(shapes(dxs)[0] == shapes(xs)[0] && shapes(dxs)[1] == shapes(xs)[1]);
    let p = patches_spec(x.shape, kernel, stride, pad);
    lemma_patches_wf(x.shape, kernel, stride, pad);
    p.lemma_map_into();
    p.lemma_window_volume();
    lemma_gather_adds(x.data, c.data, p.map());
    lemma_rows_add(h, d);
    let (xc, hd) = (summed(x, c), summed(h, d));
    let (cx, cc) = (im2col_spec(x, kernel, stride, pad), im2col_spec(c, kernel, stride, pad));
    let (rh, rd) = (nchw_to_rows_spec(h), nchw_to_rows_spec(d));
    let (u, v) = (transpose_spec(rh), transpose_spec(rd));
    lemma_volume2(p.rows_spec() as usize, p.columns_spec() as usize);
    lemma_volume2(rh.shape[0], rh.shape[1]);
    lemma_volume2(h.shape[1], p.columns_spec() as usize);
    assert(rh.shape =~= seq![rh.shape[0], rh.shape[1]]);
    lemma_reversed_axes(2);
    lemma_permute_map(rh.shape, reversed_axes(2));
    lemma_gather_adds(rh.data, rd.data, permute_map(rh.shape, reversed_axes(2)));
    lemma_transposed_matrix(rh);
    assert(transpose_spec(nchw_to_rows_spec(hd)) == summed(u, v));
    assert(im2col_spec(xc, kernel, stride, pad) == summed(cx, cc));
    let (rows, o) = (rh.shape[0] as int, rh.shape[1] as int);
    assert(rows * o == o * rows) by (nonlinear_arith);
    assert(u.data.len() == o * rows);
    let ccx = summed(cx, cc);
    lemma_matmul_adds(u, v, ccx, cc);
    lemma_matmul_adds(u, v, cx, cc);
    lemma_matmul_adds(v, v, cx, cc);
    let y = conv2d_grad_w_spec(x, h, kernel, stride, pad);
    let by_first = conv2d_grad_w_spec(c, h, kernel, stride, pad);
    let by_second = conv2d_grad_w_spec(x, d, kernel, stride, pad);
    let by_both = conv2d_grad_w_spec(c, d, kernel, stride, pad);
    let all = conv2d_grad_w_spec(xc, hd, kernel, stride, pad);
    // here the changes of the first input change the second factor
    assert(all.data == sums(sums(y.data, by_first.data), sums(by_second.data, by_both.data)));
    lemma_expands(y.data, by_second.data, by_first.data, by_both.data, all.data);
    lemma_filter_volume(h.shape[1], x.shape[1], kernel, p.columns_spec());
    lemma_summed(by_first, by_second);
    let t = rule.tangent(xs, dxs);
    assert(sums(by_second.data, by_first.data) =~= t.data) by {
        assert forall|k: int| 0 <= k < t.data.len() implies sums(
            by_second.data,
            by_first.data,
        )[k] == t.data[k] by {
            R::plus_commutes(by_second.data[k], by_first.data[k]);
        }
    }
}

proof fn lemma_filter_volume(o: usize, c: usize, kernel: (usize, usize), columns: nat)
    requires
        columns == (c as nat) * (kernel.0 as nat) * (kernel.1 as nat),
    ensures
        volume(seq![o, c, kernel.0, kernel.1]) == o * columns,
{
    lemma_volume4(o, c, kernel.0, kernel.1);
    let (a, b, d, e) = (o as nat, c as nat, kernel.0 as nat, kernel.1 as nat);
    assert(a * b * d * e == a * (b * d * e)) by (nonlinear_arith);
}

/// The operations that only move elements and add them up.
proof fn lemma_moved_linear<R: Ring>(rule: Rule, xs: Seq<Array<R>>, dxs: Seq<Array<R>>)
    requires
        rule.accepts(shapes(xs)),
        rule is Reshape || rule is Transpose || rule is Sum || rule is SumTo || rule is BroadcastTo
            || rule is Im2col || rule is Col2im || rule is Pooling2dGrad
            || rule is Pooling2dWithIndexes,
        xs.len() == 1,
        dxs.len() == 1,
        xs[0].wf(),
        dxs[0].wf(),
        xs[0].shape.len() <= usize::MAX,
        dxs[0].shape == xs[0].shape,
    ensures
        rule.value(moved(xs, dxs)).data == sums(rule.value(xs).data, rule.tangent(xs, dxs).data),
        rule.value(moved(xs, dxs)).shape == rule.value(xs).shape,
{
    let (x, c) = (xs[0], dxs[0]);
    let s = x.shape;
    assert(shapes(xs)[0] == s);
    match rule {
        Rule::Transpose => {
            lemma_reversed_axes(s.len());
            lemma_permute_map(s, reversed_axes(s.len()));
            lemma_gather_adds(x.data, c.data, permute_map(s, reversed_axes(s.len())));
        },
        Rule::Sum { axes, keepdims } => {
            let kept = kept_shape(s, listed(axes, s.len()));
            lemma_kept_shape(s, listed(axes, s.len()));
            summing_axis_by_axis_is_summing_at_once(x, kept);
            summing_axis_by_axis_is_summing_at_once(c, kept);
            summing_axis_by_axis_is_summing_at_once(summed(x, c), kept);
            lemma_scatter_adds(x.data, c.data, broadcast_map(kept, s), volume(kept));
        },
        Rule::SumTo { shape } => {
            summing_axis_by_axis_is_summing_at_once(x, shape);
            summing_axis_by_axis_is_summing_at_once(c, shape);
            summing_axis_by_axis_is_summing_at_once(summed(x, c), shape);
            lemma_scatter_adds(x.data, c.data, broadcast_map(shape, s), volume(shape));
        },
        Rule::BroadcastTo { shape } => {
            lemma_spread_adds(x, c, shape);
        },
        Rule::Im2col { kernel, stride, pad, to_matrix } => {
            let p = patches_spec(s, kernel, stride, pad);
            lemma_patches_wf(s, kernel, stride, pad);
            p.lemma_map_into();
            p.lemma_window_volume();
            lemma_gather_adds(x.data, c.data, p.map());
            lemma_position_orders();
            lemma_permute_map(p.window_shape(), positions_last());
            lemma_gather_adds(
                gather(x.data, p.map()),
                gather(c.data, p.map()),
                permute_map(p.window_shape(), positions_last()),
            );
        },
        Rule::Col2im { input_shape, kernel, stride, pad, to_matrix } => {
            let p = patches_spec(input_shape, kernel, stride, pad);
            if to_matrix {
                lemma_scatter_adds(x.data, c.data, p.map(), volume(input_shape));
            } else {
                lemma_position_orders();
                lemma_permute_map(s, positions_first());
                let map = permute_map(s, positions_first());
                lemma_gather_adds(x.data, c.data, map);
                lemma_scatter_adds(
                    gather(x.data, map),
                    gather(c.data, map),
                    p.map(),
                    volume(input_shape),
                );
            }
        },
        Rule::Pooling2dGrad { kernel, stride, pad, input_shape, winners } => {
            let p = patches_spec(input_shape, kernel, stride, pad);
            let map = winner_map(p, winners);
            let n = p.rows_spec() * p.columns_spec();
            lemma_place_adds(x.data, c.data, map, n);
            lemma_scatter_adds(
                place(x.data, map, n),
                place(c.data, map, n),
                p.map(),
                volume(input_shape),
            );
        },
        Rule::Pooling2dWithIndexes { kernel, stride, pad, winners } => {
            let p = patches_spec(s, kernel, stride, pad);
            lemma_patches_wf(s, kernel, stride, pad);
            p.lemma_map_into();
            p.lemma_window_volume();
            lemma_gather_adds(x.data, c.data, p.map());
            let map = winner_map(p, winners);
            let n = p.rows_spec() * p.columns_spec();
            assert forall|e: int| 0 <= e < map.len() implies (#[trigger] map[e] matches Some(j)
                ==> (j as nat) < n) by {
                lemma_window_start(p, e);
            }
            lemma_gather_adds(gather(x.data, p.map()), gather(c.data, p.map()), map);
        },
        _ => {},
    }
}

/// A change of the inputs changes the output by the tangent, and beyond that only by a
/// product of changes where the operation multiplies. The tangent is the derivative.
///
/// The rectifier and the pooling choose between their inputs by comparing them; they are
/// linear as long as the choice stays the same.
pub proof fn the_tangent_is_the_first_order_of_a_change<R: Ring>(
    rule: Rule,
    xs: Seq<Array<R>>,
    dxs: Seq<Array<R>>,
)
    requires
        rule.differentiable(shapes(xs)),
        rule.polynomial(),
        forall|i: int|
            0 <= i < xs.len() ==> (#[trigger] xs[i]).wf() && xs[i].shape.len() <= usize::MAX,
        forall|i: int| 0 <= i < dxs.len() ==> (#[trigger] dxs[i]).wf(),
        shapes(dxs) == shapes(xs),
    ensures
        rule.value(moved(xs, dxs)) == expanded(
            rule.value(xs),
            rule.tangent(xs, dxs),
            rule.second_order(dxs),
        ),
{
    let s = shapes(xs);
    assert(dxs.len() == shapes(dxs).len());
    assert(xs.len() > 0);
    assert(xs[0].wf() && dxs[0].wf() && s[0] == xs[0].shape && shapes(dxs)[0] == dxs[0].shape);
    if xs.len() > 1 {
        assert(xs[1].wf() && dxs[1].wf() && s[1] == xs[1].shape && shapes(dxs)[1]
            == dxs[1].shape);
    }
    match rule {
        Rule::Add | Rule::Sub => {
            lemma_moved_sums(rule, xs, dxs);
        },
        Rule::Mul => {
            lemma_moved_products(xs, dxs);
        },
        Rule::Neg | Rule::Square => {
            lemma_moved_one_by_one(rule, xs, dxs);
        },
        Rule::MatMul | Rule::Linear => {
            lemma_moved_matrix_products(rule, xs, dxs);
        },
        Rule::Conv2d { stride, pad } => {
            lemma_moved_convolutions(stride, pad, xs, dxs);
        },
        Rule::Deconv2d { stride, pad, outsize } => {
            lemma_moved_transposed_convolutions(stride, pad, outsize, xs, dxs);
        },
        Rule::Conv2dGradW { kernel, stride, pad } => {
            lemma_moved_gradients_of_filters(kernel, stride, pad, xs, dxs);
        },
        _ => {
            lemma_moved_linear(rule, xs, dxs);
        },
    }
}

} // verus!
