//! Operations and their transposes: what is passed forward by the one is passed back by
//! the other.

use vstd::arithmetic::div_mod::{lemma_fundamental_div_mod, lemma_fundamental_div_mod_converse};
use vstd::prelude::*;

use crate::engine::elementwise::{lemma_joint_absorbs, zip_spec, Arithmetic};
use crate::functions::conv::{
    conv2d_fits, conv2d_grad_w_spec, conv2d_shape, conv2d_spec, conv_patches, deconv2d_spec,
    filters_as_rows, lemma_transposed_matrix,
    lemma_window_start, picked_spec, pooled_shape, pooling_fits, pooling_grad_spec, window_size,
    window_start, winner_map,
};
use crate::functions::matmul::{column, matmul_spec, multiplies, row};
use crate::index::{
    in_bounds, lemma_offset_bound, lemma_unravel, lemma_unravel_offset, offset, unravel, volume,
};
use crate::inner::{
    lemma_dot_commutes, lemma_dot_grows, lemma_dot_of_two, lemma_dot_same, lemma_dot_split,
    lemma_dot_zeros,
};
use crate::remap::{
    dot, gather, lemma_visits_once, place, placing_is_scattering_where_no_position_repeats,
    repeated, scatter, scatter_is_adjoint_to_gather, scattering_back_counts_the_visits, visits,
};
use crate::scalar::{Ring, Scalar};
use crate::tensor::{
    is_permutation, lemma_permute_map, lemma_reversed_axes, lemma_unpermuted, lemma_volume_permuted,
    permute_map, permute_source, permute_spec, permuted, permuting_back_is_the_identity,
    reshape_spec, reversed_axes, transpose_spec, transposing_twice_is_the_identity, unpermuted,
    Array,
};
use crate::utils::conv::{
    channels_first, channels_last, col2im_array_spec, col2im_is_adjoint_to_im2col, col2im_spec,
    col_shape, im2col_array_spec, im2col_spec, lemma_channel_orders, lemma_patches_wf,
    lemma_position_orders, lemma_volume2, lemma_volume4, nchw_to_rows_spec, patches_fit,
    patches_spec, positions_first, positions_last, rows_to_nchw_spec, Patches,
};use crate::utils::shape::{
    broadcast_source, broadcast_spec, broadcasting_to_the_same_shape_is_the_identity,
    lemma_broadcast_map, seen_through, sum_to_is_adjoint_to_broadcast, sum_to_spec,
};

verus! {

/// The place of the multi-index `idx` once the axes are reordered.
spec fn reordered(idx: Seq<int>, axes: Seq<usize>) -> Seq<int> {
    Seq::new(axes.len(), |i: int| idx[axes[i] as int])
}

/// Every position is read by exactly one position of the reordered array.
proof fn lemma_read_once(s: Seq<usize>, axes: Seq<usize>, j: int)
    requires
        is_permutation(axes, s.len()),
        volume(s) <= usize::MAX,
        0 <= j < volume(s),
    ensures
        visits(permute_map(s, axes), j, volume(s) as int) == 1,
{
    let out = permuted(s, axes);
    let map = permute_map(s, axes);
    lemma_volume_permuted(s, axes);
    lemma_permute_map(s, axes);
    let idx = unravel(s, j);
    lemma_unravel(s, j);
    let jdx = reordered(idx, axes);
    assert forall|i: int| 0 <= i < out.len() implies 0 <= #[trigger] jdx[i] < out[i] by {
        assert(axes[i] < s.len());
        assert(0 <= idx[axes[i] as int] < s[axes[i] as int]);
    }
    lemma_offset_bound(out, jdx);
    let k = offset(out, jdx);
    lemma_unravel_offset(out, jdx);
    lemma_unpermuted(s, axes, jdx);
    assert(unpermuted(jdx, axes) =~= idx) by {
        assert forall|a: int| 0 <= a < s.len() implies unpermuted(jdx, axes)[a] == idx[a] by {
            assert(axes.contains(a as usize));
            let i = axes.index_of(a as usize);
            assert(axes[i] == a as usize);
            assert(unpermuted(jdx, axes)[axes[i] as int] == jdx[i]);
        }
    }
    assert(permute_source(s, axes, k) == j);
    assert(map[k] == Some(j as usize));
    assert forall|m: int| 0 <= m < volume(s) && m != k implies !(#[trigger] map[m] matches Some(t)
        && t == j) by {
        if permute_source(s, axes, m) == j {
            let mdx = unravel(out, m);
            lemma_unravel(out, m);
            lemma_unpermuted(s, axes, mdx);
            lemma_unravel_offset(s, unpermuted(mdx, axes));
            assert(unpermuted(mdx, axes) == idx);
            assert(mdx =~= jdx) by {
                assert forall|i: int| 0 <= i < out.len() implies mdx[i] == jdx[i] by {
                    assert(unpermuted(mdx, axes)[axes[i] as int] == mdx[i]);
                }
            }
            assert(m == k);
        }
        assert(0 <= permute_source(s, axes, m) < volume(s));
    }
    lemma_visits_once(map, j, k, volume(s) as int);
}

/// Reordering axes is the transpose of putting them back.
pub proof fn permuting_is_adjoint_to_permuting_back<R: Ring>(
    x: Array<R>,
    y: Array<R>,
    p: Seq<usize>,
    q: Seq<usize>,
)
    requires
        x.wf(),
        y.wf(),
        volume(x.shape) <= usize::MAX,
        is_permutation(p, x.shape.len()),
        is_permutation(q, x.shape.len()),
        forall|i: int| 0 <= i < p.len() ==> q[#[trigger] p[i] as int] == i,
        forall|i: int| 0 <= i < q.len() ==> p[#[trigger] q[i] as int] == i,
        y.shape == permuted(x.shape, p),
    ensures
        dot(permute_spec(x, p).data, y.data, y.data.len() as int) == dot(
            x.data,
            permute_spec(y, q).data,
            x.data.len() as int,
        ),
{
    let s = x.shape;
    let map = permute_map(s, p);
    let back = permute_spec(y, q);
    lemma_permute_map(s, p);
    lemma_volume_permuted(s, p);
    lemma_volume_permuted(y.shape, q);
    permuting_back_is_the_identity(y, q, p);
    assert(back.shape =~= s) by {
        assert forall|i: int| 0 <= i < s.len() implies back.shape[i] == s[i] by {
            assert(q[i] < s.len());
            assert(p[q[i] as int] == i);
        }
    }
    assert(gather(back.data, map) == y.data);
    assert(scatter(y.data, map, x.data.len()) =~= back.data) by {
        assert forall|j: int| 0 <= j < x.data.len() implies scatter(
            y.data,
            map,
            x.data.len(),
        )[j] == back.data[j] by {
            scattering_back_counts_the_visits(back.data, map, j);
            lemma_read_once(s, p, j);
            assert(repeated(back.data[j], 1) == repeated(back.data[j], 0).plus(back.data[j]));
            R::plus_commutes(R::zero_spec(), back.data[j]);
            R::zero_is_neutral(back.data[j]);
        }
    }
    scatter_is_adjoint_to_gather(x.data, y.data, map);
    lemma_dot_commutes(back.data, x.data, x.data.len() as int);
    lemma_dot_commutes(y.data, gather(x.data, map), y.data.len() as int);
}

/// What a row `c` makes of `n` rows of a matrix, weighed by `g`.
spec fn weighed<R: Ring>(c: Seq<R>, f: Array<R>, g: Seq<R>, n: int) -> R
    decreases n,
{
    if n <= 0 {
        R::zero_spec()
    } else {
        weighed(c, f, g, n - 1).plus(dot(c, row(f, n - 1), f.shape[1] as int).times(g[n - 1]))
    }
}

/// The products of `g` with the columns of a matrix, of which `n` rows count.
spec fn through<R: Ring>(f: Array<R>, g: Seq<R>, n: int) -> Seq<R> {
    Seq::new(f.shape[1] as nat, |k: int| dot(g, column(f, k), n))
}

proof fn lemma_exchange<R: Ring>(c: Seq<R>, f: Array<R>, g: Seq<R>, n: int)
    requires
        f.shape.len() == 2,
        0 <= n <= f.shape[0],
    ensures
        weighed(c, f, g, n) == dot(c, through(f, g, n), f.shape[1] as int),
    decreases n,
{
    let width = f.shape[1] as int;
    if n == 0 {
        lemma_dot_zeros(c, through(f, g, 0), width);
    } else {
        lemma_exchange(c, f, g, n - 1);
        let (u, w) = (through(f, g, n - 1), through(f, g, n));
        let r = row(f, n - 1);
        assert forall|k: int| 0 <= k < width implies #[trigger] w[k] == u[k].plus(
            g[n - 1].times(r[k]),
        ) by {
            assert(column(f, k)[n - 1] == f.data[(n - 1) * width + k]);
        }
        lemma_dot_grows(c, u, r, w, g[n - 1], width);
    }
}

/// An entry of a transposed matrix.
pub proof fn lemma_transposed_entry<T: Scalar>(f: Array<T>, o: int, k: int)
    requires
        f.wf(),
        f.shape.len() == 2,
        volume(f.shape) <= usize::MAX,
        0 <= o < f.shape[0],
        0 <= k < f.shape[1],
    ensures
        transpose_spec(f).data[k * f.shape[0] + o] == f.data[o * f.shape[1] + k],
{
    let s = f.shape;
    let axes = reversed_axes(2);
    let out = permuted(s, axes);
    lemma_reversed_axes(2);
    lemma_volume_permuted(s, axes);
    lemma_permute_map(s, axes);
    assert(out =~= seq![s[1], s[0]]);
    let idx = seq![o, k];
    let jdx = seq![k, o];
    assert(in_bounds(out, jdx));
    assert(in_bounds(s, idx));
    lemma_offset2(out, jdx);
    lemma_offset2(s, idx);
    let e = offset(out, jdx);
    lemma_offset_bound(out, jdx);
    lemma_unravel_offset(out, jdx);
    lemma_unpermuted(s, axes, jdx);
    assert(unpermuted(jdx, axes) =~= idx) by {
        assert(axes[0] == 1 && axes[1] == 0);
        assert(unpermuted(jdx, axes)[axes[0] as int] == jdx[0]);
        assert(unpermuted(jdx, axes)[axes[1] as int] == jdx[1]);
    }
    assert(permute_map(s, axes)[e] == Some(offset(s, idx) as usize));
    lemma_offset_bound(s, idx);
}

/// The position of an entry of a matrix.
proof fn lemma_offset2(s: Seq<usize>, idx: Seq<int>)
    requires
        s.len() == 2,
        idx.len() == 2,
    ensures
        offset(s, idx) == idx[0] * s[1] + idx[1],
{
    reveal_with_fuel(offset, 3);
    assert(s.drop_last().drop_last() =~= Seq::<usize>::empty());
    assert(s.drop_last().last() == s[0]);
    assert(idx.drop_last().last() == idx[0]);
}

/// Multiplying by a transposed matrix is the transpose of multiplying by the matrix.
pub proof fn multiplying_is_adjoint_to_multiplying_back<R: Ring>(
    c: Array<R>,
    f: Array<R>,
    g: Array<R>,
)
    requires
        c.wf(),
        f.wf(),
        g.wf(),
        c.shape.len() == 2,
        f.shape.len() == 2,
        g.shape == seq![c.shape[0], f.shape[0]],
        c.shape[1] == f.shape[1],
        volume(f.shape) <= usize::MAX,
    ensures
        dot(
            matmul_spec(c, transpose_spec(f)).data,
            g.data,
            g.data.len() as int,
        ) == dot(c.data, matmul_spec(g, f).data, c.data.len() as int),
{
    let (m, o, k) = (c.shape[0] as int, f.shape[0] as int, f.shape[1] as int);
    assert(c.shape =~= seq![c.shape[0], c.shape[1]]);
    lemma_volume2(c.shape[0], c.shape[1]);
    lemma_volume2(c.shape[0], f.shape[0]);
    lemma_rows_agree(c, f, g, m);
}

proof fn lemma_rows_agree<R: Ring>(c: Array<R>, f: Array<R>, g: Array<R>, n: int)
    requires
        c.wf(),
        f.wf(),
        g.wf(),
        c.shape.len() == 2,
        f.shape.len() == 2,
        g.shape == seq![c.shape[0], f.shape[0]],
        c.shape[1] == f.shape[1],
        volume(f.shape) <= usize::MAX,
        c.data.len() == c.shape[0] * c.shape[1],
        g.data.len() == c.shape[0] * f.shape[0],
        0 <= n <= c.shape[0],
    ensures
        dot(
            matmul_spec(c, transpose_spec(f)).data,
            g.data,
            n * f.shape[0],
        ) == dot(c.data, matmul_spec(g, f).data, n * f.shape[1]),
    decreases n,
{
    let (m, o, k) = (c.shape[0] as int, f.shape[0] as int, f.shape[1] as int);
    let y = matmul_spec(c, transpose_spec(f));
    let z = matmul_spec(g, f);
    lemma_transposed_matrix(f);
    if n == 0 {
        assert(0 * o == 0 && 0 * k == 0);
    } else {
        let i = n - 1;
        lemma_rows_agree(c, f, g, i);
        assert(i * o + o == n * o && n * o <= m * o && i * k + k == n * k && n * k <= m * k && 0
            <= i * o && 0 <= i * k) by (nonlinear_arith)
            requires
                i == n - 1,
                1 <= n <= m,
                0 <= o,
                0 <= k,
        ;
        assert(y.data.len() == m * o);
        assert(z.data.len() == m * k);
        lemma_dot_split(y.data, g.data, i * o, o);
        lemma_dot_split(c.data, z.data, i * k, k);
        let (ci, gi) = (row(c, i), row(g, i));
        // the row of the one
        lemma_weighed(c, f, g, i, o);
        // the row of the other
        lemma_exchange(ci, f, gi, o);
        assert forall|e: int| 0 <= e < k implies #[trigger] z.data.skip(i * k)[e] == through(
            f,
            gi,
            o,
        )[e] by {
            lemma_fundamental_div_mod_converse(i * k + e, k, i, e);
            assert(z.data[i * k + e] == dot(row(g, i), column(f, e), g.shape[1] as int));
        }
        lemma_dot_same(c.data.skip(i * k), z.data.skip(i * k), ci, through(f, gi, o), k);
    }
}

/// A row of a product with a transposed matrix, weighed by a row of `g`.
proof fn lemma_weighed<R: Ring>(c: Array<R>, f: Array<R>, g: Array<R>, i: int, n: int)
    requires
        f.wf(),
        c.shape.len() == 2,
        f.shape.len() == 2,
        g.shape == seq![c.shape[0], f.shape[0]],
        c.shape[1] == f.shape[1],
        volume(f.shape) <= usize::MAX,
        g.data.len() == c.shape[0] * f.shape[0],
        0 <= i < c.shape[0],
        0 <= n <= f.shape[0],
    ensures
        dot(
            matmul_spec(c, transpose_spec(f)).data.skip(i * f.shape[0]),
            g.data.skip(i * f.shape[0]),
            n,
        ) == weighed(row(c, i), f, row(g, i), n),
    decreases n,
{
    let (m, o, k) = (c.shape[0] as int, f.shape[0] as int, f.shape[1] as int);
    let y = matmul_spec(c, transpose_spec(f));
    lemma_transposed_matrix(f);
    if n > 0 {
        lemma_weighed(c, f, g, i, n - 1);
        let e = i * o + (n - 1);
        assert(0 <= i * o && e < m * o) by (nonlinear_arith)
            requires
                0 <= i < m,
                0 <= n - 1 < o,
                e == i * o + (n - 1),
        ;
        lemma_fundamental_div_mod_converse(e, o, i, n - 1);
        let col = column(transpose_spec(f), n - 1);
        assert(y.data[e] == dot(row(c, i), col, c.shape[1] as int));
        assert forall|j: int| 0 <= j < k implies #[trigger] col[j] == row(f, n - 1)[j] by {
            lemma_transposed_entry(f, n - 1, j);
        }
        lemma_dot_same(row(c, i), col, row(c, i), row(f, n - 1), k);
        assert(y.data.skip(i * o)[n - 1] == y.data[e]);
        assert(g.data.skip(i * o)[n - 1] == row(g, i)[n - 1]);
    }
}

/// The matrix product behind a convolution, and the rows that weigh it.
pub proof fn lemma_convolved<R: Ring>(
    x: Array<R>,
    w: Array<R>,
    g: Array<R>,
    stride: (usize, usize),
    pad: (usize, usize),
)
    requires
        x.wf(),
        w.wf(),
        g.wf(),
        conv2d_fits(x.shape, w.shape, None, stride, pad),
        g.shape == conv2d_shape(x.shape, w.shape, stride, pad),
    ensures
        ({
            let p = conv_patches(x.shape, w.shape, stride, pad);
            let c = im2col_spec(x, (w.shape[2], w.shape[3]), stride, pad);
            let f = filters_as_rows(w);
            let y = matmul_spec(c, transpose_spec(f));
            let rows = nchw_to_rows_spec(g);
            &&& p.wf()
            &&& c.wf()
            &&& c.shape == p.matrix_shape_spec()
            &&& f.wf()
            &&& f.shape == seq![w.shape[0], p.columns_spec() as usize]
            &&& rows.wf()
            &&& rows.shape == seq![p.rows_spec() as usize, w.shape[0]]
            &&& rows.data.len() == g.data.len()
            &&& multiplies(c.shape, transpose_spec(f).shape)
            &&& forall|z: Array<R>|
                z.shape == y.shape && z.wf() ==> {
                    let folded = #[trigger] rows_to_nchw_spec(
                        z,
                        p.batch,
                        w.shape[0],
                        p.out_h,
                        p.out_w,
                    );
                    &&& folded.wf()
                    &&& folded.shape == g.shape
                    &&& dot(folded.data, g.data, g.data.len() as int) == dot(
                        z.data,
                        rows.data,
                        rows.data.len() as int,
                    )
                }
        }),
{
    let kernel = (w.shape[2], w.shape[3]);
    let p = patches_spec(x.shape, kernel, stride, pad);
    lemma_patches_wf(x.shape, kernel, stride, pad);
    p.lemma_window_volume();
    let c = im2col_spec(x, kernel, stride, pad);
    let f = filters_as_rows(w);
    let y = matmul_spec(c, transpose_spec(f));
    let rows = nchw_to_rows_spec(g);
    let (n, o, h, v) = (p.batch, w.shape[0], p.out_h, p.out_w);
    lemma_transposed_matrix(f);
    assert(w.shape =~= seq![w.shape[0], w.shape[1], w.shape[2], w.shape[3]]);
    lemma_volume4(w.shape[0], w.shape[1], w.shape[2], w.shape[3]);
    lemma_volume2(f.shape[0], f.shape[1]);
    let (a, b, d, e) = (
        w.shape[0] as nat,
        w.shape[1] as nat,
        w.shape[2] as nat,
        w.shape[3] as nat,
    );
    assert(a * b * d * e == a * (b * d * e)) by (nonlinear_arith);
    assert(f.wf());
    lemma_volume4(n, o, h, v);
    lemma_volume4(n, h, v, o);
    lemma_volume2(p.rows_spec() as usize, p.columns_spec() as usize);
    lemma_volume2(p.rows_spec() as usize, o);
    lemma_channel_orders();
    assert(g.shape =~= seq![n, o, h, v]);
    lemma_volume_permuted(g.shape, channels_last());
    assert(rows.shape =~= seq![p.rows_spec() as usize, o]);
    assert(rows.data.len() == volume(g.shape));
    assert(n * o * h * v == (n * h * v) * o) by (nonlinear_arith);
    assert(rows.wf());
    assert forall|z: Array<R>| z.shape == y.shape && z.wf() implies {
        let folded = #[trigger] rows_to_nchw_spec(z, n, o, h, v);
        &&& folded.wf()
        &&& folded.shape == g.shape
        &&& dot(folded.data, g.data, g.data.len() as int) == dot(
            z.data,
            rows.data,
            rows.data.len() as int,
        )
    } by {
        let tall = reshape_spec(z, seq![n, h, v, o]);
        assert(z.data.len() == p.rows_spec() * o);
        assert(tall.wf());
        assert(permuted(tall.shape, channels_first()) =~= g.shape);
        lemma_volume_permuted(tall.shape, channels_first());
        lemma_permute_map(tall.shape, channels_first());
        permuting_is_adjoint_to_permuting_back(tall, g, channels_first(), channels_last());
        assert(rows.data == permute_spec(g, channels_last()).data);
    }
}

/// The convolution has one element per image, filter and output position.
pub proof fn lemma_convolution_wf<R: Ring>(
    x: Array<R>,
    w: Array<R>,
    b: Option<Array<R>>,
    g: Array<R>,
    stride: (usize, usize),
    pad: (usize, usize),
)
    requires
        x.wf(),
        w.wf(),
        g.wf(),
        conv2d_fits(x.shape, w.shape, None, stride, pad),
        b matches Some(b) ==> b.wf() && b.shape == seq![w.shape[0]],
        g.shape == conv2d_shape(x.shape, w.shape, stride, pad),
    ensures
        conv2d_spec(x, w, b, stride, pad).wf(),
        conv2d_spec(x, w, b, stride, pad).shape == g.shape,
{
    let p = conv_patches(x.shape, w.shape, stride, pad);
    let c = im2col_spec(x, (w.shape[2], w.shape[3]), stride, pad);
    let f = filters_as_rows(w);
    let y = matmul_spec(c, transpose_spec(f));
    lemma_convolved(x, w, g, stride, pad);
    lemma_transposed_matrix(f);
    lemma_volume2(p.rows_spec() as usize, w.shape[0]);
    let biased = match b {
        Some(b) => zip_spec(Arithmetic::Plus, y, b),
        None => y,
    };
    if b is Some {
        lemma_joint_absorbs(y.shape, b->0.shape);
    }
    assert(biased.wf());
    let folded = rows_to_nchw_spec(biased, p.batch, w.shape[0], p.out_h, p.out_w);
    assert(conv2d_spec(x, w, b, stride, pad) == folded);
}

/// Convolving is the transpose of convolving back: what a convolution makes of `x`,
/// weighed by `g`, is `x` weighed by what the transposed convolution makes of `g`.
pub proof fn deconvolving_is_adjoint_to_convolving<R: Ring>(
    x: Array<R>,
    w: Array<R>,
    g: Array<R>,
    stride: (usize, usize),
    pad: (usize, usize),
)
    requires
        x.wf(),
        w.wf(),
        g.wf(),
        conv2d_fits(x.shape, w.shape, None, stride, pad),
        g.shape == conv2d_shape(x.shape, w.shape, stride, pad),
    ensures
        dot(conv2d_spec(x, w, None, stride, pad).data, g.data, g.data.len() as int) == dot(
            x.data,
            deconv2d_spec(g, w, None, stride, pad, Some((x.shape[2], x.shape[3]))).data,
            x.data.len() as int,
        ),
{
    let kernel = (w.shape[2], w.shape[3]);
    let p = patches_spec(x.shape, kernel, stride, pad);
    let c = im2col_spec(x, kernel, stride, pad);
    let f = filters_as_rows(w);
    let y = matmul_spec(c, transpose_spec(f));
    let rows = nchw_to_rows_spec(g);
    let col = matmul_spec(rows, f);
    let o = w.shape[0];
    lemma_convolved(x, w, g, stride, pad);
    lemma_transposed_matrix(f);
    lemma_volume2(p.rows_spec() as usize, o);
    lemma_volume2(p.rows_spec() as usize, p.columns_spec() as usize);
    assert(y.wf());
    let folded_rows = rows_to_nchw_spec(y, p.batch, o, p.out_h, p.out_w);
    // the product
    multiplying_is_adjoint_to_multiplying_back(c, f, rows);
    // the patches
    assert(x.shape =~= seq![x.shape[0], x.shape[1], x.shape[2], x.shape[3]]);
    let out = seq![g.shape[0], w.shape[1], x.shape[2], x.shape[3]];
    assert(out =~= x.shape);
    assert(col.wf());
    col2im_is_adjoint_to_im2col(x, col, kernel, stride, pad);
    let folded = col2im_spec(col, x.shape, kernel, stride, pad);
    lemma_dot_commutes(folded.data, x.data, x.data.len() as int);
    lemma_dot_commutes(col.data, c.data, col.data.len() as int);
    assert(conv2d_spec(x, w, None, stride, pad) == folded_rows);
    assert(deconv2d_spec(g, w, None, stride, pad, Some((x.shape[2], x.shape[3]))) == folded);
}

/// What a convolution makes of the filters `w`, weighed by `g`, is `w` weighed by the
/// gradient of the filters that goes with `g`.
pub proof fn the_gradient_of_filters_is_adjoint_to_convolving<R: Ring>(
    x: Array<R>,
    w: Array<R>,
    g: Array<R>,
    stride: (usize, usize),
    pad: (usize, usize),
)
    requires
        x.wf(),
        w.wf(),
        g.wf(),
        conv2d_fits(x.shape, w.shape, None, stride, pad),
        g.shape == conv2d_shape(x.shape, w.shape, stride, pad),
    ensures
        dot(conv2d_spec(x, w, None, stride, pad).data, g.data, g.data.len() as int) == dot(
            w.data,
            conv2d_grad_w_spec(x, g, (w.shape[2], w.shape[3]), stride, pad).data,
            w.data.len() as int,
        ),
        conv2d_grad_w_spec(x, g, (w.shape[2], w.shape[3]), stride, pad).data.len()
            == w.data.len(),
{
    let kernel = (w.shape[2], w.shape[3]);
    let p = patches_spec(x.shape, kernel, stride, pad);
    let c = im2col_spec(x, kernel, stride, pad);
    let f = filters_as_rows(w);
    let ft = transpose_spec(f);
    let y = matmul_spec(c, ft);
    let rows = nchw_to_rows_spec(g);
    let o = w.shape[0];
    lemma_convolved(x, w, g, stride, pad);
    lemma_transposed_matrix(f);
    lemma_transposed_matrix(c);
    lemma_transposed_matrix(rows);
    lemma_volume2(p.rows_spec() as usize, o);
    lemma_volume2(p.rows_spec() as usize, p.columns_spec() as usize);
    lemma_volume2(o, p.columns_spec() as usize);
    lemma_volume2(p.columns_spec() as usize, o);
    assert(y.wf());
    let folded_rows = rows_to_nchw_spec(y, p.batch, o, p.out_h, p.out_w);
    assert(conv2d_spec(x, w, None, stride, pad) == folded_rows);
    // multiply back
    lemma_transposed_dot(f, f);
    assert(p.columns_spec() * o == o * p.columns_spec()) by (nonlinear_arith);
    assert(ft.wf());
    multiplying_from_the_left_is_adjoint_to_multiplying_back(c, ft, rows);
    // transpose
    let votes = matmul_spec(transpose_spec(rows), c);
    lemma_transposed_dot(rows, rows);
    lemma_volume2(o, p.rows_spec() as usize);
    assert(o * p.rows_spec() == p.rows_spec() * o) by (nonlinear_arith);
    assert(transpose_spec(rows).wf());
    assert(votes.wf());
    transposing_a_product_swaps_its_factors(transpose_spec(rows), c);
    transposing_twice_is_the_identity(rows);
    lemma_transposed_dot(f, votes);
}

/// Adding a bias per filter and adding it to every pixel of its channel is the same.
proof fn lemma_bias_spreads<T: Scalar>(b: Array<T>, n: usize, h: usize, v: usize, rows: usize)
    requires
        b.wf(),
        b.shape.len() == 1,
        rows as nat == (n as nat) * (h as nat) * (v as nat),
        rows * b.shape[0] <= usize::MAX,
    ensures
        ({
            let o = b.shape[0];
            rows_to_nchw_spec(broadcast_spec(b, seq![rows, o]), n, o, h, v).data
                == broadcast_spec(reshape_spec(b, seq![1, o, 1, 1]), seq![n, o, h, v]).data
        }),
{
    let o = b.shape[0];
    let (flat, tall, out) = (seq![rows, o], seq![n, h, v, o], seq![n, o, h, v]);
    let one = seq![1, o, 1, 1];
    let spread = broadcast_spec(b, flat);
    let l = rows_to_nchw_spec(spread, n, o, h, v);
    let r = broadcast_spec(reshape_spec(b, one), out);
    lemma_channel_orders();
    lemma_volume4(n, o, h, v);
    lemma_volume4(n, h, v, o);
    lemma_volume2(rows, o);
    assert((n as nat) * (o as nat) * (h as nat) * (v as nat) == (n as nat) * (h as nat) * (
    v as nat) * (o as nat)) by (nonlinear_arith);
    assert(b.shape =~= seq![o]);
    lemma_volume4(1, o, 1, 1);
    reveal_with_fuel(volume, 2);
    assert(volume(b.shape) == o);
    lemma_broadcast_map(b.shape, flat);
    lemma_broadcast_map(one, out);
    assert(permuted(tall, channels_first()) =~= out);
    lemma_volume_permuted(tall, channels_first());
    lemma_permute_map(tall, channels_first());
    assert forall|e: int| 0 <= e < volume(out) implies l.data[e] == r.data[e] by {
        let idx = unravel(out, e);
        lemma_unravel(out, e);
        assert(0 <= idx[0] < out[0] && 0 <= idx[1] < out[1] && 0 <= idx[2] < out[2] && 0 <= idx[3]
            < out[3]);
        lemma_unpermuted(tall, channels_first(), idx);
        let jdx = unpermuted(idx, channels_first());
        let q = channels_first();
        assert(q[0] == 0 && q[1] == 3 && q[2] == 1 && q[3] == 2);
        assert(jdx[q[0] as int] == idx[0] && jdx[q[1] as int] == idx[1] && jdx[q[2] as int]
            == idx[2] && jdx[q[3] as int] == idx[3]);
        // the row and the column of the pixel
        let t = offset(tall, jdx);
        lemma_offset_bound(tall, jdx);
        assert(tall.drop_last().push(o) =~= tall);
        let m = offset(tall.drop_last(), jdx.drop_last());
        assert(t == m * o + idx[1]);
        let mdx = unravel(flat, t);
        lemma_unravel(flat, t);
        assert(0 <= mdx[0] < flat[0] && 0 <= mdx[1] < flat[1]);
        lemma_offset2(flat, mdx);
        lemma_fundamental_div_mod_converse(t, o as int, mdx[0], mdx[1]);
        lemma_fundamental_div_mod_converse(t, o as int, m, idx[1]);
        // what either reads of the bias
        assert(broadcast_source(b.shape, flat, t) == idx[1]) by {
            let sdx = seen_through(mdx, b.shape);
            assert(sdx =~= seq![if o == 1 { 0 } else { mdx[1] }]);
            reveal_with_fuel(offset, 3);
        }
        assert(broadcast_source(one, out, e) == idx[1]) by {
            let sdx = seen_through(idx, one);
            assert(sdx =~= seq![0, if o == 1 { 0 } else { idx[1] }, 0, 0]);
            reveal_with_fuel(offset, 5);
        }
        assert(permute_source(tall, q, e) == t);
    }
    assert(l.data =~= r.data);
}

/// What a bias adds to a convolution, weighed by `g`, is the bias weighed by the sum of
/// `g` over everything but the channels.
pub proof fn summing_is_adjoint_to_adding_a_bias<R: Ring>(
    x: Array<R>,
    w: Array<R>,
    b: Array<R>,
    g: Array<R>,
    stride: (usize, usize),
    pad: (usize, usize),
)
    requires
        x.wf(),
        w.wf(),
        b.wf(),
        g.wf(),
        conv2d_fits(x.shape, w.shape, None, stride, pad),
        b.shape == seq![w.shape[0]],
        g.shape == conv2d_shape(x.shape, w.shape, stride, pad),
    ensures
        dot(conv2d_spec(x, w, Some(b), stride, pad).data, g.data, g.data.len() as int) == dot(
            conv2d_spec(x, w, None, stride, pad).data,
            g.data,
            g.data.len() as int,
        ).plus(
            dot(b.data, sum_to_spec(g, seq![1, w.shape[0], 1, 1]).data, b.data.len() as int),
        ),
{
    let kernel = (w.shape[2], w.shape[3]);
    let p = patches_spec(x.shape, kernel, stride, pad);
    let c = im2col_spec(x, kernel, stride, pad);
    let f = filters_as_rows(w);
    let y = matmul_spec(c, transpose_spec(f));
    let rows = nchw_to_rows_spec(g);
    let o = w.shape[0];
    lemma_convolved(x, w, g, stride, pad);
    lemma_transposed_matrix(f);
    lemma_volume2(p.rows_spec() as usize, o);
    assert(y.wf());
    let biased = zip_spec(Arithmetic::Plus, y, b);
    let spread = broadcast_spec(b, y.shape);
    lemma_joint_absorbs(y.shape, b.shape);
    lemma_broadcast_map(b.shape, y.shape);
    broadcasting_to_the_same_shape_is_the_identity(y);
    assert(biased.wf() && spread.wf());
    let one = rows_to_nchw_spec(y, p.batch, o, p.out_h, p.out_w);
    let two = rows_to_nchw_spec(biased, p.batch, o, p.out_h, p.out_w);
    let bias = rows_to_nchw_spec(spread, p.batch, o, p.out_h, p.out_w);
    assert(conv2d_spec(x, w, None, stride, pad) == one);
    assert(conv2d_spec(x, w, Some(b), stride, pad) == two);
    let n = rows.data.len() as int;
    assert forall|k: int| 0 <= k < n implies (#[trigger] biased.data[k]).times(rows.data[k])
        == y.data[k].times(rows.data[k]).plus(spread.data[k].times(rows.data[k])) by {
        R::times_distributes(y.data[k], spread.data[k], rows.data[k]);
    }
    lemma_dot_of_two(biased.data, rows.data, y.data, rows.data, spread.data, rows.data, n);
    // the bias by itself
    lemma_bias_spreads(b, p.batch, p.out_h, p.out_w, p.rows_spec() as usize);
    let column_of = reshape_spec(b, seq![1, o, 1, 1]);
    lemma_volume4(1, o, 1, 1);
    reveal_with_fuel(volume, 2);
    assert(g.shape =~= seq![p.batch, o, p.out_h, p.out_w]);
    sum_to_is_adjoint_to_broadcast(column_of, g);
    let folded = sum_to_spec(g, column_of.shape);
    lemma_dot_commutes(folded.data, b.data, b.data.len() as int);
    lemma_dot_commutes(g.data, broadcast_spec(column_of, g.shape).data, g.data.len() as int);
    assert(bias.data == broadcast_spec(column_of, g.shape).data);
}

/// Folding patches back is the transpose of cutting them, in either layout.
pub proof fn folding_is_adjoint_to_cutting<R: Ring>(
    x: Array<R>,
    g: Array<R>,
    kernel: (usize, usize),
    stride: (usize, usize),
    pad: (usize, usize),
    to_matrix: bool,
)
    requires
        x.wf(),
        g.wf(),
        patches_fit(x.shape, kernel, stride, pad),
        g.shape == col_shape(x.shape, kernel, stride, pad, to_matrix),
    ensures
        dot(
            im2col_array_spec(x, kernel, stride, pad, to_matrix).data,
            g.data,
            g.data.len() as int,
        ) == dot(
            x.data,
            col2im_array_spec(g, x.shape, kernel, stride, pad, to_matrix).data,
            x.data.len() as int,
        ),
{
    let p = patches_spec(x.shape, kernel, stride, pad);
    lemma_patches_wf(x.shape, kernel, stride, pad);
    p.lemma_window_volume();
    lemma_volume2(p.rows_spec() as usize, p.columns_spec() as usize);
    let col = im2col_spec(x, kernel, stride, pad);
    let matrix = if to_matrix {
        g
    } else {
        reshape_spec(permute_spec(g, positions_first()), p.matrix_shape_spec())
    };
    if !to_matrix {
        let tall = reshape_spec(col, p.window_shape());
        lemma_position_orders();
        assert(permuted(tall.shape, positions_last()) =~= p.tensor_shape_spec());
        lemma_volume_permuted(g.shape, positions_first());
        lemma_volume_permuted(tall.shape, positions_last());
        permuting_is_adjoint_to_permuting_back(tall, g, positions_last(), positions_first());
        assert(permute_spec(g, positions_first()).data == matrix.data);
    }
    col2im_is_adjoint_to_im2col(x, matrix, kernel, stride, pad);
    let folded = col2im_spec(matrix, x.shape, kernel, stride, pad);
    lemma_dot_commutes(folded.data, x.data, x.data.len() as int);
    lemma_dot_commutes(matrix.data, col.data, matrix.data.len() as int);
}

/// Whether every winner lies in its own window.
pub open spec fn winners_inside(p: Patches, winners: Seq<usize>) -> bool {
    forall|e: int| 0 <= e < volume(pooled_shape(p)) ==> #[trigger] winners[e] < window_size(p)
}

/// No two windows share an entry of the patch matrix.
proof fn lemma_windows_apart(p: Patches, winners: Seq<usize>, k: int, l: int)
    requires
        p.rows_spec() * p.columns_spec() <= usize::MAX,
        winners_inside(p, winners),
        0 <= k < l < volume(pooled_shape(p)),
    ensures
        winner_map(p, winners)[k] != winner_map(p, winners)[l],
{
    let s = pooled_shape(p);
    let (a, b) = (unravel(s, k), unravel(s, l));
    lemma_window_start(p, k);
    lemma_window_start(p, l);
    lemma_unravel(s, k);
    lemma_unravel(s, l);
    let (c, w) = (p.columns_spec() as int, window_size(p));
    let (oh, ow) = (p.out_h as int, p.out_w as int);
    assert(0 <= a[0] < s[0] && 0 <= a[1] < s[1] && 0 <= a[2] < s[2] && 0 <= a[3] < s[3]);
    assert(0 <= b[0] < s[0] && 0 <= b[1] < s[1] && 0 <= b[2] < s[2] && 0 <= b[3] < s[3]);
    let (ra, rb) = ((a[0] * oh + a[2]) * ow + a[3], (b[0] * oh + b[2]) * ow + b[3]);
    let (i, j) = (winners[k] as int, winners[l] as int);
    let (ca, cb) = (a[1] * w + i, b[1] * w + j);
    let (va, vb) = (window_start(p, k) + i, window_start(p, l) + j);
    assert(va == ra * c + ca && vb == rb * c + cb);
    if va == vb {
        lemma_fundamental_div_mod_converse(va, c, ra, ca);
        lemma_fundamental_div_mod_converse(vb, c, rb, cb);
        lemma_fundamental_div_mod_converse(ca, w, a[1], i);
        lemma_fundamental_div_mod_converse(cb, w, b[1], j);
        lemma_fundamental_div_mod_converse(ra, ow, a[0] * oh + a[2], a[3]);
        lemma_fundamental_div_mod_converse(rb, ow, b[0] * oh + b[2], b[3]);
        lemma_fundamental_div_mod_converse(a[0] * oh + a[2], oh, a[0], a[2]);
        lemma_fundamental_div_mod_converse(b[0] * oh + b[2], oh, b[0], b[2]);
        assert(a =~= b);
    }
}

/// Passing gradients back to the winners of their windows is the transpose of picking
/// the winners.
pub proof fn passing_back_is_adjoint_to_picking<R: Ring>(
    x: Array<R>,
    g: Array<R>,
    kernel: (usize, usize),
    stride: (usize, usize),
    pad: (usize, usize),
    winners: Seq<usize>,
)
    requires
        x.wf(),
        g.wf(),
        pooling_fits(x.shape, kernel, stride, pad),
        g.shape == pooled_shape(patches_spec(x.shape, kernel, stride, pad)),
        winners_inside(patches_spec(x.shape, kernel, stride, pad), winners),
    ensures
        dot(
            picked_spec(x, patches_spec(x.shape, kernel, stride, pad), winners).data,
            g.data,
            g.data.len() as int,
        ) == dot(
            x.data,
            pooling_grad_spec(g, x.shape, kernel, stride, pad, winners).data,
            x.data.len() as int,
        ),
{
    let p = patches_spec(x.shape, kernel, stride, pad);
    lemma_patches_wf(x.shape, kernel, stride, pad);
    p.lemma_window_volume();
    lemma_volume2(p.rows_spec() as usize, p.columns_spec() as usize);
    let col = im2col_spec(x, kernel, stride, pad);
    let map = winner_map(p, winners);
    let n = p.rows_spec() * p.columns_spec();
    assert forall|k: int, l: int|
        0 <= k < l < map.len() && (#[trigger] map[k]).is_some() implies map[k]
        != #[trigger] map[l] by {
        lemma_windows_apart(p, winners, k, l);
    }
    placing_is_scattering_where_no_position_repeats(g.data, map, n);
    let placed = Array { shape: p.matrix_shape_spec(), data: place(g.data, map, n) };
    assert forall|e: int| 0 <= e < map.len() implies (#[trigger] map[e] matches Some(j) ==> (j
        as nat) < n) by {
        lemma_window_start(p, e);
    }
    scatter_is_adjoint_to_gather(col.data, g.data, map);
    col2im_is_adjoint_to_im2col(x, placed, kernel, stride, pad);
    let folded = col2im_spec(placed, x.shape, kernel, stride, pad);
    let picked = gather(col.data, map);
    lemma_dot_commutes(folded.data, x.data, x.data.len() as int);
    lemma_dot_commutes(picked, g.data, g.data.len() as int);
}

/// The transpose of a product is the product of the transposes, the other way round.
pub proof fn transposing_a_product_swaps_its_factors<R: Ring>(a: Array<R>, b: Array<R>)
    requires
        a.wf(),
        b.wf(),
        multiplies(a.shape, b.shape),
    ensures
        transpose_spec(matmul_spec(a, b)) == matmul_spec(transpose_spec(b), transpose_spec(a)),
{
    let (at, bt) = (transpose_spec(a), transpose_spec(b));
    let y = matmul_spec(a, b);
    let (m, k, n) = (a.shape[0] as int, a.shape[1] as int, b.shape[1] as int);
    lemma_transposed_matrix(a);
    lemma_transposed_matrix(b);
    assert(y.shape =~= seq![a.shape[0], b.shape[1]]);
    lemma_volume2(a.shape[0], b.shape[1]);
    lemma_volume2(b.shape[1], a.shape[0]);
    lemma_transposed_matrix(y);
    let (l, r) = (transpose_spec(y), matmul_spec(bt, at));
    assert(l.shape =~= r.shape);
    assert(n * m == m * n) by (nonlinear_arith);
    assert(l.data =~= r.data) by {
        assert forall|e: int| 0 <= e < n * m implies l.data[e] == r.data[e] by {
            let (j, i) = (e / m, e % m);
            lemma_cell(e, n, m);
            lemma_transposed_entry(y, i, j);
            lemma_cell_back(i, j, m, n);
            assert(y.data[i * n + j] == dot(row(a, i), column(b, j), k));
            assert(r.data[e] == dot(row(bt, j), column(at, i), k));
            let (u, v) = (row(bt, j), column(at, i));
            assert forall|t: int| 0 <= t < k implies #[trigger] u[t] == column(b, j)[t] by {
                lemma_transposed_entry(b, t, j);
            }
            assert forall|t: int| 0 <= t < k implies #[trigger] v[t] == row(a, i)[t] by {
                lemma_transposed_entry(a, i, t);
            }
            lemma_dot_same(u, v, column(b, j), row(a, i), k);
            lemma_dot_commutes(column(b, j), row(a, i), k);
        }
    }
}

/// The row and the column of an entry.
proof fn lemma_cell(e: int, m: int, n: int)
    requires
        0 <= e < m * n,
        0 <= n,
    ensures
        0 <= e / n < m,
        0 <= e % n < n,
        e == (e / n) * n + e % n,
{
    assert(n > 0) by (nonlinear_arith)
        requires
            0 <= e < m * n,
            0 <= n,
    ;
    lemma_fundamental_div_mod(e, n);
    assert(0 <= e / n < m && n * (e / n) == (e / n) * n) by (nonlinear_arith)
        requires
            0 <= e < m * n,
            n > 0,
            e == n * (e / n) + e % n,
            0 <= e % n < n,
    ;
}

/// The position of an entry in its row and its column.
proof fn lemma_cell_back(i: int, j: int, m: int, n: int)
    requires
        0 <= i < m,
        0 <= j < n,
    ensures
        0 <= i * n + j < m * n,
        (i * n + j) / n == i,
        (i * n + j) % n == j,
{
    assert(0 <= i * n + j < m * n) by (nonlinear_arith)
        requires
            0 <= i < m,
            0 <= j < n,
    ;
    lemma_fundamental_div_mod_converse(i * n + j, n, i, j);
}

/// Multiplying by a matrix from the left is the transpose of multiplying by the
/// transposed matrix.
pub proof fn multiplying_from_the_left_is_adjoint_to_multiplying_back<R: Ring>(
    x: Array<R>,
    w: Array<R>,
    g: Array<R>,
)
    requires
        x.wf(),
        w.wf(),
        g.wf(),
        multiplies(x.shape, w.shape),
        g.shape == seq![x.shape[0], w.shape[1]],
    ensures
        dot(matmul_spec(x, w).data, g.data, g.data.len() as int) == dot(
            w.data,
            matmul_spec(transpose_spec(x), g).data,
            w.data.len() as int,
        ),
{
    let (xt, wt, gt) = (transpose_spec(x), transpose_spec(w), transpose_spec(g));
    let y = matmul_spec(x, w);
    lemma_transposed_matrix(x);
    lemma_transposed_matrix(w);
    lemma_transposed_matrix(g);
    assert(x.shape =~= seq![x.shape[0], x.shape[1]]);
    assert(w.shape =~= seq![w.shape[0], w.shape[1]]);
    lemma_volume2(x.shape[0], x.shape[1]);
    lemma_volume2(w.shape[0], w.shape[1]);
    lemma_volume2(x.shape[0], w.shape[1]);
    // transpose both sides
    assert(y.wf());
    lemma_transposed_dot(w, w);
    lemma_volume2(w.shape[1], w.shape[0]);
    assert(w.shape[1] * w.shape[0] == w.shape[0] * w.shape[1]) by (nonlinear_arith);
    lemma_transposed_dot(y, g);
    transposing_a_product_swaps_its_factors(x, w);
    multiplying_is_adjoint_to_multiplying_back(wt, x, gt);
    // and back
    let z = matmul_spec(gt, x);
    assert(z.wf());
    assert(multiplies(gt.shape, x.shape));
    transposing_a_product_swaps_its_factors(gt, x);
    transposing_twice_is_the_identity(g);
    transposing_twice_is_the_identity(w);
    lemma_transposed_dot(wt, z);
}

/// Transposing both factors keeps a sum of products.
proof fn lemma_transposed_dot<R: Ring>(a: Array<R>, b: Array<R>)
    requires
        a.wf(),
        b.wf(),
        a.shape == b.shape,
        a.shape.len() == 2,
    ensures
        dot(transpose_spec(a).data, transpose_spec(b).data, a.data.len() as int) == dot(
            a.data,
            b.data,
            a.data.len() as int,
        ),
        transpose_spec(a).data.len() == a.data.len(),
        transpose_spec(b).data.len() == b.data.len(),
{
    let r = reversed_axes(2);
    lemma_reversed_axes(2);
    lemma_volume_permuted(a.shape, r);
    lemma_permute_map(a.shape, r);
    permuting_is_adjoint_to_permuting_back(a, transpose_spec(b), r, r);
    transposing_twice_is_the_identity(b);
}

} // verus!
