//! Convolution and pooling, pixel by pixel.
use crate::engine::elementwise::{lemma_joint_absorbs, zip_spec, Arithmetic};
use crate::functions::adjoint::lemma_transposed_entry;
use crate::functions::conv::{
    conv2d_fits, conv2d_spec, conv_patches, deconv2d_fits, deconv2d_spec, filters_as_rows,
    first_max, lemma_first_max, lemma_window_start, pooled_shape, pooling_fits, pooling_spec,
    window_start, window_values, winner_map, winners_spec,
};
use crate::functions::matmul::matmul_spec;
use crate::index::{in_bounds, lemma_offset_bound, lemma_unravel_offset, offset, unravel, volume};
use crate::laws::elements::{
    arithmetic_goes_place_by_place, contributes, contributes_from, entry, lemma_contributes,
    matrix_products_are_rows_times_columns, row_times_column, sum_of,
};
use crate::scalar::Scalar;
use crate::tensor::{
    lemma_permute_map, lemma_unpermuted, lemma_volume_permuted, permute_map, permute_source,
    permuted, reshape_spec, transpose_spec, unpermuted, Array,
};
use crate::utils::conv::{
    channels_first, conv_outsize_counts_the_windows_that_fit, im2col_entry, im2col_spec,
    lemma_channel_orders, lemma_patches_wf, lemma_shape4, lemma_volume2, lemma_volume4, patches_fit,
    patches_spec, rows_to_nchw_spec,
};
use crate::utils::shape::broadcasting_to_the_same_shape_is_the_identity;
use vstd::arithmetic::div_mod::lemma_fundamental_div_mod;
use vstd::prelude::*;

verus! {

// ---------------------------------------------------------------------------
// words
// ---------------------------------------------------------------------------
/// The element of a batch of images in image `n`, channel `c`, row `y` and column `x`.
pub open spec fn at4<T>(a: Array<T>, n: int, c: int, y: int, x: int) -> T {
    a.data[((n * a.shape[1] + c) * a.shape[2] + y) * a.shape[3] + x]
}

/// What a window sees at a place: the pixel there, and zero outside the image.
pub open spec fn seen_at<T: Scalar>(a: Array<T>, n: int, c: int, y: int, x: int) -> T {
    if 0 <= y < a.shape[2] && 0 <= x < a.shape[3] {
        at4(a, n, c, y, x)
    } else {
        T::zero_spec()
    }
}

/// What the window at `(i, j)` sees in its row `ky` and column `kx`.
pub open spec fn window_sees<T: Scalar>(
    a: Array<T>,
    stride: (usize, usize),
    pad: (usize, usize),
    n: int,
    c: int,
    i: int,
    j: int,
    ky: int,
    kx: int,
) -> T {
    seen_at(a, n, c, i * stride.0 + ky - pad.0, j * stride.1 + kx - pad.1)
}

/// Whether `count` windows of `kernel` places, `stride` apart, fit `size` places with `pad`
/// more at either end, and one more does not.
pub open spec fn windows_fit(count: int, size: int, kernel: int, stride: int, pad: int) -> bool {
    &&& count >= 1
    &&& stride * (count - 1) + kernel <= size + 2 * pad
    &&& stride * count + kernel > size + 2 * pad
}

/// Whether `y` is a whole batch of images: one for each image of `x`, with so many channels
/// and a place for each window.
pub open spec fn has_windows<T>(
    y: Array<T>,
    x: Array<T>,
    channels: int,
    kernel: (usize, usize),
    stride: (usize, usize),
    pad: (usize, usize),
) -> bool {
    &&& y.shape.len() == 4
    &&& y.shape[0] == x.shape[0]
    &&& y.shape[1] == channels
    &&& windows_fit(
        y.shape[2] as int,
        x.shape[2] as int,
        kernel.0 as int,
        stride.0 as int,
        pad.0 as int,
    )
    &&& windows_fit(
        y.shape[3] as int,
        x.shape[3] as int,
        kernel.1 as int,
        stride.1 as int,
        pad.1 as int,
    )
}

/// Entry `k` of the window over image `n` at `(i, j)`, times entry `k` of filter `o`: the
/// entries run over channels, then rows, then columns.
pub open spec fn window_term<T: Scalar>(
    x: Array<T>,
    w: Array<T>,
    stride: (usize, usize),
    pad: (usize, usize),
    n: int,
    o: int,
    i: int,
    j: int,
    k: int,
) -> T {
    let (kh, kw) = (w.shape[2] as int, w.shape[3] as int);
    let (c, ky, kx) = ((k / kw) / kh, (k / kw) % kh, k % kw);
    window_sees(x, stride, pad, n, c, i, j, ky, kx).times(at4(w, o, c, ky, kx))
}

/// Whether `y` is `x` convolved with the filters `w`: every element is the sum, over
/// channels, rows and columns of its window, of what the window sees times the filter, plus
/// the bias of the filter where there is one.
pub open spec fn is_convolved<T: Scalar>(
    y: Array<T>,
    x: Array<T>,
    w: Array<T>,
    b: Option<Array<T>>,
    stride: (usize, usize),
    pad: (usize, usize),
) -> bool {
    let size = w.shape[1] * w.shape[2] * w.shape[3];
    &&& has_windows(y, x, w.shape[0] as int, (w.shape[2], w.shape[3]), stride, pad)
    &&& forall|n: int, o: int, i: int, j: int|
        0 <= n < y.shape[0] && 0 <= o < y.shape[1] && 0 <= i < y.shape[2] && 0 <= j < y.shape[3]
            ==> {
            let sum = sum_of(size, |k: int| window_term(x, w, stride, pad, n, o, i, j, k));
            #[trigger] at4(y, n, o, i, j) == match b {
                Some(b) => sum.plus(
                    contributes(b, (n * y.shape[2] + i) * y.shape[3] + j, o),
                ),
                None => sum,
            }
        }
}

/// Whether comparing elements puts them in order: nothing exceeds itself, and what exceeds
/// something exceeds whatever that exceeds.
pub open spec fn in_order<T: Scalar>() -> bool {
    &&& forall|a: T| !(#[trigger] a.exceeds(a))
    &&& forall|a: T, b: T, c: T| #[trigger]
        a.exceeds(b) && #[trigger] b.exceeds(c) ==> a.exceeds(c)
}

/// Whether `v` is the greatest of what the window over channel `c` of image `n` sees at
/// `(i, j)`: it is one of them, and, where elements are in order, none of them exceeds it.
pub open spec fn is_greatest<T: Scalar>(
    v: T,
    x: Array<T>,
    kernel: (usize, usize),
    stride: (usize, usize),
    pad: (usize, usize),
    n: int,
    c: int,
    i: int,
    j: int,
) -> bool {
    &&& exists|ky: int, kx: int|
        0 <= ky < kernel.0 && 0 <= kx < kernel.1 && v == #[trigger] window_sees(
            x,
            stride,
            pad,
            n,
            c,
            i,
            j,
            ky,
            kx,
        )
    &&& in_order::<T>() ==> forall|ky: int, kx: int|
        0 <= ky < kernel.0 && 0 <= kx < kernel.1 ==> !(#[trigger] window_sees(
            x,
            stride,
            pad,
            n,
            c,
            i,
            j,
            ky,
            kx,
        )).exceeds(v)
}

/// Whether `y` is `x` pooled: every element is the greatest of its window.
pub open spec fn is_pooled<T: Scalar>(
    y: Array<T>,
    x: Array<T>,
    kernel: (usize, usize),
    stride: (usize, usize),
    pad: (usize, usize),
) -> bool {
    &&& has_windows(y, x, x.shape[1] as int, kernel, stride, pad)
    &&& forall|n: int, c: int, i: int, j: int|
        0 <= n < y.shape[0] && 0 <= c < y.shape[1] && 0 <= i < y.shape[2] && 0 <= j < y.shape[3]
            ==> is_greatest(#[trigger] at4(y, n, c, i, j), x, kernel, stride, pad, n, c, i, j)
}

// ---------------------------------------------------------------------------
// laws
// ---------------------------------------------------------------------------
proof fn lemma_place4(s: Seq<usize>, a: int, b: int, c: int, d: int)
    requires
        s.len() == 4,
        0 <= a < s[0],
        0 <= b < s[1],
        0 <= c < s[2],
        0 <= d < s[3],
    ensures
        in_bounds(s, seq![a, b, c, d]),
        offset(s, seq![a, b, c, d]) == ((a * s[1] + b) * s[2] + c) * s[3] + d,
        0 <= ((a * s[1] + b) * s[2] + c) * s[3] + d < volume(s),
        unravel(s, ((a * s[1] + b) * s[2] + c) * s[3] + d) == seq![a, b, c, d],
{
    let idx = seq![a, b, c, d];
    assert(in_bounds(s, idx)) by {
        assert forall|i: int| 0 <= i < s.len() implies 0 <= #[trigger] idx[i] < s[i] by {}
    }
    reveal_with_fuel(offset, 5);
    let (s3, i3) = (s.drop_last(), idx.drop_last());
    let (s2, i2) = (s3.drop_last(), i3.drop_last());
    let (s1, i1) = (s2.drop_last(), i2.drop_last());
    assert(s1.drop_last().len() == 0);
    assert(offset(s1, i1) == a);
    assert(offset(s2, i2) == a * s[1] + b);
    assert(offset(s3, i3) == (a * s[1] + b) * s[2] + c);
    lemma_offset_bound(s, idx);
    lemma_unravel_offset(s, idx);
}

/// Sums of equal terms are equal.
pub proof fn lemma_same_terms<T: Scalar>(n: int, a: spec_fn(int) -> T, b: spec_fn(int) -> T)
    requires
        forall|k: int| 0 <= k < n ==> #[trigger] a(k) == b(k),
    ensures
        sum_of(n, a) == sum_of(n, b),
    decreases n,
{
    if n > 0 {
        lemma_same_terms(n - 1, a, b);
        assert(a(n - 1) == b(n - 1));
    }
}

/// An entry of the patch matrix is what the window sees there.
proof fn lemma_patch<T: Scalar>(
    x: Array<T>,
    kernel: (usize, usize),
    stride: (usize, usize),
    pad: (usize, usize),
    n: int,
    i: int,
    j: int,
    c: int,
    ky: int,
    kx: int,
)
    requires
        x.wf(),
        patches_fit(x.shape, kernel, stride, pad),
        0 <= n < x.shape[0],
        0 <= c < x.shape[1],
        0 <= i < patches_spec(x.shape, kernel, stride, pad).out_h,
        0 <= j < patches_spec(x.shape, kernel, stride, pad).out_w,
        0 <= ky < kernel.0,
        0 <= kx < kernel.1,
    ensures
        ({
            let p = patches_spec(x.shape, kernel, stride, pad);
            let row = (n * p.out_h + i) * p.out_w + j;
            let column = (c * kernel.0 + ky) * kernel.1 + kx;
            im2col_spec(x, kernel, stride, pad).data[row * p.columns_spec() + column]
                == window_sees(x, stride, pad, n, c, i, j, ky, kx)
        }),
{
    im2col_entry(x, kernel, stride, pad, n, i, j, c, ky, kx);
    let (y, z) = (i * stride.0 + ky - pad.0, j * stride.1 + kx - pad.1);
    assert(i * stride.0 == stride.0 * i) by (nonlinear_arith);
    assert(j * stride.1 == stride.1 * j) by (nonlinear_arith);
    if 0 <= y < x.shape[2] && 0 <= z < x.shape[3] {
        lemma_place4(x.shape, n, c, y, z);
    }
}

/// The numbers behind entry `k` of a window.
proof fn lemma_window_place(k: int, c: int, kh: int, kw: int)
    requires
        0 <= k < c * kh * kw,
        0 <= c,
        0 <= kh,
        0 <= kw,
    ensures
        kh > 0,
        kw > 0,
        0 <= (k / kw) / kh < c,
        0 <= (k / kw) % kh < kh,
        0 <= k % kw < kw,
        k == (((k / kw) / kh) * kh + (k / kw) % kh) * kw + k % kw,
{
    assert(kh > 0 && kw > 0) by (nonlinear_arith)
        requires
            0 <= k < c * kh * kw,
            0 <= c,
            0 <= kh,
            0 <= kw,
    ;
    lemma_fundamental_div_mod(k, kw);
    let q = k / kw;
    lemma_fundamental_div_mod(q, kh);
    let m = q / kh;
    assert(kw * q == q * kw) by (nonlinear_arith);
    assert(kh * m == m * kh) by (nonlinear_arith);
    assert(0 <= q < c * kh) by (nonlinear_arith)
        requires
            0 <= k < c * kh * kw,
            k == kw * q + k % kw,
            0 <= k % kw < kw,
            kw > 0,
    ;
    assert(0 <= m < c) by (nonlinear_arith)
        requires
            0 <= q < c * kh,
            q == kh * m + q % kh,
            0 <= q % kh < kh,
            kh > 0,
    ;
}

/// An element of images whose pixels are the rows of a matrix.
proof fn lemma_pixel_of_rows<T: Scalar>(
    r: Array<T>,
    b: usize,
    c: usize,
    h: usize,
    w: usize,
    n: int,
    o: int,
    i: int,
    j: int,
)
    requires
        r.data.len() == volume(seq![b, h, w, c]),
        r.data.len() <= usize::MAX,
        0 <= n < b,
        0 <= o < c,
        0 <= i < h,
        0 <= j < w,
    ensures
        rows_to_nchw_spec(r, b, c, h, w).shape == seq![b, c, h, w],
        at4(rows_to_nchw_spec(r, b, c, h, w), n, o, i, j) == r.data[((n * h + i) * w + j) * c + o],
{
    let s = seq![b, h, w, c];
    let axes = channels_first();
    let x = reshape_spec(r, s);
    let out = permuted(s, axes);
    lemma_channel_orders();
    assert(out =~= seq![b, c, h, w]);
    lemma_volume_permuted(s, axes);
    lemma_permute_map(s, axes);
    lemma_place4(out, n, o, i, j);
    lemma_place4(s, n, i, j, o);
    let e = ((n * c + o) * h + i) * w + j;
    let idx = seq![n, o, i, j];
    lemma_unpermuted(s, axes, idx);
    let src = unpermuted(idx, axes);
    assert(src =~= seq![n, i, j, o]) by {
        assert(axes[0] == 0 && axes[1] == 3 && axes[2] == 1 && axes[3] == 2);
        assert(src[axes[0] as int] == idx[0]);
        assert(src[axes[1] as int] == idx[1]);
        assert(src[axes[2] as int] == idx[2]);
        assert(src[axes[3] as int] == idx[3]);
    }
    assert(permute_source(s, axes, e) == ((n * h + i) * w + j) * c + o);
    assert(permute_map(s, axes)[e] == Some(permute_source(s, axes, e) as usize));
}

/// The places of a convolution are those of the windows that fit.
proof fn lemma_windows(
    x: Seq<usize>,
    kernel: (usize, usize),
    stride: (usize, usize),
    pad: (usize, usize),
)
    requires
        patches_fit(x, kernel, stride, pad),
    ensures
        ({
            let p = patches_spec(x, kernel, stride, pad);
            &&& windows_fit(
                p.out_h as int,
                x[2] as int,
                kernel.0 as int,
                stride.0 as int,
                pad.0 as int,
            )
            &&& windows_fit(
                p.out_w as int,
                x[3] as int,
                kernel.1 as int,
                stride.1 as int,
                pad.1 as int,
            )
        }),
{
    conv_outsize_counts_the_windows_that_fit(
        x[2] as int,
        kernel.0 as int,
        stride.0 as int,
        pad.0 as int,
    );
    conv_outsize_counts_the_windows_that_fit(
        x[3] as int,
        kernel.1 as int,
        stride.1 as int,
        pad.1 as int,
    );
}

/// Convolving sums what each window sees, times the filter, and adds the bias.
#[verifier::rlimit(40)]
pub proof fn convolving_weighs_windows<T: Scalar>(
    x: Array<T>,
    w: Array<T>,
    b: Option<Array<T>>,
    stride: (usize, usize),
    pad: (usize, usize),
)
    requires
        x.wf(),
        w.wf(),
        b matches Some(b) ==> b.wf(),
        conv2d_fits(
            x.shape,
            w.shape,
            match b {
                Some(b) => Some(b.shape),
                None => None,
            },
            stride,
            pad,
        ),
    ensures
        is_convolved(conv2d_spec(x, w, b, stride, pad), x, w, b, stride, pad),
{
    let p = conv_patches(x.shape, w.shape, stride, pad);
    let kernel = (w.shape[2], w.shape[3]);
    let y = conv2d_spec(x, w, b, stride, pad);
    let (f, c, kh, kw) = (
        w.shape[0] as int,
        w.shape[1] as int,
        w.shape[2] as int,
        w.shape[3] as int,
    );
    let size = w.shape[1] * w.shape[2] * w.shape[3];
    lemma_windows(x.shape, kernel, stride, pad);
    assert(y.shape =~= seq![p.batch, w.shape[0], p.out_h, p.out_w]);
    assert forall|n: int, o: int, i: int, j: int|
        0 <= n < y.shape[0] && 0 <= o < y.shape[1] && 0 <= i < y.shape[2] && 0 <= j
            < y.shape[3] implies ({
        let sum = sum_of(size, |k: int| window_term(x, w, stride, pad, n, o, i, j, k));
        #[trigger] at4(y, n, o, i, j) == match b {
            Some(b) => sum.plus(contributes(b, (n * y.shape[2] + i) * y.shape[3] + j, o)),
            None => sum,
        }
    }) by {
        lemma_convolved(x, w, b, stride, pad, n, o, i, j);
    }
}

#[verifier::spinoff_prover]
#[verifier::rlimit(40)]
proof fn lemma_convolved<T: Scalar>(
    x: Array<T>,
    w: Array<T>,
    b: Option<Array<T>>,
    stride: (usize, usize),
    pad: (usize, usize),
    n: int,
    o: int,
    i: int,
    j: int,
)
    requires
        x.wf(),
        w.wf(),
        b matches Some(b) ==> b.wf(),
        conv2d_fits(
            x.shape,
            w.shape,
            match b {
                Some(b) => Some(b.shape),
                None => None,
            },
            stride,
            pad,
        ),
        0 <= n < x.shape[0],
        0 <= o < w.shape[0],
        0 <= i < conv_patches(x.shape, w.shape, stride, pad).out_h,
        0 <= j < conv_patches(x.shape, w.shape, stride, pad).out_w,
    ensures
        ({
            let p = conv_patches(x.shape, w.shape, stride, pad);
            let size = w.shape[1] * w.shape[2] * w.shape[3];
            let sum = sum_of(size, |k: int| window_term(x, w, stride, pad, n, o, i, j, k));
            at4(conv2d_spec(x, w, b, stride, pad), n, o, i, j) == match b {
                Some(b) => sum.plus(contributes(b, (n * p.out_h + i) * p.out_w + j, o)),
                None => sum,
            }
        }),
{
    let p = conv_patches(x.shape, w.shape, stride, pad);
    let kernel = (w.shape[2], w.shape[3]);
    let col = im2col_spec(x, kernel, stride, pad);
    let filters = filters_as_rows(w);
    let turned = transpose_spec(filters);
    let product = matmul_spec(col, turned);
    let (f, c, kh, kw) = (
        w.shape[0] as int,
        w.shape[1] as int,
        w.shape[2] as int,
        w.shape[3] as int,
    );
    let size = w.shape[1] * w.shape[2] * w.shape[3];
    let row = (n * p.out_h + i) * p.out_w + j;
    let rows = p.rows_spec() as int;
    lemma_patches_wf(x.shape, kernel, stride, pad);
    assert(size == p.columns_spec());
    assert(0 <= row < rows) by {
        let (bb, oh, ow) = (p.batch as int, p.out_h as int, p.out_w as int);
        let q = n * oh + i;
        assert(0 <= q < bb * oh) by (nonlinear_arith)
            requires
                0 <= n < bb,
                0 <= i < oh,
                q == n * oh + i,
        ;
        assert(0 <= q * ow + j < (bb * oh) * ow) by (nonlinear_arith)
            requires
                0 <= q < bb * oh,
                0 <= j < ow,
        ;
    }
    // the filters, turned into columns
    lemma_shape4(w.shape);
    lemma_volume4(w.shape[0], w.shape[1], w.shape[2], w.shape[3]);
    lemma_volume2(w.shape[0], size as usize);
    assert(f * c * kh * kw == f * (c * kh * kw)) by (nonlinear_arith);
    assert(filters.wf());
    assert(turned.shape =~= seq![size as usize, w.shape[0]]);
    // the product
    matrix_products_are_rows_times_columns(col, turned, row, o);
    let a = |k: int| entry(col, row, k).times(entry(turned, k, o));
    let t = |k: int| window_term(x, w, stride, pad, n, o, i, j, k);
    assert forall|k: int| 0 <= k < size implies #[trigger] a(k) == t(k) by {
        lemma_window_place(k, c, kh, kw);
        let (cc, ky, kx) = ((k / kw) / kh, (k / kw) % kh, k % kw);
        lemma_patch(x, kernel, stride, pad, n, i, j, cc, ky, kx);
        lemma_transposed_entry(filters, o, k);
        let u = (cc * kh + ky) * kw + kx;
        assert(((o * c + cc) * kh + ky) * kw + kx == o * (c * kh * kw) + u) by (nonlinear_arith)
            requires
                u == (cc * kh + ky) * kw + kx,
        ;
    }
    lemma_same_terms(size, a, t);
    assert(row_times_column(col, turned, row, o) == sum_of(size, a));
    let sum = sum_of(size, t);
    assert(entry(product, row, o) == sum);
    // the bias
    let s = seq![rows as usize, w.shape[0]];
    lemma_volume2(rows as usize, w.shape[0]);
    assert(product.shape =~= s);
    let biased = match b {
        Some(b) => zip_spec(Arithmetic::Plus, product, b),
        None => product,
    };
    if let Some(b) = b {
        lemma_joint_absorbs(s, b.shape);
        lemma_contributes(b, s, row, o);
        broadcasting_to_the_same_shape_is_the_identity(product);
    }
    assert(0 <= row * f + o < rows * f) by (nonlinear_arith)
        requires
            0 <= row < rows,
            0 <= o < f,
    ;
    // the images
    lemma_volume4(p.batch, p.out_h, p.out_w, w.shape[0]);
    lemma_pixel_of_rows(biased, p.batch, w.shape[0], p.out_h, p.out_w, n, o, i, j);
}

proof fn lemma_first_max_exceeds<T: Scalar>(values: Seq<T>, n: int, k: int)
    requires
        in_order::<T>(),
        0 <= k < n,
    ensures
        !values[k].exceeds(values[first_max(values, n)]),
    decreases n,
{
    if n > 1 {
        let m = first_max(values, n - 1);
        if k < n - 1 {
            lemma_first_max_exceeds(values, n - 1, k);
            if values[n - 1].exceeds(values[m]) && values[k].exceeds(values[n - 1]) {
                assert(values[k].exceeds(values[m]));
            }
        }
    }
}

/// Pooling picks the greatest element of every window.
pub proof fn pooling_picks_the_greatest<T: Scalar>(
    x: Array<T>,
    kernel: (usize, usize),
    stride: (usize, usize),
    pad: (usize, usize),
)
    requires
        x.wf(),
        kernel.0 > 0,
        kernel.1 > 0,
        pooling_fits(x.shape, kernel, stride, pad),
    ensures
        is_pooled(pooling_spec(x, kernel, stride, pad), x, kernel, stride, pad),
{
    let y = pooling_spec(x, kernel, stride, pad);
    lemma_windows(x.shape, kernel, stride, pad);
    assert forall|n: int, c: int, i: int, j: int|
        0 <= n < y.shape[0] && 0 <= c < y.shape[1] && 0 <= i < y.shape[2] && 0 <= j
            < y.shape[3] implies is_greatest(
        #[trigger] at4(y, n, c, i, j),
        x,
        kernel,
        stride,
        pad,
        n,
        c,
        i,
        j,
    ) by {
        lemma_pooled(x, kernel, stride, pad, n, c, i, j);
    }
}

#[verifier::spinoff_prover]
#[verifier::rlimit(40)]
proof fn lemma_pooled<T: Scalar>(
    x: Array<T>,
    kernel: (usize, usize),
    stride: (usize, usize),
    pad: (usize, usize),
    n: int,
    c: int,
    i: int,
    j: int,
)
    requires
        x.wf(),
        kernel.0 > 0,
        kernel.1 > 0,
        pooling_fits(x.shape, kernel, stride, pad),
        0 <= n < x.shape[0],
        0 <= c < x.shape[1],
        0 <= i < patches_spec(x.shape, kernel, stride, pad).out_h,
        0 <= j < patches_spec(x.shape, kernel, stride, pad).out_w,
    ensures
        is_greatest(
            at4(pooling_spec(x, kernel, stride, pad), n, c, i, j),
            x,
            kernel,
            stride,
            pad,
            n,
            c,
            i,
            j,
        ),
{
    let p = patches_spec(x.shape, kernel, stride, pad);
    let y = pooling_spec(x, kernel, stride, pad);
    let col = im2col_spec(x, kernel, stride, pad);
    let (kh, kw) = (kernel.0 as int, kernel.1 as int);
    let win = kh * kw;
    lemma_patches_wf(x.shape, kernel, stride, pad);
    let s = pooled_shape(p);
    lemma_place4(s, n, c, i, j);
    let e = ((n * p.channels + c) * p.out_h + i) * p.out_w + j;
    lemma_window_start(p, e);
    let values = window_values(x, p, e);
    assert(win >= 1) by (nonlinear_arith)
        requires
            win == kh * kw,
            kh >= 1,
            kw >= 1,
    ;
    lemma_first_max(values, win);
    let best = first_max(values, win);
    let start = window_start(p, e);
    p.lemma_window_volume();
    assert(winner_map(p, winners_spec(x, p))[e] == Some((start + best) as usize));
    let v = at4(y, n, c, i, j);
    assert(v == values[best]);
    assert forall|ky: int, kx: int| 0 <= ky < kh && 0 <= kx < kw implies 0 <= ky * kw + kx < win
        && values[ky * kw + kx] == #[trigger] window_sees(
        x,
        stride,
        pad,
        n,
        c,
        i,
        j,
        ky,
        kx,
    ) by {
        lemma_patch(x, kernel, stride, pad, n, i, j, c, ky, kx);
        assert(0 <= ky * kw + kx < kh * kw) by (nonlinear_arith)
            requires
                0 <= ky < kh,
                0 <= kx < kw,
        ;
        assert((c * kh + ky) * kw + kx == c * (kh * kw) + (ky * kw + kx)) by (nonlinear_arith);
    }
    let (by, bx) = (best / kw, best % kw);
    lemma_fundamental_div_mod(best, kw);
    assert(0 <= by < kh && best == by * kw + bx) by (nonlinear_arith)
        requires
            best == kw * by + bx,
            0 <= bx < kw,
            0 <= best < kh * kw,
            kw >= 1,
    ;
    assert(v == window_sees(x, stride, pad, n, c, i, j, by, bx));
    if in_order::<T>() {
        assert forall|ky: int, kx: int| 0 <= ky < kh && 0 <= kx < kw implies !(#[trigger] window_sees(
            x,
            stride,
            pad,
            n,
            c,
            i,
            j,
            ky,
            kx,
        )).exceeds(v) by {
            assert(values[ky * kw + kx] == window_sees(x, stride, pad, n, c, i, j, ky, kx));
            lemma_first_max_exceeds(values, win, ky * kw + kx);
        }
    }
}

/// A transposed convolution adds to every channel the bias of it.
pub proof fn a_transposed_convolution_adds_its_bias<T: Scalar>(
    x: Array<T>,
    w: Array<T>,
    b: Array<T>,
    stride: (usize, usize),
    pad: (usize, usize),
    outsize: Option<(usize, usize)>,
    n: int,
    c: int,
    i: int,
    j: int,
)
    requires
        b.wf(),
        deconv2d_fits(x.shape, w.shape, Some(b.shape), stride, pad, outsize),
        ({
            let y = deconv2d_spec(x, w, None, stride, pad, outsize);
            &&& 0 <= n < y.shape[0]
            &&& 0 <= c < y.shape[1]
            &&& 0 <= i < y.shape[2]
            &&& 0 <= j < y.shape[3]
        }),
    ensures
        deconv2d_spec(x, w, Some(b), stride, pad, outsize).shape == deconv2d_spec(
            x,
            w,
            None,
            stride,
            pad,
            outsize,
        ).shape,
        at4(deconv2d_spec(x, w, Some(b), stride, pad, outsize), n, c, i, j) == at4(
            deconv2d_spec(x, w, None, stride, pad, outsize),
            n,
            c,
            i,
            j,
        ).plus(b.data[c]),
{
    let y = deconv2d_spec(x, w, None, stride, pad, outsize);
    let s = y.shape;
    let per = seq![1usize, w.shape[1], 1, 1];
    let bias = reshape_spec(b, per);
    lemma_patches_wf(s, (w.shape[2], w.shape[3]), stride, pad);
    lemma_volume4(1, w.shape[1], 1, 1);
    let k = w.shape[1] as nat;
    assert(1 * k * 1 * 1 == k) by (nonlinear_arith);
    lemma_joint_absorbs(s, per);
    lemma_place4(s, n, c, i, j);
    lemma_place4(per, 0, c, 0, 0);
    let (idx, jdx) = (seq![n, c, i, j], seq![0, c, 0, 0]);
    assert(contributes_from(idx, s, idx)) by {
        assert forall|a: int| 0 <= a < s.len() implies #[trigger] idx[a] == if s[a] == 1 {
            0
        } else {
            idx[a + idx.len() - s.len()]
        } by {
            assert(0 <= idx[a] < s[a]);
        }
    }
    assert(contributes_from(jdx, per, idx)) by {
        assert forall|a: int| 0 <= a < per.len() implies #[trigger] jdx[a] == if per[a] == 1 {
            0
        } else {
            idx[a + idx.len() - per.len()]
        } by {}
    }
    arithmetic_goes_place_by_place(y, bias, idx, idx, jdx);
    assert((0 * per[1] + c) * per[2] * 1 == c) by (nonlinear_arith)
        requires
            per[2] == 1,
    ;
}

/// Where no size is asked for, a transposed convolution makes images in which the windows of
/// the filters, a stride apart, just fit once the padding is added.
pub proof fn a_transposed_convolution_infers_its_size<T: Scalar>(
    x: Array<T>,
    w: Array<T>,
    b: Option<Array<T>>,
    stride: (usize, usize),
    pad: (usize, usize),
    size: (usize, usize),
)
    requires
        deconv2d_fits(
            x.shape,
            w.shape,
            match b {
                Some(b) => Some(b.shape),
                None => None,
            },
            stride,
            pad,
            None,
        ),
        size.0 == stride.0 * (x.shape[2] - 1) + w.shape[2] - 2 * pad.0,
        size.1 == stride.1 * (x.shape[3] - 1) + w.shape[3] - 2 * pad.1,
    ensures
        deconv2d_spec(x, w, b, stride, pad, None) == deconv2d_spec(
            x,
            w,
            b,
            stride,
            pad,
            Some(size),
        ),
        deconv2d_spec(x, w, None, stride, pad, None).shape == seq![
            x.shape[0],
            w.shape[1],
            size.0,
            size.1,
        ],
{
}

} // verus!
