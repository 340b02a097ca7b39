//! Convolution, transposed convolution and max pooling on batches of images.
use crate::engine::builtin::{
    apply_biased, apply_unary, derives, held, holds, operands, Builtin,
};
use crate::engine::elementwise::{lemma_joint_absorbs, zip_map, zip_spec, Arithmetic};
use crate::engine::function::{applied, Op};
use crate::engine::graph::{Graph, Variable};
use crate::engine::rule::Rule;
use crate::functions::matmul::{dot2, matmul_spec};
use crate::index::{checked_volume, lemma_unravel, to_int, unravel, unravel_index, volume};
use crate::laws::images::{
    convolving_weighs_windows, is_convolved, is_pooled, pooling_picks_the_greatest,
};
use crate::remap::{gather, gather_through, maps_into, place, place_through};
use crate::scalar::Scalar;
use crate::tensor::{
    copy_of, permuted, reshape_spec, reversed_axes, transpose_spec, Array, Tensor,
};
use crate::utils::conv::{
    col2im_array_spec, col2im_matrix, col2im_spec, col_shape, conv_outsize, deconv_outsize,
    get_conv_outsize, get_deconv_outsize, im2col_array_spec, im2col_matrix, im2col_spec,
    lemma_patches_wf, lemma_volume2, lemma_volume4, nchw, nchw_to_rows, nchw_to_rows_spec, pair,
    patches_fit, patches_spec, rows_to_nchw, rows_to_nchw_spec, spells, window_fits, Pair,
    Patches,
};
use crate::utils::shape::broadcasts_to;
use vstd::prelude::*;

verus! {

/// The number of window positions along both axes of an image.
pub fn out_size(
    height: usize,
    width: usize,
    kernel: (usize, usize),
    stride: (usize, usize),
    pad: (usize, usize),
) -> (r: (usize, usize))
    requires
        window_fits(height, kernel.0, stride.0, pad.0),
        window_fits(width, kernel.1, stride.1, pad.1),
        conv_outsize(height as int, kernel.0 as int, stride.0 as int, pad.0 as int) <= usize::MAX,
        conv_outsize(width as int, kernel.1 as int, stride.1 as int, pad.1 as int) <= usize::MAX,
    ensures
        r.0 == conv_outsize(height as int, kernel.0 as int, stride.0 as int, pad.0 as int),
        r.1 == conv_outsize(width as int, kernel.1 as int, stride.1 as int, pad.1 as int),
{
    (
        get_conv_outsize(height, kernel.0, stride.0, pad.0),
        get_conv_outsize(width, kernel.1, stride.1, pad.1),
    )
}

/// The transposed matrix has its two lengths exchanged.
pub proof fn lemma_transposed_matrix<T: Scalar>(x: Array<T>)
    requires
        x.shape.len() == 2,
    ensures
        transpose_spec(x).shape == seq![x.shape[1], x.shape[0]],
{
    assert(permuted(x.shape, reversed_axes(2)) =~= seq![x.shape[1], x.shape[0]]);
}

// ---------------------------------------------------------------------------
// convolution
// ---------------------------------------------------------------------------
/// The geometry of a convolution of images of shape `x` with filters of shape `w`.
pub open spec fn conv_patches(
    x: Seq<usize>,
    w: Seq<usize>,
    stride: (usize, usize),
    pad: (usize, usize),
) -> Patches {
    patches_spec(x, (w[2], w[3]), stride, pad)
}

/// Whether images, filters and a bias of these shapes can be convolved.
pub open spec fn conv2d_fits(
    x: Seq<usize>,
    w: Seq<usize>,
    b: Option<Seq<usize>>,
    stride: (usize, usize),
    pad: (usize, usize),
) -> bool {
    let p = conv_patches(x, w, stride, pad);
    &&& x.len() == 4
    &&& w.len() == 4
    &&& w[1] == x[1]
    &&& patches_fit(x, (w[2], w[3]), stride, pad)
    &&& p.rows_spec() * w[0] <= usize::MAX
    &&& w[0] * p.columns_spec() <= usize::MAX
    &&& b matches Some(b) ==> broadcasts_to(b, seq![p.rows_spec() as usize, w[0]])
}

/// The filters as a matrix with one row per filter.
pub open spec fn filters_as_rows<T>(w: Array<T>) -> Array<T> {
    reshape_spec(w, seq![w.shape[0], (w.shape[1] * w.shape[2] * w.shape[3]) as usize])
}

/// The convolution of a batch of images: every patch times every filter, plus a bias
/// per filter.
pub open spec fn conv2d_spec<T: Scalar>(
    x: Array<T>,
    w: Array<T>,
    b: Option<Array<T>>,
    stride: (usize, usize),
    pad: (usize, usize),
) -> Array<T> {
    let p = conv_patches(x.shape, w.shape, stride, pad);
    let col = im2col_spec(x, (w.shape[2], w.shape[3]), stride, pad);
    let y = matmul_spec(col, transpose_spec(filters_as_rows(w)));
    let biased = match b {
        Some(b) => zip_spec(Arithmetic::Plus, y, b),
        None => y,
    };
    rows_to_nchw_spec(biased, p.batch, w.shape[0], p.out_h, p.out_w)
}

pub open spec fn conv2d_shape(
    x: Seq<usize>,
    w: Seq<usize>,
    stride: (usize, usize),
    pad: (usize, usize),
) -> Seq<usize> {
    let p = conv_patches(x, w, stride, pad);
    seq![p.batch, w[0], p.out_h, p.out_w]
}

pub open spec fn shape_of<T>(b: Option<Array<T>>) -> Option<Seq<usize>> {
    match b {
        Some(b) => Some(b.shape),
        None => None,
    }
}

pub open spec fn view_of<T>(b: Option<&Tensor<T>>) -> Option<Array<T>> {
    match b {
        Some(b) => Some(b@),
        None => None,
    }
}

pub fn conv2d_array<T: Scalar>(
    x: &Tensor<T>,
    w: &Tensor<T>,
    b: Option<&Tensor<T>>,
    stride: (usize, usize),
    pad: (usize, usize),
) -> (r: Tensor<T>)
    requires
        x.wf(),
        w.wf(),
        b matches Some(b) ==> b.wf(),
        conv2d_fits(x@.shape, w@.shape, shape_of(view_of(b)), stride, pad),
    ensures
        r.wf(),
        r@ == conv2d_spec(x@, w@, view_of(b), stride, pad),
        r@.shape == conv2d_shape(x@.shape, w@.shape, stride, pad),
        is_convolved(r@, x@, w@, view_of(b), stride, pad),
{
    proof {
        convolving_weighs_windows(x@, w@, view_of(b), stride, pad);
    }
    let (batch, channels, height, width) = nchw(x.shape.as_slice());
    let (out_channels, _c, kernel_h, kernel_w) = nchw(w.shape.as_slice());
    let kernel: (usize, usize) = (kernel_h, kernel_w);
    let ghost p = conv_patches(x@.shape, w@.shape, stride, pad);
    proof {
        lemma_patches_wf(x@.shape, kernel, stride, pad);
    }
    let (out_h, out_w) = out_size(height, width, kernel, stride, pad);
    let col = im2col_matrix(x, kernel, stride, pad);
    let flat: [usize; 2] = [out_channels, channels * kernel_h * kernel_w];
    proof {
        assert(flat@ =~= filters_as_rows(w@).shape);
        lemma_volume4(out_channels, channels, kernel_h, kernel_w);
        lemma_volume2(out_channels, flat@[1]);
        let (a, c, d, e) = (
            out_channels as nat,
            channels as nat,
            kernel_h as nat,
            kernel_w as nat,
        );
        assert(a * c * d * e == a * (c * d * e)) by (nonlinear_arith);
        lemma_transposed_matrix(filters_as_rows(w@));
    }
    let weights = w.reshaped(flat.as_slice()).transposed();
    let mut y = dot2(&col, &weights);
    match b {
        Some(b) => {
            proof {
                lemma_joint_absorbs(y@.shape, b@.shape);
                lemma_volume2(y@.shape[0], y@.shape[1]);
            }
            y = zip_map(Arithmetic::Plus, &y, b);
        },
        None => {},
    }
    rows_to_nchw(&y, batch, out_channels, out_h, out_w)
}

// ---------------------------------------------------------------------------
// transposed convolution
// ---------------------------------------------------------------------------
/// The size of the images that a transposed convolution produces where none is
/// prescribed.
pub open spec fn deconv_out(
    x: Seq<usize>,
    w: Seq<usize>,
    stride: (usize, usize),
    pad: (usize, usize),
    outsize: Option<(usize, usize)>,
) -> (usize, usize) {
    match outsize {
        Some(size) => size,
        None => (
            deconv_outsize(x[2] as int, w[2] as int, stride.0 as int, pad.0 as int) as usize,
            deconv_outsize(x[3] as int, w[3] as int, stride.1 as int, pad.1 as int) as usize,
        ),
    }
}

/// Whether the size of a transposed convolution can be computed where none is
/// prescribed.
pub open spec fn deconv_size_fits(
    size: usize,
    kernel: usize,
    stride: usize,
    pad: usize,
) -> bool {
    &&& size > 0
    &&& 2 * pad <= stride * (size - 1) + kernel <= usize::MAX
}

pub open spec fn deconv2d_shape(
    x: Seq<usize>,
    w: Seq<usize>,
    stride: (usize, usize),
    pad: (usize, usize),
    outsize: Option<(usize, usize)>,
) -> Seq<usize> {
    let (out_h, out_w) = deconv_out(x, w, stride, pad, outsize);
    seq![x[0], w[1], out_h, out_w]
}

/// Whether images, filters and a bias of these shapes have a transposed convolution:
/// the patches that the input pixels fan out into fold into the images asked for.
pub open spec fn deconv2d_fits(
    x: Seq<usize>,
    w: Seq<usize>,
    b: Option<Seq<usize>>,
    stride: (usize, usize),
    pad: (usize, usize),
    outsize: Option<(usize, usize)>,
) -> bool {
    let out = deconv2d_shape(x, w, stride, pad, outsize);
    let p = patches_spec(out, (w[2], w[3]), stride, pad);
    &&& x.len() == 4
    &&& w.len() == 4
    &&& w[0] == x[1]
    &&& outsize.is_none() ==> deconv_size_fits(x[2], w[2], stride.0, pad.0) && deconv_size_fits(
        x[3],
        w[3],
        stride.1,
        pad.1,
    )
    &&& patches_fit(out, (w[2], w[3]), stride, pad)
    &&& x[0] * x[2] <= usize::MAX
    &&& x[0] * x[2] * x[3] == p.rows_spec()
    &&& x[1] * p.columns_spec() <= usize::MAX
    &&& b matches Some(b) ==> volume(b) == w[1]
}

/// The filters as a matrix with one row per input channel.
pub open spec fn filters_by_input<T>(w: Array<T>) -> Array<T> {
    reshape_spec(w, seq![w.shape[0], (w.shape[1] * w.shape[2] * w.shape[3]) as usize])
}

/// The transposed convolution: every input pixel fans out into a whole patch, and
/// overlapping patches add up.
pub open spec fn deconv2d_spec<T: Scalar>(
    x: Array<T>,
    w: Array<T>,
    b: Option<Array<T>>,
    stride: (usize, usize),
    pad: (usize, usize),
    outsize: Option<(usize, usize)>,
) -> Array<T> {
    let out = deconv2d_shape(x.shape, w.shape, stride, pad, outsize);
    let col = matmul_spec(nchw_to_rows_spec(x), filters_by_input(w));
    let y = col2im_spec(col, out, (w.shape[2], w.shape[3]), stride, pad);
    match b {
        Some(b) => zip_spec(Arithmetic::Plus, y, reshape_spec(b, seq![1, w.shape[1], 1, 1])),
        None => y,
    }
}

pub fn deconv2d_array<T: Scalar>(
    x: &Tensor<T>,
    w: &Tensor<T>,
    b: Option<&Tensor<T>>,
    stride: (usize, usize),
    pad: (usize, usize),
    outsize: Option<(usize, usize)>,
) -> (r: Tensor<T>)
    requires
        x.wf(),
        w.wf(),
        b matches Some(b) ==> b.wf(),
        deconv2d_fits(x@.shape, w@.shape, shape_of(view_of(b)), stride, pad, outsize),
    ensures
        r.wf(),
        r@ == deconv2d_spec(x@, w@, view_of(b), stride, pad, outsize),
        r@.shape == deconv2d_shape(x@.shape, w@.shape, stride, pad, outsize),
{
    let (batch, channels, height, width) = nchw(x.shape.as_slice());
    let (_c, out_channels, kernel_h, kernel_w) = nchw(w.shape.as_slice());
    let kernel: (usize, usize) = (kernel_h, kernel_w);
    let (out_h, out_w) = match outsize {
        Some(size) => size,
        None => (
            get_deconv_outsize(height, kernel_h, stride.0, pad.0),
            get_deconv_outsize(width, kernel_w, stride.1, pad.1),
        ),
    };
    let ghost out = deconv2d_shape(x@.shape, w@.shape, stride, pad, outsize);
    let ghost p = patches_spec(out, kernel, stride, pad);
    proof {
        assert(out == seq![batch, out_channels, out_h, out_w]);
        lemma_patches_wf(out, kernel, stride, pad);
    }
    let rows = nchw_to_rows(x);
    let flat: [usize; 2] = [channels, out_channels * kernel_h * kernel_w];
    proof {
        assert(flat@ =~= filters_by_input(w@).shape);
        lemma_volume4(channels, out_channels, kernel_h, kernel_w);
        lemma_volume2(channels, flat@[1]);
        let (a, c, d, e) = (
            channels as nat,
            out_channels as nat,
            kernel_h as nat,
            kernel_w as nat,
        );
        assert(a * c * d * e == a * (c * d * e)) by (nonlinear_arith);
    }
    let weights = w.reshaped(flat.as_slice());
    let col = dot2(&rows, &weights);
    proof {
        assert(col@.shape =~= p.matrix_shape_spec());
    }
    let y = col2im_matrix(&col, (batch, out_channels, out_h, out_w), kernel, stride, pad);
    match b {
        Some(b) => {
            let per_channel: [usize; 4] = [1, out_channels, 1, 1];
            proof {
                assert(per_channel@ =~= seq![1usize, out_channels, 1, 1]);
                lemma_volume4(1, out_channels, 1, 1);
                let c = out_channels as nat;
                assert(1 * c * 1 * 1 == c) by (nonlinear_arith);
                assert(broadcasts_to(per_channel@, y@.shape));
                lemma_joint_absorbs(y@.shape, per_channel@);
            }
            let bias = b.reshaped(per_channel.as_slice());
            zip_map(Arithmetic::Plus, &y, &bias)
        },
        None => y,
    }
}

// ---------------------------------------------------------------------------
// the gradient of the filters
// ---------------------------------------------------------------------------
/// Whether images of shape `x` and output gradients of shape `gy` determine the
/// gradient of filters with this kernel.
pub open spec fn conv2d_grad_w_fits(
    x: Seq<usize>,
    gy: Seq<usize>,
    kernel: (usize, usize),
    stride: (usize, usize),
    pad: (usize, usize),
) -> bool {
    let p = patches_spec(x, kernel, stride, pad);
    &&& x.len() == 4
    &&& gy.len() == 4
    &&& gy[0] == x[0]
    &&& patches_fit(x, kernel, stride, pad)
    &&& gy[0] * gy[2] <= usize::MAX
    &&& gy[0] * gy[2] * gy[3] == p.rows_spec()
    &&& gy[1] * p.columns_spec() <= usize::MAX
}

/// The gradient of the filters: every output position votes on every weight.
pub open spec fn conv2d_grad_w_spec<T: Scalar>(
    x: Array<T>,
    gy: Array<T>,
    kernel: (usize, usize),
    stride: (usize, usize),
    pad: (usize, usize),
) -> Array<T> {
    let col = im2col_spec(x, kernel, stride, pad);
    let rows = transpose_spec(nchw_to_rows_spec(gy));
    reshape_spec(
        matmul_spec(rows, col),
        seq![gy.shape[1], x.shape[1], kernel.0, kernel.1],
    )
}

pub fn conv2d_grad_w_array<T: Scalar>(
    x: &Tensor<T>,
    gy: &Tensor<T>,
    kernel: (usize, usize),
    stride: (usize, usize),
    pad: (usize, usize),
) -> (r: Tensor<T>)
    requires
        x.wf(),
        gy.wf(),
        conv2d_grad_w_fits(x@.shape, gy@.shape, kernel, stride, pad),
    ensures
        r.wf(),
        r@ == conv2d_grad_w_spec(x@, gy@, kernel, stride, pad),
{
    let (batch, channels, _h, _w) = nchw(x.shape.as_slice());
    let (_n, out_channels, out_h, out_w) = nchw(gy.shape.as_slice());
    let ghost p = patches_spec(x@.shape, kernel, stride, pad);
    proof {
        lemma_patches_wf(x@.shape, kernel, stride, pad);
    }
    let col = im2col_matrix(x, kernel, stride, pad);
    let rows = nchw_to_rows(gy);
    proof {
        lemma_transposed_matrix(rows@);
    }
    let gw = dot2(&rows.transposed(), &col);
    let shape: [usize; 4] = [out_channels, channels, kernel.0, kernel.1];
    proof {
        assert(shape@ =~= seq![gy@.shape[1], x@.shape[1], kernel.0, kernel.1]);
        lemma_volume4(out_channels, channels, kernel.0, kernel.1);
        lemma_volume2(gw@.shape[0], gw@.shape[1]);
        let (a, c, d, e) = (
            out_channels as nat,
            channels as nat,
            kernel.0 as nat,
            kernel.1 as nat,
        );
        assert(a * c * d * e == a * (c * d * e)) by (nonlinear_arith);
    }
    gw.reshaped(shape.as_slice())
}

// ---------------------------------------------------------------------------
// pooling
// ---------------------------------------------------------------------------
/// The index of the first element that none of the first `n` elements exceeds: a
/// later element takes over only where it is strictly greater.
pub open spec fn first_max<T: Scalar>(values: Seq<T>, n: int) -> int
    decreases n,
{
    if n <= 1 {
        0
    } else if values[n - 1].exceeds(values[first_max(values, n - 1)]) {
        n - 1
    } else {
        first_max(values, n - 1)
    }
}

/// One output element per image, channel and window position.
pub open spec fn pooled_shape(p: Patches) -> Seq<usize> {
    seq![p.batch, p.channels, p.out_h, p.out_w]
}

pub open spec fn window_size(p: Patches) -> int {
    p.kernel_h * p.kernel_w
}

/// The position in the patch matrix of the first element of the window that output
/// element `e` pools.
pub open spec fn window_start(p: Patches, e: int) -> int {
    let o = unravel(pooled_shape(p), e);
    ((o[0] * p.out_h + o[2]) * p.out_w + o[3]) * p.columns_spec() + o[1] * window_size(p)
}

/// The column of the patch matrix at which that window starts.
pub open spec fn window_column(p: Patches, e: int) -> int {
    unravel(pooled_shape(p), e)[1] * window_size(p)
}

/// The elements that output element `e` pools.
pub open spec fn window_values<T: Scalar>(x: Array<T>, p: Patches, e: int) -> Seq<T> {
    let col = gather(x.data, p.map());
    Seq::new(window_size(p) as nat, |k: int| col[window_start(p, e) + k])
}

/// For each output element, the index of the greatest element of its window.
pub open spec fn winners_spec<T: Scalar>(x: Array<T>, p: Patches) -> Seq<usize> {
    Seq::new(
        volume(pooled_shape(p)),
        |e: int| first_max(window_values(x, p, e), window_size(p)) as usize,
    )
}

/// For each output element, the entry of the patch matrix that `winners` picks.
pub open spec fn winner_map(p: Patches, winners: Seq<usize>) -> Seq<Option<usize>> {
    Seq::new(
        volume(pooled_shape(p)),
        |e: int| Some((window_start(p, e) + winners[e]) as usize),
    )
}

/// The pooled elements: the entries of the patch matrix that `winners` picks.
pub open spec fn picked_spec<T: Scalar>(x: Array<T>, p: Patches, winners: Seq<usize>) -> Array<T> {
    Array {
        shape: pooled_shape(p),
        data: gather(gather(x.data, p.map()), winner_map(p, winners)),
    }
}

/// The greatest element of every window.
pub open spec fn pooling_spec<T: Scalar>(
    x: Array<T>,
    kernel: (usize, usize),
    stride: (usize, usize),
    pad: (usize, usize),
) -> Array<T> {
    let p = patches_spec(x.shape, kernel, stride, pad);
    picked_spec(x, p, winners_spec(x, p))
}

/// Each pooled gradient written to the entry of the patch matrix that `winners`
/// picks, and the patches folded back into images.
pub open spec fn pooling_grad_spec<T: Scalar>(
    gy: Array<T>,
    input_shape: Seq<usize>,
    kernel: (usize, usize),
    stride: (usize, usize),
    pad: (usize, usize),
    winners: Seq<usize>,
) -> Array<T> {
    let p = patches_spec(input_shape, kernel, stride, pad);
    let col = Array {
        shape: p.matrix_shape_spec(),
        data: place(gy.data, winner_map(p, winners), p.rows_spec() * p.columns_spec()),
    };
    col2im_spec(col, input_shape, kernel, stride, pad)
}

/// Whether windows of this kernel can be pooled over images of shape `x`.
pub open spec fn pooling_fits(
    x: Seq<usize>,
    kernel: (usize, usize),
    stride: (usize, usize),
    pad: (usize, usize),
) -> bool {
    &&& patches_fit(x, kernel, stride, pad)
    &&& kernel.0 * kernel.1 <= usize::MAX
    &&& volume(pooled_shape(patches_spec(x, kernel, stride, pad))) <= usize::MAX
}

/// Whether `winners` picks an entry of its row of the patch matrix for each output
/// element.
pub open spec fn winners_fit(p: Patches, winners: Seq<usize>) -> bool {
    &&& winners.len() >= volume(pooled_shape(p))
    &&& forall|e: int|
        0 <= e < volume(pooled_shape(p)) ==> window_column(p, e) + #[trigger] winners[e]
            < p.columns_spec()
}

/// The window of an output element starts within its row of the patch matrix.
pub proof fn lemma_window_start(p: Patches, e: int)
    requires
        0 <= e < volume(pooled_shape(p)),
    ensures
        0 <= window_column(p, e),
        window_column(p, e) + window_size(p) <= p.columns_spec(),
        window_start(p, e) - window_column(p, e) >= 0,
        window_start(p, e) - window_column(p, e) + p.columns_spec() <= p.rows_spec()
            * p.columns_spec(),
        ({
            let o = unravel(pooled_shape(p), e);
            let row = (o[0] * p.out_h + o[2]) * p.out_w + o[3];
            &&& 0 <= o[0] * p.out_h
            &&& o[0] * p.out_h + o[2] < p.batch * p.out_h
            &&& 0 <= (o[0] * p.out_h + o[2]) * p.out_w
            &&& 0 <= row < p.rows_spec()
        }),
{
    lemma_unravel(pooled_shape(p), e);
    let s = pooled_shape(p);
    let o = unravel(s, e);
    assert(0 <= o[0] < s[0] && 0 <= o[1] < s[1] && 0 <= o[2] < s[2] && 0 <= o[3] < s[3]);
    let (oh, ow) = (p.out_h as int, p.out_w as int);
    let b = p.batch as int;
    let q = o[0] * oh + o[2];
    assert(0 <= o[0] * oh && q < b * oh) by (nonlinear_arith)
        requires
            0 <= o[0] < b,
            0 <= o[2] < oh,
            q == o[0] * oh + o[2],
    ;
    let row = q * ow + o[3];
    assert(0 <= q * ow && row < (b * oh) * ow) by (nonlinear_arith)
        requires
            0 <= q < b * oh,
            0 <= o[3] < ow,
            row == q * ow + o[3],
    ;
    assert((p.batch as nat) * (p.out_h as nat) * (p.out_w as nat) == (b * oh) * ow);
    let cols = p.columns_spec() as int;
    let rows = p.rows_spec() as int;
    assert(0 <= row * cols && row * cols + cols <= rows * cols) by (nonlinear_arith)
        requires
            0 <= row < rows,
            0 <= cols,
    ;
    let win = window_size(p);
    let (c, kh, kw) = (p.channels as int, p.kernel_h as int, p.kernel_w as int);
    assert(0 <= win) by (nonlinear_arith)
        requires
            win == kh * kw,
            0 <= kh,
            0 <= kw,
    ;
    assert(cols == c * win) by (nonlinear_arith)
        requires
            cols == c * kh * kw,
            win == kh * kw,
    ;
    let o1 = o[1];
    assert(0 <= o1 * win && o1 * win + win <= c * win) by (nonlinear_arith)
        requires
            0 <= o1 < c,
            0 <= win,
    ;
}

/// Computes [`window_start`].
fn window_start_of(p: &Patches, out: &[usize], e: usize) -> (r: (usize, usize))
    requires
        p.wf(),
        out@ == pooled_shape(*p),
        e < volume(pooled_shape(*p)),
        window_size(*p) <= usize::MAX,
    ensures
        r.0 == window_start(*p, e as int),
        r.1 == window_column(*p, e as int),
{
    let o: Vec<usize> = unravel_index(out, e);
    proof {
        lemma_window_start(*p, e as int);
        let oi = to_int(o@);
        assert(oi[0] == o@[0] && oi[1] == o@[1] && oi[2] == o@[2] && oi[3] == o@[3]);
    }
    let row: usize = (o[0] * p.out_h + o[2]) * p.out_w + o[3];
    let columns: usize = p.columns();
    proof {
        let (rr, cc, nn) = (row as int, columns as int, p.rows_spec() as int);
        assert(0 <= rr * cc) by (nonlinear_arith)
            requires
                0 <= rr,
                0 <= cc,
        ;
    }
    let base: usize = o[1] * (p.kernel_h * p.kernel_w);
    (row * columns + base, base)
}

pub proof fn lemma_first_max<T: Scalar>(values: Seq<T>, n: int)
    requires
        n >= 1,
    ensures
        0 <= first_max(values, n) < n,
    decreases n,
{
    if n > 1 {
        lemma_first_max(values, n - 1);
    }
}

pub proof fn lemma_winner_map(p: Patches, winners: Seq<usize>)
    requires
        p.wf(),
        winners_fit(p, winners),
    ensures
        maps_into(winner_map(p, winners), p.rows_spec() * p.columns_spec()),
        forall|e: int|
            0 <= e < volume(pooled_shape(p)) ==> 0 <= window_start(p, e) + #[trigger] winners[e]
                < p.rows_spec() * p.columns_spec(),
{
    assert forall|e: int| 0 <= e < volume(pooled_shape(p)) implies 0 <= window_start(p, e)
        + #[trigger] winners[e] < p.rows_spec() * p.columns_spec() by {
        lemma_window_start(p, e);
    }
    let n = p.rows_spec() * p.columns_spec();
    assert forall|e: int| 0 <= e < winner_map(p, winners).len() implies (#[trigger] winner_map(
        p,
        winners,
    )[e] matches Some(j) ==> (j as nat) < n) by {
        assert(0 <= window_start(p, e) + winners[e] < n);
    }
}

pub proof fn lemma_winners_fit<T: Scalar>(x: Array<T>, p: Patches)
    requires
        window_size(p) > 0,
        window_size(p) <= usize::MAX,
    ensures
        winners_fit(p, winners_spec(x, p)),
{
    let w = winners_spec(x, p);
    assert forall|e: int| 0 <= e < volume(pooled_shape(p)) implies window_column(p, e)
        + #[trigger] w[e] < p.columns_spec() by {
        lemma_window_start(p, e);
        lemma_first_max(window_values(x, p, e), window_size(p));
    }
}

fn pooled_shape_of(p: &Patches) -> (r: Vec<usize>)
    ensures
        r@ == pooled_shape(*p),
{
    let mut shape: Vec<usize> = Vec::new();
    shape.push(p.batch);
    shape.push(p.channels);
    shape.push(p.out_h);
    shape.push(p.out_w);
    proof {
        assert(shape@ =~= pooled_shape(*p));
    }
    shape
}

/// Computes [`winner_map`].
fn winner_index_map(p: &Patches, winners: &Vec<usize>) -> (map: Vec<Option<usize>>)
    requires
        p.wf(),
        winners_fit(*p, winners@),
        window_size(*p) <= usize::MAX,
        volume(pooled_shape(*p)) <= usize::MAX,
    ensures
        map@ == winner_map(*p, winners@),
        maps_into(map@, p.rows_spec() * p.columns_spec()),
{
    let shape = pooled_shape_of(p);
    let total: usize = match checked_volume(shape.as_slice()) {
        Some(v) => v,
        None => 0,
    };
    let ghost want = winner_map(*p, winners@);
    proof {
        lemma_winner_map(*p, winners@);
    }
    let mut map: Vec<Option<usize>> = Vec::new();
    let mut e: usize = 0;
    while e < total
        invariant
            e <= total,
            total == volume(pooled_shape(*p)),
            p.wf(),
            shape@ == pooled_shape(*p),
            winners_fit(*p, winners@),
            window_size(*p) <= usize::MAX,
            want == winner_map(*p, winners@),
            map@ == want.take(e as int),
            forall|i: int|
                0 <= i < total ==> 0 <= window_start(*p, i) + #[trigger] winners@[i]
                    < p.rows_spec() * p.columns_spec(),
        decreases total - e,
    {
        let (start, _base) = window_start_of(p, shape.as_slice(), e);
        assert(0 <= window_start(*p, e as int) + winners@[e as int] < p.rows_spec()
            * p.columns_spec());
        map.push(Some(start + winners[e]));
        proof {
            assert(want.take(e + 1) =~= want.take(e as int).push(want[e as int]));
        }
        e = e + 1;
    }
    proof {
        assert(want.take(total as int) =~= want);
    }
    map
}

/// Pools every window, and reports which element of it won.
pub fn pooling_array<T: Scalar>(
    x: &Tensor<T>,
    kernel: (usize, usize),
    stride: (usize, usize),
    pad: (usize, usize),
) -> (r: (Tensor<T>, Vec<usize>))
    requires
        x.wf(),
        kernel.0 > 0,
        kernel.1 > 0,
        pooling_fits(x@.shape, kernel, stride, pad),
    ensures
        r.0.wf(),
        r.0@ == pooling_spec(x@, kernel, stride, pad),
        r.1@ == winners_spec(x@, patches_spec(x@.shape, kernel, stride, pad)),
        is_pooled(r.0@, x@, kernel, stride, pad),
{
    let (n, c, h, w) = nchw(x.shape.as_slice());
    proof {
        pooling_picks_the_greatest(x@, kernel, stride, pad);
        lemma_patches_wf(x@.shape, kernel, stride, pad);
    }
    let p = Patches::new((n, c, h, w), kernel, stride, pad);
    let window: usize = kernel.0 * kernel.1;
    let shape = pooled_shape_of(&p);
    let total: usize = match checked_volume(shape.as_slice()) {
        Some(v) => v,
        None => 0,
    };
    let col = im2col_matrix(x, kernel, stride, pad);
    let ghost want = winners_spec(x@, p);
    proof {
        assert(window >= 1) by (nonlinear_arith)
            requires
                window == kernel.0 * kernel.1,
                kernel.0 > 0,
                kernel.1 > 0,
        ;
        lemma_winners_fit(x@, p);
        lemma_volume2(p.rows_spec() as usize, p.columns_spec() as usize);
    }
    let mut winners: Vec<usize> = Vec::new();
    let mut e: usize = 0;
    while e < total
        invariant
            e <= total,
            total == volume(pooled_shape(p)),
            p.wf(),
            shape@ == pooled_shape(p),
            1 <= window == window_size(p) <= usize::MAX,
            col@.data == gather(x@.data, p.map()),
            col@.data.len() == p.rows_spec() * p.columns_spec(),
            col@.data.len() <= usize::MAX,
            want == winners_spec(x@, p),
            winners@ == want.take(e as int),
        decreases total - e,
    {
        let (start, _base) = window_start_of(&p, shape.as_slice(), e);
        proof {
            lemma_window_start(p, e as int);
        }
        let ghost values = window_values(x@, p, e as int);
        let mut best: usize = 0;
        let mut best_value: T = col.data[start];
        let mut k: usize = 1;
        while k < window
            invariant
                1 <= k <= window,
                window == window_size(p),
                col@.data == gather(x@.data, p.map()),
                col@.data.len() <= usize::MAX,
                start == window_start(p, e as int),
                start + window <= col@.data.len(),
                values == window_values(x@, p, e as int),
                0 <= best < k,
                best == first_max(values, k as int),
                best_value == values[best as int],
            decreases window - k,
        {
            let candidate: T = col.data[start + k];
            if candidate.gt(best_value) {
                best_value = candidate;
                best = k;
            }
            k = k + 1;
        }
        winners.push(best);
        proof {
            assert(want.take(e + 1) =~= want.take(e as int).push(want[e as int]));
        }
        e = e + 1;
    }
    proof {
        assert(want.take(total as int) =~= want);
    }
    let map = winner_index_map(&p, &winners);
    let data = gather_through(&col.data, &map);
    (Tensor { shape, data }, winners)
}

/// Reads the entries of the patch matrix that `winners` picks.
pub fn pooling_with_indexes_array<T: Scalar>(
    x: &Tensor<T>,
    kernel: (usize, usize),
    stride: (usize, usize),
    pad: (usize, usize),
    winners: &Vec<usize>,
) -> (r: Tensor<T>)
    requires
        x.wf(),
        pooling_fits(x@.shape, kernel, stride, pad),
        winners_fit(patches_spec(x@.shape, kernel, stride, pad), winners@),
    ensures
        r.wf(),
        r@ == picked_spec(x@, patches_spec(x@.shape, kernel, stride, pad), winners@),
{
    let (n, c, h, w) = nchw(x.shape.as_slice());
    proof {
        lemma_patches_wf(x@.shape, kernel, stride, pad);
    }
    let p = Patches::new((n, c, h, w), kernel, stride, pad);
    let col = im2col_matrix(x, kernel, stride, pad);
    proof {
        lemma_volume2(p.rows_spec() as usize, p.columns_spec() as usize);
    }
    let map = winner_index_map(&p, winners);
    let data = gather_through(&col.data, &map);
    Tensor { shape: pooled_shape_of(&p), data }
}

/// Writes each pooled gradient to the entry that `winners` picks and folds the
/// patches back.
pub fn pooling_grad_array<T: Scalar>(
    gy: &Tensor<T>,
    input_shape: &[usize],
    kernel: (usize, usize),
    stride: (usize, usize),
    pad: (usize, usize),
    winners: &Vec<usize>,
) -> (r: Tensor<T>)
    requires
        gy.wf(),
        pooling_fits(input_shape@, kernel, stride, pad),
        gy@.shape == pooled_shape(patches_spec(input_shape@, kernel, stride, pad)),
        winners_fit(patches_spec(input_shape@, kernel, stride, pad), winners@),
    ensures
        r.wf(),
        r@ == pooling_grad_spec(gy@, input_shape@, kernel, stride, pad, winners@),
{
    let (n, c, h, w) = nchw(input_shape);
    proof {
        lemma_patches_wf(input_shape@, kernel, stride, pad);
    }
    let p = Patches::new((n, c, h, w), kernel, stride, pad);
    let rows: usize = p.rows();
    let columns: usize = p.columns();
    let map = winner_index_map(&p, winners);
    let data = place_through(&gy.data, &map, rows * columns);
    let mut shape: Vec<usize> = Vec::new();
    shape.push(rows);
    shape.push(columns);
    let col = Tensor { shape, data };
    proof {
        assert(shape@ =~= p.matrix_shape_spec());
        lemma_volume2(rows, columns);
    }
    col2im_matrix(&col, (n, c, h, w), kernel, stride, pad)
}

// ---------------------------------------------------------------------------
// operations
// ---------------------------------------------------------------------------
/// Extracting patches as an operation.
#[derive(Debug, Clone, Copy)]
pub struct Im2col {
    pub kernel: (usize, usize),
    pub stride: (usize, usize),
    pub pad: (usize, usize),
    pub to_matrix: bool,
}

impl Im2col {
    pub fn new<K: Into<Pair>, S: Into<Pair>, P: Into<Pair>>(
        kernel: K,
        stride: S,
        pad: P,
        to_matrix: bool,
    ) -> (r: Im2col)
        ensures
            spells(kernel, r.kernel),
            spells(stride, r.stride),
            spells(pad, r.pad),
            r.to_matrix == to_matrix,
    {
        Im2col { kernel: pair(kernel), stride: pair(stride), pad: pair(pad), to_matrix }
    }
}

/// Folding patches back as an operation.
#[derive(Debug)]
pub struct Col2im {
    pub kernel: (usize, usize),
    pub stride: (usize, usize),
    pub pad: (usize, usize),
    pub input_shape: Vec<usize>,
    pub to_matrix: bool,
}

impl Col2im {
    pub fn new<K: Into<Pair>, S: Into<Pair>, P: Into<Pair>>(
        input_shape: &[usize],
        kernel: K,
        stride: S,
        pad: P,
        to_matrix: bool,
    ) -> (r: Col2im)
        ensures
            spells(kernel, r.kernel),
            spells(stride, r.stride),
            spells(pad, r.pad),
            r.input_shape@ == input_shape@,
            r.to_matrix == to_matrix,
    {
        Col2im {
            kernel: pair(kernel),
            stride: pair(stride),
            pad: pair(pad),
            input_shape: copy_of(input_shape),
            to_matrix,
        }
    }
}

/// The convolution as an operation on images, filters and an optional bias.
#[derive(Debug, Clone, Copy)]
pub struct Conv2d {
    pub stride: (usize, usize),
    pub pad: (usize, usize),
}

impl Conv2d {
    pub fn new<S: Into<Pair>, P: Into<Pair>>(stride: S, pad: P) -> (r: Conv2d)
        ensures
            spells(stride, r.stride),
            spells(pad, r.pad),
    {
        Conv2d { stride: pair(stride), pad: pair(pad) }
    }
}

/// The transposed convolution as an operation on images, filters and an optional
/// bias.
#[derive(Debug, Clone, Copy)]
pub struct Deconv2d {
    pub stride: (usize, usize),
    pub pad: (usize, usize),
    pub outsize: Option<(usize, usize)>,
}

impl Deconv2d {
    /// The output size follows from the input size.
    pub fn new<S: Into<Pair>, P: Into<Pair>>(stride: S, pad: P) -> (r: Deconv2d)
        ensures
            spells(stride, r.stride),
            spells(pad, r.pad),
            r.outsize.is_none(),
    {
        Deconv2d { stride: pair(stride), pad: pair(pad), outsize: None }
    }

    /// The output size is prescribed.
    pub fn with_outsize<S: Into<Pair>, P: Into<Pair>, Z: Into<Pair>>(
        stride: S,
        pad: P,
        outsize: Z,
    ) -> (r: Deconv2d)
        ensures
            spells(stride, r.stride),
            spells(pad, r.pad),
            r.outsize matches Some(size) && spells(outsize, size),
    {
        Deconv2d { stride: pair(stride), pad: pair(pad), outsize: Some(pair(outsize)) }
    }
}

/// The gradient of the filters of a convolution as an operation on images and output
/// gradients.
#[derive(Debug, Clone, Copy)]
pub struct Conv2dGradW {
    pub kernel: (usize, usize),
    pub stride: (usize, usize),
    pub pad: (usize, usize),
}

impl Conv2dGradW {
    pub fn new<K: Into<Pair>, S: Into<Pair>, P: Into<Pair>>(
        kernel: K,
        stride: S,
        pad: P,
    ) -> (r: Conv2dGradW)
        ensures
            spells(kernel, r.kernel),
            spells(stride, r.stride),
            spells(pad, r.pad),
    {
        Conv2dGradW { kernel: pair(kernel), stride: pair(stride), pad: pair(pad) }
    }
}

/// Max pooling as an operation, with the winners of its last forward pass.
#[derive(Debug)]
pub struct Pooling {
    pub kernel: (usize, usize),
    pub stride: (usize, usize),
    pub pad: (usize, usize),
    pub winners: Vec<usize>,
}

impl Pooling {
    pub fn new<K: Into<Pair>, S: Into<Pair>, P: Into<Pair>>(
        kernel: K,
        stride: S,
        pad: P,
    ) -> (r: Pooling)
        requires
            forall|k: (usize, usize)| #[trigger] spells(kernel, k) ==> k.0 > 0 && k.1 > 0,
        ensures
            spells(kernel, r.kernel),
            spells(stride, r.stride),
            spells(pad, r.pad),
            r.winners@.len() == 0,
    {
        Pooling { kernel: pair(kernel), stride: pair(stride), pad: pair(pad), winners: Vec::new() }
    }
}

/// The gradient of max pooling as an operation on pooled gradients.
#[derive(Debug)]
pub struct Pooling2dGrad {
    pub kernel: (usize, usize),
    pub stride: (usize, usize),
    pub pad: (usize, usize),
    pub input_shape: Vec<usize>,
    pub winners: Vec<usize>,
}

impl Pooling2dGrad {
    pub fn new<K: Into<Pair>, S: Into<Pair>, P: Into<Pair>>(
        kernel: K,
        stride: S,
        pad: P,
        input_shape: &[usize],
        winners: Vec<usize>,
    ) -> (r: Pooling2dGrad)
        ensures
            spells(kernel, r.kernel),
            spells(stride, r.stride),
            spells(pad, r.pad),
            r.input_shape@ == input_shape@,
            r.winners@ == winners@,
    {
        Pooling2dGrad {
            kernel: pair(kernel),
            stride: pair(stride),
            pad: pair(pad),
            input_shape: copy_of(input_shape),
            winners,
        }
    }
}

/// Reading the recorded winners of every window as an operation.
#[derive(Debug)]
pub struct Pooling2dWithIndexes {
    pub kernel: (usize, usize),
    pub stride: (usize, usize),
    pub pad: (usize, usize),
    pub winners: Vec<usize>,
}

impl Pooling2dWithIndexes {
    pub fn new<K: Into<Pair>, S: Into<Pair>, P: Into<Pair>>(
        kernel: K,
        stride: S,
        pad: P,
        winners: Vec<usize>,
    ) -> (r: Pooling2dWithIndexes)
        ensures
            spells(kernel, r.kernel),
            spells(stride, r.stride),
            spells(pad, r.pad),
            r.winners@ == winners@,
    {
        Pooling2dWithIndexes { kernel: pair(kernel), stride: pair(stride), pad: pair(pad), winners }
    }
}

/// Applies the extraction of patches.
pub(crate) fn apply_im2col<T: Scalar, O: Op<T>>(g: &mut Graph<T, O>, op: Im2col, x: &Variable) -> (r:
    Variable)
    requires
        old(g).wf(),
        holds(*old(g), *x),
        patches_fit(held(*old(g), *x).shape, op.kernel, op.stride, op.pad),
    ensures
        applied(
            *old(g),
            *final(g),
            O::embed(
                Rule::Im2col {
                    kernel: op.kernel,
                    stride: op.stride,
                    pad: op.pad,
                    to_matrix: op.to_matrix,
                },
            ),
            seq![*x],
            seq![r],
        ),
        derives(
            *old(g),
            *final(g),
            r,
            im2col_array_spec(held(*old(g), *x), op.kernel, op.stride, op.pad, op.to_matrix),
        ),
{
    apply_unary(g, Builtin::Im2col(op), x)
}

/// The patches of a batch of images.
pub fn im2col<T: Scalar, O: Op<T>, K: Into<Pair>, S: Into<Pair>, P: Into<Pair>>(
    g: &mut Graph<T, O>,
    x: &Variable,
    kernel: K,
    stride: S,
    pad: P,
    to_matrix: bool,
) -> (r: Variable)
    requires
        old(g).wf(),
        holds(*old(g), *x),
        forall|k: (usize, usize), s: (usize, usize), p: (usize, usize)| #[trigger]
            spells(kernel, k) && #[trigger] spells(stride, s) && #[trigger] spells(pad, p)
                ==> patches_fit(held(*old(g), *x).shape, k, s, p),
    ensures
        exists|k: (usize, usize), s: (usize, usize), p: (usize, usize)| #[trigger]
            spells(kernel, k) && #[trigger] spells(stride, s) && #[trigger] spells(pad, p)
                && applied(
                *old(g),
                *final(g),
                O::embed(Rule::Im2col { kernel: k, stride: s, pad: p, to_matrix }),
                seq![*x],
                seq![r],
            ) && derives(
                *old(g),
                *final(g),
                r,
                im2col_array_spec(held(*old(g), *x), k, s, p, to_matrix),
            ),
{
    apply_im2col(g, Im2col::new(kernel, stride, pad, to_matrix), x)
}

/// Applies the folding of patches.
pub(crate) fn apply_col2im<T: Scalar, O: Op<T>>(g: &mut Graph<T, O>, op: Col2im, x: &Variable) -> (r:
    Variable)
    requires
        old(g).wf(),
        holds(*old(g), *x),
        patches_fit(op.input_shape@, op.kernel, op.stride, op.pad),
        held(*old(g), *x).shape == col_shape(
            op.input_shape@,
            op.kernel,
            op.stride,
            op.pad,
            op.to_matrix,
        ),
    ensures
        applied(
            *old(g),
            *final(g),
            O::embed(
                Rule::Col2im {
                    input_shape: op.input_shape@,
                    kernel: op.kernel,
                    stride: op.stride,
                    pad: op.pad,
                    to_matrix: op.to_matrix,
                },
            ),
            seq![*x],
            seq![r],
        ),
        derives(
            *old(g),
            *final(g),
            r,
            col2im_array_spec(
                held(*old(g), *x),
                op.input_shape@,
                op.kernel,
                op.stride,
                op.pad,
                op.to_matrix,
            ),
        ),
{
    apply_unary(g, Builtin::Col2im(op), x)
}

/// The images that patches fold back into.
pub fn col2im<T: Scalar, O: Op<T>, K: Into<Pair>, S: Into<Pair>, P: Into<Pair>>(
    g: &mut Graph<T, O>,
    x: &Variable,
    input_shape: &[usize],
    kernel: K,
    stride: S,
    pad: P,
    to_matrix: bool,
) -> (r: Variable)
    requires
        old(g).wf(),
        holds(*old(g), *x),
        forall|k: (usize, usize), s: (usize, usize), p: (usize, usize)| #[trigger]
            spells(kernel, k) && #[trigger] spells(stride, s) && #[trigger] spells(pad, p)
                ==> patches_fit(input_shape@, k, s, p) && held(*old(g), *x).shape == col_shape(
                input_shape@,
                k,
                s,
                p,
                to_matrix,
            ),
    ensures
        exists|k: (usize, usize), s: (usize, usize), p: (usize, usize)| #[trigger]
            spells(kernel, k) && #[trigger] spells(stride, s) && #[trigger] spells(pad, p)
                && applied(
                *old(g),
                *final(g),
                O::embed(
                    Rule::Col2im {
                        input_shape: input_shape@,
                        kernel: k,
                        stride: s,
                        pad: p,
                        to_matrix,
                    },
                ),
                seq![*x],
                seq![r],
            ) && derives(
                *old(g),
                *final(g),
                r,
                col2im_array_spec(held(*old(g), *x), input_shape@, k, s, p, to_matrix),
            ),
{
    apply_col2im(g, Col2im::new(input_shape, kernel, stride, pad, to_matrix), x)
}

/// The array that an optional variable holds.
pub open spec fn held_option<T, O>(g: Graph<T, O>, b: Option<&Variable>) -> Option<Array<T>> {
    match b {
        Some(b) => Some(held(g, *b)),
        None => None,
    }
}

/// Applies a convolution.
pub(crate) fn apply_conv<T: Scalar, O: Op<T>>(
    g: &mut Graph<T, O>,
    op: Conv2d,
    x: &Variable,
    w: &Variable,
    b: Option<&Variable>,
) -> (r: Variable)
    requires
        old(g).wf(),
        holds(*old(g), *x),
        holds(*old(g), *w),
        b matches Some(b) ==> holds(*old(g), *b),
        conv2d_fits(
            held(*old(g), *x).shape,
            held(*old(g), *w).shape,
            shape_of(held_option(*old(g), b)),
            op.stride,
            op.pad,
        ),
    ensures
        applied(
            *old(g),
            *final(g),
            O::embed(Rule::Conv2d { stride: op.stride, pad: op.pad }),
            operands(*x, *w, b),
            seq![r],
        ),
        derives(
            *old(g),
            *final(g),
            r,
            conv2d_spec(
                held(*old(g), *x),
                held(*old(g), *w),
                held_option(*old(g), b),
                op.stride,
                op.pad,
            ),
        ),
        is_convolved(
            held(*final(g), r),
            held(*old(g), *x),
            held(*old(g), *w),
            held_option(*old(g), b),
            op.stride,
            op.pad,
        ),
{
    proof {
        assert(g.node_ok(x.id as int) && g.node_ok(w.id as int));
        if let Some(b) = b {
            assert(g.node_ok(b.id as int));
        }
        convolving_weighs_windows(
            held(*g, *x),
            held(*g, *w),
            held_option(*g, b),
            op.stride,
            op.pad,
        );
    }
    apply_biased(g, Builtin::Conv2d(op), x, w, b)
}

/// The convolution of images with filters, plus an optional bias.
pub fn conv2d<T: Scalar, O: Op<T>, S: Into<Pair>, P: Into<Pair>>(
    g: &mut Graph<T, O>,
    x: &Variable,
    w: &Variable,
    b: Option<&Variable>,
    stride: S,
    pad: P,
) -> (r: Variable)
    requires
        old(g).wf(),
        holds(*old(g), *x),
        holds(*old(g), *w),
        b matches Some(b) ==> holds(*old(g), *b),
        forall|s: (usize, usize), p: (usize, usize)| #[trigger]
            spells(stride, s) && #[trigger] spells(pad, p) ==> conv2d_fits(
                held(*old(g), *x).shape,
                held(*old(g), *w).shape,
                shape_of(held_option(*old(g), b)),
                s,
                p,
            ),
    ensures
        exists|s: (usize, usize), p: (usize, usize)| #[trigger]
            spells(stride, s) && #[trigger] spells(pad, p) && applied(
                *old(g),
                *final(g),
                O::embed(Rule::Conv2d { stride: s, pad: p }),
                operands(*x, *w, b),
                seq![r],
            ) && derives(
                *old(g),
                *final(g),
                r,
                conv2d_spec(
                    held(*old(g), *x),
                    held(*old(g), *w),
                    held_option(*old(g), b),
                    s,
                    p,
                ),
            ) && is_convolved(
                held(*final(g), r),
                held(*old(g), *x),
                held(*old(g), *w),
                held_option(*old(g), b),
                s,
                p,
            ),
{
    apply_conv(g, Conv2d::new(stride, pad), x, w, b)
}

/// Applies a transposed convolution.
pub(crate) fn apply_deconv<T: Scalar, O: Op<T>>(
    g: &mut Graph<T, O>,
    op: Deconv2d,
    x: &Variable,
    w: &Variable,
    b: Option<&Variable>,
) -> (r: Variable)
    requires
        old(g).wf(),
        holds(*old(g), *x),
        holds(*old(g), *w),
        b matches Some(b) ==> holds(*old(g), *b),
        deconv2d_fits(
            held(*old(g), *x).shape,
            held(*old(g), *w).shape,
            shape_of(held_option(*old(g), b)),
            op.stride,
            op.pad,
            op.outsize,
        ),
    ensures
        applied(
            *old(g),
            *final(g),
            O::embed(Rule::Deconv2d { stride: op.stride, pad: op.pad, outsize: op.outsize }),
            operands(*x, *w, b),
            seq![r],
        ),
        derives(
            *old(g),
            *final(g),
            r,
            deconv2d_spec(
                held(*old(g), *x),
                held(*old(g), *w),
                held_option(*old(g), b),
                op.stride,
                op.pad,
                op.outsize,
            ),
        ),
{
    apply_biased(g, Builtin::Deconv2d(op), x, w, b)
}

/// The transposed convolution of images with filters, plus an optional bias.
pub fn deconv2d<T: Scalar, O: Op<T>, S: Into<Pair>, P: Into<Pair>>(
    g: &mut Graph<T, O>,
    x: &Variable,
    w: &Variable,
    b: Option<&Variable>,
    stride: S,
    pad: P,
) -> (r: Variable)
    requires
        old(g).wf(),
        holds(*old(g), *x),
        holds(*old(g), *w),
        b matches Some(b) ==> holds(*old(g), *b),
        forall|s: (usize, usize), p: (usize, usize)| #[trigger]
            spells(stride, s) && #[trigger] spells(pad, p) ==> deconv2d_fits(
                held(*old(g), *x).shape,
                held(*old(g), *w).shape,
                shape_of(held_option(*old(g), b)),
                s,
                p,
                None,
            ),
    ensures
        exists|s: (usize, usize), p: (usize, usize)| #[trigger]
            spells(stride, s) && #[trigger] spells(pad, p) && applied(
                *old(g),
                *final(g),
                O::embed(Rule::Deconv2d { stride: s, pad: p, outsize: None }),
                operands(*x, *w, b),
                seq![r],
            ) && derives(
                *old(g),
                *final(g),
                r,
                deconv2d_spec(
                    held(*old(g), *x),
                    held(*old(g), *w),
                    held_option(*old(g), b),
                    s,
                    p,
                    None,
                ),
            ),
{
    apply_deconv(g, Deconv2d::new(stride, pad), x, w, b)
}

/// The transposed convolution with a prescribed output size.
pub fn deconv2d_with_outsize<T: Scalar, O: Op<T>, S: Into<Pair>, P: Into<Pair>, Z: Into<Pair>>(
    g: &mut Graph<T, O>,
    x: &Variable,
    w: &Variable,
    b: Option<&Variable>,
    stride: S,
    pad: P,
    outsize: Z,
) -> (r: Variable)
    requires
        old(g).wf(),
        holds(*old(g), *x),
        holds(*old(g), *w),
        b matches Some(b) ==> holds(*old(g), *b),
        forall|s: (usize, usize), p: (usize, usize), z: (usize, usize)| #[trigger]
            spells(stride, s) && #[trigger] spells(pad, p) && #[trigger] spells(outsize, z)
                ==> deconv2d_fits(
                held(*old(g), *x).shape,
                held(*old(g), *w).shape,
                shape_of(held_option(*old(g), b)),
                s,
                p,
                Some(z),
            ),
    ensures
        exists|s: (usize, usize), p: (usize, usize), z: (usize, usize)| #[trigger]
            spells(stride, s) && #[trigger] spells(pad, p) && #[trigger] spells(outsize, z)
                && applied(
                *old(g),
                *final(g),
                O::embed(Rule::Deconv2d { stride: s, pad: p, outsize: Some(z) }),
                operands(*x, *w, b),
                seq![r],
            ) && derives(
                *old(g),
                *final(g),
                r,
                deconv2d_spec(
                    held(*old(g), *x),
                    held(*old(g), *w),
                    held_option(*old(g), b),
                    s,
                    p,
                    Some(z),
                ),
            ),
{
    let op = Deconv2d::with_outsize(stride, pad, outsize);
    assert(spells(outsize, op.outsize->0));
    apply_deconv(g, op, x, w, b)
}

/// Applies a pooling.
pub(crate) fn apply_pooling<T: Scalar, O: Op<T>>(g: &mut Graph<T, O>, op: Pooling, x: &Variable) -> (r:
    Variable)
    requires
        old(g).wf(),
        holds(*old(g), *x),
        op.kernel.0 > 0,
        op.kernel.1 > 0,
        pooling_fits(held(*old(g), *x).shape, op.kernel, op.stride, op.pad),
    ensures
        applied(
            *old(g),
            *final(g),
            O::embed(
                Rule::Pooling {
                    kernel: op.kernel,
                    stride: op.stride,
                    pad: op.pad,
                    winners: op.winners@,
                },
            ),
            seq![*x],
            seq![r],
        ),
        derives(
            *old(g),
            *final(g),
            r,
            pooling_spec(held(*old(g), *x), op.kernel, op.stride, op.pad),
        ),
        is_pooled(held(*final(g), r), held(*old(g), *x), op.kernel, op.stride, op.pad),
{
    proof {
        assert(g.node_ok(x.id as int));
        pooling_picks_the_greatest(held(*g, *x), op.kernel, op.stride, op.pad);
    }
    apply_unary(g, Builtin::Pooling(op), x)
}

/// The greatest element of every window.
pub fn pooling<T: Scalar, O: Op<T>, K: Into<Pair>, S: Into<Pair>, P: Into<Pair>>(
    g: &mut Graph<T, O>,
    x: &Variable,
    kernel: K,
    stride: S,
    pad: P,
) -> (r: Variable)
    requires
        old(g).wf(),
        holds(*old(g), *x),
        forall|k: (usize, usize)| #[trigger] spells(kernel, k) ==> k.0 > 0 && k.1 > 0,
        forall|k: (usize, usize), s: (usize, usize), p: (usize, usize)| #[trigger]
            spells(kernel, k) && #[trigger] spells(stride, s) && #[trigger] spells(pad, p)
                ==> pooling_fits(held(*old(g), *x).shape, k, s, p),
    ensures
        exists|k: (usize, usize), s: (usize, usize), p: (usize, usize)| #[trigger]
            spells(kernel, k) && #[trigger] spells(stride, s) && #[trigger] spells(pad, p)
                && applied(
                *old(g),
                *final(g),
                O::embed(
                    Rule::Pooling { kernel: k, stride: s, pad: p, winners: Seq::empty() },
                ),
                seq![*x],
                seq![r],
            ) && derives(*old(g), *final(g), r, pooling_spec(held(*old(g), *x), k, s, p))
                && is_pooled(held(*final(g), r), held(*old(g), *x), k, s, p),
{
    let op = Pooling::new(kernel, stride, pad);
    proof {
        assert(op.winners@ =~= Seq::<usize>::empty());
    }
    apply_pooling(g, op, x)
}

} // verus!
