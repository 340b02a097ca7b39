//! Whether an operation can be applied to arrays of given shapes.

use vstd::prelude::*;

use crate::engine::elementwise::zips;
use crate::functions::conv::{
    conv2d_fits, deconv2d_fits, deconv2d_shape, deconv_size_fits, pooled_shape, pooling_fits,
};
use crate::functions::matmul::{linear_fits, multiplies};
use crate::functions::reduce::{
    axes_fit, lemma_shapes_by_membership, listed, sum_fits, summed_shapes, Axes,
};
use crate::index::{checked_volume, volume};
use crate::utils::conv::{conv_outsize, get_deconv_outsize, patches_fit, patches_spec, window_fits};
use crate::utils::shape::{broadcast_shape, broadcasts_to, resolved_axes, resolved_axis, valid_axis};

verus! {

/// The shape of an optional operand.
pub open spec fn shape_view(b: Option<&[usize]>) -> Option<Seq<usize>> {
    match b {
        Some(b) => Some(b@),
        None => None,
    }
}

/// Whether an array of shape `from` spreads over `to`.
pub fn spreads(from: &[usize], to: &[usize]) -> (r: bool)
    ensures
        r == broadcasts_to(from@, to@),
{
    let (n, rank): (usize, usize) = (from.len(), to.len());
    if n > rank {
        return false;
    }
    let lead: usize = rank - n;
    let mut i: usize = 0;
    while i < n
        invariant
            i <= n,
            n == from@.len(),
            rank == to@.len(),
            n <= rank,
            lead == rank - n,
            forall|j: int|
                0 <= j < i ==> #[trigger] from@[j] == 1 || from@[j] == to@[j + to@.len()
                    - from@.len()],
        decreases n - i,
    {
        if from[i] != 1 && from[i] != to[i + lead] {
            assert(from@[i as int] != to@[i + to@.len() - from@.len()]);
            return false;
        }
        i = i + 1;
    }
    true
}

/// Whether two arrays can be combined element by element.
pub fn can_zip(a: &[usize], b: &[usize]) -> (r: bool)
    ensures
        r == zips(a@, b@),
{
    match broadcast_shape(a, b) {
        Some(shape) => checked_volume(shape.as_slice()).is_some(),
        None => false,
    }
}

/// Whether an array can be broadcast to a shape.
pub fn can_broadcast_to(from: &[usize], to: &[usize]) -> (r: bool)
    ensures
        r == (broadcasts_to(from@, to@) && volume(to@) <= usize::MAX),
{
    spreads(from, to) && checked_volume(to).is_some()
}

/// Whether an array can be summed down to a shape.
pub fn can_sum_to(from: &[usize], to: &[usize]) -> (r: bool)
    ensures
        r == (broadcasts_to(to@, from@) && volume(to@) <= usize::MAX),
{
    spreads(to, from) && checked_volume(to).is_some()
}

/// Whether an array can take another shape.
pub fn can_reshape(from: &[usize], to: &[usize]) -> (r: bool)
    requires
        volume(from@) <= usize::MAX,
    ensures
        r == (volume(to@) == volume(from@)),
{
    match (checked_volume(from), checked_volume(to)) {
        (Some(a), Some(b)) => a == b,
        _ => false,
    }
}

/// Whether axes exist and none is listed twice.
fn axes_exist(axes: &[isize], ndim: usize) -> (r: bool)
    requires
        ndim <= isize::MAX,
    ensures
        r == axes_fit(Some(axes@), ndim as nat),
{
    let n: usize = axes.len();
    let ghost resolved = resolved_axes(axes@, ndim as nat);
    let mut i: usize = 0;
    while i < n
        invariant
            i <= n,
            n == axes@.len(),
            ndim <= isize::MAX,
            resolved == resolved_axes(axes@, ndim as nat),
            forall|j: int| 0 <= j < i ==> valid_axis(#[trigger] axes@[j], ndim as nat),
            forall|j: int, k: int|
                0 <= j < k < i ==> #[trigger] resolved[j] != #[trigger] resolved[k],
        decreases n - i,
    {
        let a: isize = axes[i];
        if a >= ndim as isize || a < -(ndim as isize) {
            assert(!valid_axis(axes@[i as int], ndim as nat));
            return false;
        }
        let at: isize = if a < 0 {
            a + ndim as isize
        } else {
            a
        };
        let mut k: usize = 0;
        while k < i
            invariant
                k <= i < n,
                n == axes@.len(),
                ndim <= isize::MAX,
                resolved == resolved_axes(axes@, ndim as nat),
                a == axes@[i as int],
                valid_axis(a, ndim as nat),
                at == resolved_axis(a, ndim as nat),
                forall|j: int| 0 <= j < i ==> valid_axis(#[trigger] axes@[j], ndim as nat),
                forall|j: int| 0 <= j < k ==> #[trigger] resolved[j] != resolved[i as int],
            decreases i - k,
        {
            let b: isize = axes[k];
            assert(valid_axis(axes@[k as int], ndim as nat));
            let other: isize = if b < 0 {
                b + ndim as isize
            } else {
                b
            };
            assert(0 <= at < ndim && 0 <= other < ndim);
            assert(resolved[k as int] == other as usize && resolved[i as int] == at as usize);
            if other == at {
                assert(resolved[k as int] == resolved[i as int]);
                return false;
            }
            k = k + 1;
        }
        i = i + 1;
    }
    true
}

/// Whether an array can be summed over axes.
pub fn can_sum(shape: &[usize], axes: &Axes) -> (r: bool)
    requires
        shape@.len() <= isize::MAX,
    ensures
        r == sum_fits(shape@, axes@),
{
    let fit: bool = match axes {
        Axes::All => true,
        Axes::Only(list) => axes_exist(list.as_slice(), shape.len()),
    };
    if !fit {
        return false;
    }
    let resolved = axes.resolve(shape.len());
    let (kept, _dropped) = summed_shapes(shape, &resolved);
    proof {
        lemma_shapes_by_membership(shape@, resolved@, listed(axes@, shape@.len()));
    }
    checked_volume(kept.as_slice()).is_some()
}

/// Whether two arrays are matrices that can be multiplied.
pub fn can_multiply(a: &[usize], b: &[usize]) -> (r: bool)
    ensures
        r == multiplies(a@, b@),
{
    if a.len() != 2 || b.len() != 2 || a[1] != b[0] {
        return false;
    }
    let (m, n): (usize, usize) = (a[0], b[1]);
    m.checked_mul(n).is_some()
}

/// Whether an input, weights and a bias fit together.
pub fn can_map_linearly(x: &[usize], w: &[usize], b: Option<&[usize]>) -> (r: bool)
    ensures
        r == linear_fits(x@, w@, shape_view(b)),
{
    if !can_multiply(x, w) {
        return false;
    }
    match b {
        Some(b) => {
            let out: [usize; 2] = [x[0], w[1]];
            assert(out@ =~= seq![x@[0], w@[1]]);
            spreads(b, out.as_slice())
        },
        None => true,
    }
}

/// How many windows fit along an axis, where any does and they can be counted.
pub fn window_count(input: usize, kernel: usize, stride: usize, pad: usize) -> (r: Option<usize>)
    ensures
        r is Some <==> window_fits(input, kernel, stride, pad) && conv_outsize(
            input as int,
            kernel as int,
            stride as int,
            pad as int,
        ) <= usize::MAX,
        r matches Some(n) ==> n == conv_outsize(
            input as int,
            kernel as int,
            stride as int,
            pad as int,
        ),
{
    let margin: usize = match pad.checked_mul(2) {
        Some(m) => m,
        None => return None,
    };
    let padded: usize = match input.checked_add(margin) {
        Some(p) => p,
        None => return None,
    };
    if stride == 0 || kernel > padded {
        return None;
    }
    let steps: usize = (padded - kernel) / stride;
    steps.checked_add(1)
}

/// Three lengths multiplied, where the products can be counted.
fn product3(a: usize, b: usize, c: usize) -> (r: Option<usize>)
    ensures
        r is Some <==> a * b <= usize::MAX && (a as nat) * (b as nat) * (c as nat) <= usize::MAX,
        r matches Some(n) ==> n == (a as nat) * (b as nat) * (c as nat),
{
    match a.checked_mul(b) {
        Some(ab) => ab.checked_mul(c),
        None => None,
    }
}

/// Whether windows can slide over images.
pub fn can_cut(
    img: &[usize],
    kernel: (usize, usize),
    stride: (usize, usize),
    pad: (usize, usize),
) -> (r: bool)
    ensures
        r == patches_fit(img@, kernel, stride, pad),
{
    if img.len() != 4 {
        return false;
    }
    let h: usize = match window_count(img[2], kernel.0, stride.0, pad.0) {
        Some(h) => h,
        None => return false,
    };
    let w: usize = match window_count(img[3], kernel.1, stride.1, pad.1) {
        Some(w) => w,
        None => return false,
    };
    proof {
        assert(img@ =~= seq![img@[0], img@[1], img@[2], img@[3]]);
    }
    if checked_volume(img).is_none() {
        return false;
    }
    match (product3(img[0], h, w), product3(img[1], kernel.0, kernel.1)) {
        (Some(rows), Some(columns)) => rows.checked_mul(columns).is_some(),
        _ => false,
    }
}

/// Whether images, filters and a bias can be convolved.
pub fn can_convolve(
    x: &[usize],
    w: &[usize],
    b: Option<&[usize]>,
    stride: (usize, usize),
    pad: (usize, usize),
) -> (r: bool)
    ensures
        r == conv2d_fits(x@, w@, shape_view(b), stride, pad),
{
    if x.len() != 4 || w.len() != 4 || w[1] != x[1] || !can_cut(x, (w[2], w[3]), stride, pad) {
        return false;
    }
    let ghost p = patches_spec(x@, (w@[2], w@[3]), stride, pad);
    let counts = (
        window_count(x[2], w[2], stride.0, pad.0),
        window_count(x[3], w[3], stride.1, pad.1),
    );
    let (h, v): (usize, usize) = match counts {
        (Some(h), Some(v)) => (h, v),
        _ => return false,
    };
    match (product3(x[0], h, v), product3(x[1], w[2], w[3])) {
        (Some(rows), Some(columns)) => {
            assert(rows == p.rows_spec() && columns == p.columns_spec());
            let o: usize = w[0];
            if rows.checked_mul(o).is_none() || o.checked_mul(columns).is_none() {
                return false;
            }
            match b {
                Some(b) => {
                    let out: [usize; 2] = [rows, o];
                    assert(out@ =~= seq![p.rows_spec() as usize, w@[0]]);
                    spreads(b, out.as_slice())
                },
                None => true,
            }
        },
        _ => false,
    }
}

/// Whether the size of a transposed convolution can be computed.
fn can_size(size: usize, kernel: usize, stride: usize, pad: usize) -> (r: bool)
    ensures
        r == deconv_size_fits(size, kernel, stride, pad),
{
    if size == 0 {
        return false;
    }
    proof {
        assert(0 <= stride * (size - 1)) by (nonlinear_arith)
            requires
                size > 0,
        ;
    }
    let span: usize = match stride.checked_mul(size - 1) {
        Some(s) => match s.checked_add(kernel) {
            Some(span) => span,
            None => return false,
        },
        None => return false,
    };
    match pad.checked_mul(2) {
        Some(margin) => margin <= span,
        None => false,
    }
}

/// Whether images, filters and a bias have a transposed convolution.
pub fn can_convolve_back(
    x: &[usize],
    w: &[usize],
    b: Option<&[usize]>,
    stride: (usize, usize),
    pad: (usize, usize),
    outsize: Option<(usize, usize)>,
) -> (r: bool)
    ensures
        r == deconv2d_fits(x@, w@, shape_view(b), stride, pad, outsize),
{
    if x.len() != 4 || w.len() != 4 || w[0] != x[1] {
        return false;
    }
    let (h, v): (usize, usize) = match outsize {
        Some(size) => size,
        None => {
            if !can_size(x[2], w[2], stride.0, pad.0) || !can_size(x[3], w[3], stride.1, pad.1) {
                return false;
            }
            (
                get_deconv_outsize(x[2], w[2], stride.0, pad.0),
                get_deconv_outsize(x[3], w[3], stride.1, pad.1),
            )
        },
    };
    let out: [usize; 4] = [x[0], w[1], h, v];
    assert(out@ =~= deconv2d_shape(x@, w@, stride, pad, outsize));
    if !can_cut(out.as_slice(), (w[2], w[3]), stride, pad) {
        return false;
    }
    let ghost p = patches_spec(out@, (w@[2], w@[3]), stride, pad);
    let counts = (
        window_count(h, w[2], stride.0, pad.0),
        window_count(v, w[3], stride.1, pad.1),
    );
    let (rows_of, columns_of): (usize, usize) = match counts {
        (Some(a), Some(c)) => (a, c),
        _ => return false,
    };
    let fits: bool = match (
        product3(x[0], rows_of, columns_of),
        product3(w[1], w[2], w[3]),
        product3(x[0], x[2], x[3]),
    ) {
        (Some(rows), Some(columns), Some(pixels)) => {
            let n: usize = x[1];
            rows == pixels && n.checked_mul(columns).is_some()
        },
        _ => false,
    };
    if !fits {
        return false;
    }
    match b {
        Some(b) => match checked_volume(b) {
            Some(n) => n == w[1],
            None => false,
        },
        None => true,
    }
}

/// Whether windows can be pooled over images.
pub fn can_pool(
    x: &[usize],
    kernel: (usize, usize),
    stride: (usize, usize),
    pad: (usize, usize),
) -> (r: bool)
    ensures
        r == (kernel.0 > 0 && kernel.1 > 0 && pooling_fits(x@, kernel, stride, pad)),
{
    let (kh, kw): (usize, usize) = kernel;
    if kh == 0 || kw == 0 || !can_cut(x, kernel, stride, pad) {
        return false;
    }
    if kh.checked_mul(kw).is_none() {
        return false;
    }
    let counts = (
        window_count(x[2], kernel.0, stride.0, pad.0),
        window_count(x[3], kernel.1, stride.1, pad.1),
    );
    match counts {
        (Some(h), Some(v)) => {
            let out: [usize; 4] = [x[0], x[1], h, v];
            assert(out@ =~= pooled_shape(patches_spec(x@, kernel, stride, pad)));
            checked_volume(out.as_slice()).is_some()
        },
        _ => false,
    }
}

} // verus!
