//! The array-level plumbing that convolution is built from.
//!
//! [`Patches`] holds the geometry of a sliding window over a batch of images. Its
//! index map ties every entry of the patch matrix to the pixel it is a copy of, and
//! entries that fall in the padding to none. Extracting patches gathers through
//! that map, and folding them back scatters through the same map, so the two are
//! adjoint by construction.
use crate::index::{
    in_bounds, lemma_offset_bound, lemma_unravel, lemma_unravel_offset, offset, ravel, to_int,
    unravel, unravel_index, volume,
};
use crate::remap::{
    dot, gather, gather_through, lemma_visits_none, lemma_visits_once, maps_into, repeated,
    scatter, scatter_is_adjoint_to_gather, scatter_through, scattering_back_counts_the_visits,
    visits,
};
use crate::scalar::{Ring, Scalar};
use crate::tensor::{
    is_permutation, permute_spec, permuted, permuting_back_is_the_identity, reshape_spec, same,
    Array, Tensor,
};
use vstd::arithmetic::div_mod::*;
use vstd::prelude::*;
use vstd::std_specs::convert::FromSpecImpl;

verus! {

// ---------------------------------------------------------------------------
// pairs
// ---------------------------------------------------------------------------
/// A height and a width: a kernel size, a stride or a padding.
#[derive(Debug, Clone, Copy, PartialEq, Eq, Hash, Structural)]
pub struct Pair {
    pub height: usize,
    pub width: usize,
}

impl Pair {
    pub fn new(height: usize, width: usize) -> (r: Pair)
        ensures
            r == (Pair { height, width }),
    {
        Pair { height, width }
    }

    pub fn as_tuple(self) -> (r: (usize, usize))
        ensures
            r == (self.height, self.width),
    {
        (self.height, self.width)
    }
}

impl From<usize> for Pair {
    fn from(value: usize) -> (r: Pair) {
        Pair { height: value, width: value }
    }
}

impl FromSpecImpl<usize> for Pair {
    open spec fn obeys_from_spec() -> bool {
        true
    }

    open spec fn from_spec(value: usize) -> Pair {
        Pair { height: value, width: value }
    }
}

impl FromSpecImpl<(usize, usize)> for Pair {
    open spec fn obeys_from_spec() -> bool {
        true
    }

    open spec fn from_spec(value: (usize, usize)) -> Pair {
        Pair { height: value.0, width: value.1 }
    }
}

impl From<(usize, usize)> for Pair {
    fn from(value: (usize, usize)) -> (r: Pair) {
        Pair { height: value.0, width: value.1 }
    }
}

impl From<[usize; 2]> for Pair {
    fn from(value: [usize; 2]) -> (r: Pair) {
        Pair { height: value[0], width: value[1] }
    }
}

impl FromSpecImpl<[usize; 2]> for Pair {
    open spec fn obeys_from_spec() -> bool {
        true
    }

    open spec fn from_spec(value: [usize; 2]) -> Pair {
        Pair { height: value[0], width: value[1] }
    }
}

impl From<Pair> for (usize, usize) {
    fn from(value: Pair) -> (r: (usize, usize)) {
        (value.height, value.width)
    }
}

impl FromSpecImpl<Pair> for (usize, usize) {
    open spec fn obeys_from_spec() -> bool {
        true
    }

    open spec fn from_spec(value: Pair) -> (usize, usize) {
        (value.height, value.width)
    }
}

/// What std's reflexive conversion does: `From` from a type to itself hands its argument
/// back unchanged.
pub assume_specification<Any>[ <Any as From<Any>>::from ](given: Any) -> (returned: Any)
    ensures
        returned == given,
;

/// Whether a spatial argument stands for this height and width: whether converting it may
/// give them.
pub open spec fn spells<P: Into<Pair>>(value: P, r: (usize, usize)) -> bool {
    exists|p: Pair| #[trigger]
        call_ensures(P::into, (value,), p) && r == (p.height, p.width)
}

/// Normalises a spatial argument to a height and a width.
pub fn pair<P: Into<Pair>>(value: P) -> (r: (usize, usize))
    ensures
        spells(value, r),
{
    let p: Pair = value.into();
    p.as_tuple()
}

/// A number stands for itself both ways.
pub proof fn a_number_spells_both_sides(n: usize, r: (usize, usize))
    requires
        spells(n, r),
    ensures
        r == (n, n),
{
}

/// Two numbers stand for the height and the width.
pub proof fn a_tuple_spells_its_sides(t: (usize, usize), r: (usize, usize))
    requires
        spells(t, r),
    ensures
        r == t,
{
}

/// So do the two numbers of an array.
pub proof fn an_array_spells_its_sides(a: [usize; 2], r: (usize, usize))
    requires
        spells(a, r),
    ensures
        r == (a[0], a[1]),
{
}

/// A pair stands for its own height and width.
pub proof fn a_pair_spells_its_sides(p: Pair, r: (usize, usize))
    requires
        spells(p, r),
    ensures
        r == (p.height, p.width),
{
}

// ---------------------------------------------------------------------------
// output sizes
// ---------------------------------------------------------------------------
/// How many windows of `kernel` elements, `stride` apart, fit an axis of `input`
/// elements with `pad` more on either side.
pub open spec fn conv_outsize(input: int, kernel: int, stride: int, pad: int) -> int {
    (input + 2 * pad - kernel) / stride + 1
}

/// The length of the axis that `size` windows of `kernel` elements, `stride` apart,
/// span once `pad` elements are cut off either side.
pub open spec fn deconv_outsize(size: int, kernel: int, stride: int, pad: int) -> int {
    stride * (size - 1) + kernel - 2 * pad
}

/// Whether a window fits the padded axis at all.
pub open spec fn window_fits(input: usize, kernel: usize, stride: usize, pad: usize) -> bool {
    &&& stride > 0
    &&& kernel <= input + 2 * pad <= usize::MAX
}

pub fn get_conv_outsize(input_size: usize, kernel_size: usize, stride: usize, pad: usize) -> (r:
    usize)
    requires
        window_fits(input_size, kernel_size, stride, pad),
        conv_outsize(input_size as int, kernel_size as int, stride as int, pad as int)
            <= usize::MAX,
    ensures
        r == conv_outsize(input_size as int, kernel_size as int, stride as int, pad as int),
{
    let padded: usize = input_size + 2 * pad;
    (padded - kernel_size) / stride + 1
}

pub fn get_deconv_outsize(size: usize, kernel_size: usize, stride: usize, pad: usize) -> (r: usize)
    requires
        size > 0,
        2 * pad <= stride * (size - 1) + kernel_size <= usize::MAX,
    ensures
        r == deconv_outsize(size as int, kernel_size as int, stride as int, pad as int),
{
    proof {
        assert(0 <= stride * (size - 1)) by (nonlinear_arith)
            requires
                size > 0,
        ;
    }
    let span: usize = stride * (size - 1) + kernel_size;
    span - 2 * pad
}

/// The window fits as many times as the output size says, and not once more.
pub proof fn conv_outsize_counts_the_windows_that_fit(
    input: int,
    kernel: int,
    stride: int,
    pad: int,
)
    requires
        stride > 0,
        0 <= kernel <= input + 2 * pad,
    ensures
        conv_outsize(input, kernel, stride, pad) >= 1,
        stride * (conv_outsize(input, kernel, stride, pad) - 1) + kernel <= input + 2 * pad,
        stride * conv_outsize(input, kernel, stride, pad) + kernel > input + 2 * pad,
{
    let room = input + 2 * pad - kernel;
    lemma_fundamental_div_mod(room, stride);
    lemma_mod_bound(room, stride);
    lemma_div_pos_is_pos(room, stride);
    let q = room / stride;
    assert(stride * (q + 1) == stride * q + stride) by (nonlinear_arith);
}

/// The transposed size gives back the size that a convolution consumed whenever
/// the last window ended at the last element.
pub proof fn deconv_outsize_inverts_conv_outsize(input: int, kernel: int, stride: int, pad: int)
    requires
        stride > 0,
        0 <= kernel <= input + 2 * pad,
        (input + 2 * pad - kernel) % stride == 0,
    ensures
        deconv_outsize(conv_outsize(input, kernel, stride, pad), kernel, stride, pad) == input,
{
    let room = input + 2 * pad - kernel;
    lemma_fundamental_div_mod(room, stride);
}

// ---------------------------------------------------------------------------
// the patch geometry
// ---------------------------------------------------------------------------
/// Where every patch element of a batch of images comes from.
#[derive(Debug, Clone, Copy, PartialEq, Eq, Structural)]
pub struct Patches {
    pub batch: usize,
    pub channels: usize,
    pub height: usize,
    pub width: usize,
    pub kernel_h: usize,
    pub kernel_w: usize,
    pub stride_h: usize,
    pub stride_w: usize,
    pub pad_h: usize,
    pub pad_w: usize,
    pub out_h: usize,
    pub out_w: usize,
}

/// The geometry of a window sliding over images of shape `img`.
pub open spec fn patches_spec(
    img: Seq<usize>,
    kernel: (usize, usize),
    stride: (usize, usize),
    pad: (usize, usize),
) -> Patches {
    Patches {
        batch: img[0],
        channels: img[1],
        height: img[2],
        width: img[3],
        kernel_h: kernel.0,
        kernel_w: kernel.1,
        stride_h: stride.0,
        stride_w: stride.1,
        pad_h: pad.0,
        pad_w: pad.1,
        out_h: conv_outsize(img[2] as int, kernel.0 as int, stride.0 as int, pad.0 as int) as usize,
        out_w: conv_outsize(img[3] as int, kernel.1 as int, stride.1 as int, pad.1 as int) as usize,
    }
}

/// Whether a window can slide over images of shape `img`, and the patches can be
/// counted.
pub open spec fn patches_fit(
    img: Seq<usize>,
    kernel: (usize, usize),
    stride: (usize, usize),
    pad: (usize, usize),
) -> bool {
    &&& img.len() == 4
    &&& window_fits(img[2], kernel.0, stride.0, pad.0)
    &&& window_fits(img[3], kernel.1, stride.1, pad.1)
    &&& conv_outsize(img[2] as int, kernel.0 as int, stride.0 as int, pad.0 as int) <= usize::MAX
    &&& conv_outsize(img[3] as int, kernel.1 as int, stride.1 as int, pad.1 as int) <= usize::MAX
    &&& patches_spec(img, kernel, stride, pad).countable()
}

impl Patches {
    pub open spec fn img_shape_spec(self) -> Seq<usize> {
        seq![self.batch, self.channels, self.height, self.width]
    }

    /// Image, output row and column, channel, kernel row and column.
    pub open spec fn window_shape(self) -> Seq<usize> {
        seq![self.batch, self.out_h, self.out_w, self.channels, self.kernel_h, self.kernel_w]
    }

    pub open spec fn rows_spec(self) -> nat {
        (self.batch as nat) * (self.out_h as nat) * (self.out_w as nat)
    }

    pub open spec fn columns_spec(self) -> nat {
        (self.channels as nat) * (self.kernel_h as nat) * (self.kernel_w as nat)
    }

    pub open spec fn matrix_shape_spec(self) -> Seq<usize> {
        seq![self.rows_spec() as usize, self.columns_spec() as usize]
    }

    pub open spec fn tensor_shape_spec(self) -> Seq<usize> {
        seq![self.batch, self.channels, self.kernel_h, self.kernel_w, self.out_h, self.out_w]
    }

    /// The images and the patches hold no more elements than can be counted.
    pub open spec fn countable(self) -> bool {
        &&& volume(self.img_shape_spec()) <= usize::MAX
        &&& self.batch * self.out_h <= usize::MAX
        &&& self.rows_spec() <= usize::MAX
        &&& self.channels * self.kernel_h <= usize::MAX
        &&& self.columns_spec() <= usize::MAX
        &&& self.rows_spec() * self.columns_spec() <= usize::MAX
    }

    pub open spec fn wf(self) -> bool {
        &&& patches_fit(
            self.img_shape_spec(),
            (self.kernel_h, self.kernel_w),
            (self.stride_h, self.stride_w),
            (self.pad_h, self.pad_w),
        )
        &&& self == patches_spec(
            self.img_shape_spec(),
            (self.kernel_h, self.kernel_w),
            (self.stride_h, self.stride_w),
            (self.pad_h, self.pad_w),
        )
    }

    /// The row of the image that kernel row `j` at output row `out_y` falls on,
    /// counted from the top of the image: negative, or past the end, in the padding.
    pub open spec fn image_row(self, out_y: int, j: int) -> int {
        j + self.stride_h * out_y - self.pad_h
    }

    pub open spec fn image_column(self, out_x: int, i: int) -> int {
        i + self.stride_w * out_x - self.pad_w
    }

    /// The pixel that the window entry `w` is a copy of, if it lies in the image.
    pub open spec fn pixel(self, w: Seq<int>) -> Option<Seq<int>> {
        let y = self.image_row(w[1], w[4]);
        let x = self.image_column(w[2], w[5]);
        if 0 <= y < self.height && 0 <= x < self.width {
            Some(seq![w[0], w[3], y, x])
        } else {
            None
        }
    }

    pub open spec fn source(self, k: int) -> Option<usize> {
        match self.pixel(unravel(self.window_shape(), k)) {
            Some(p) => Some(offset(self.img_shape_spec(), p) as usize),
            None => None,
        }
    }

    /// For each entry of the patch matrix, in row-major order, the pixel that it is a
    /// copy of.
    pub open spec fn map(self) -> Seq<Option<usize>> {
        Seq::new(volume(self.window_shape()), |k: int| self.source(k))
    }

    pub fn new(
        img_shape: (usize, usize, usize, usize),
        kernel: (usize, usize),
        stride: (usize, usize),
        pad: (usize, usize),
    ) -> (r: Patches)
        requires
            patches_fit(
                seq![img_shape.0, img_shape.1, img_shape.2, img_shape.3],
                kernel,
                stride,
                pad,
            ),
        ensures
            r.wf(),
            r == patches_spec(
                seq![img_shape.0, img_shape.1, img_shape.2, img_shape.3],
                kernel,
                stride,
                pad,
            ),
    {
        let (batch, channels, height, width) = img_shape;
        let (kernel_h, kernel_w) = kernel;
        let (stride_h, stride_w) = stride;
        let (pad_h, pad_w) = pad;
        Patches {
            batch,
            channels,
            height,
            width,
            kernel_h,
            kernel_w,
            stride_h,
            stride_w,
            pad_h,
            pad_w,
            out_h: get_conv_outsize(height, kernel_h, stride_h, pad_h),
            out_w: get_conv_outsize(width, kernel_w, stride_w, pad_w),
        }
    }

    pub fn out_size(&self) -> (r: (usize, usize))
        ensures
            r == (self.out_h, self.out_w),
    {
        (self.out_h, self.out_w)
    }

    /// One row of the patch matrix per output position.
    pub fn rows(&self) -> (r: usize)
        requires
            self.wf(),
        ensures
            r == self.rows_spec(),
    {
        self.batch * self.out_h * self.out_w
    }

    /// One column of the patch matrix per patch element.
    pub fn columns(&self) -> (r: usize)
        requires
            self.wf(),
        ensures
            r == self.columns_spec(),
    {
        self.channels * self.kernel_h * self.kernel_w
    }

    pub fn matrix_shape(&self) -> (r: (usize, usize))
        requires
            self.wf(),
        ensures
            seq![r.0, r.1] == self.matrix_shape_spec(),
    {
        (self.rows(), self.columns())
    }

    pub fn tensor_shape(&self) -> (r: [usize; 6])
        ensures
            r@ == self.tensor_shape_spec(),
    {
        let r = [
            self.batch,
            self.channels,
            self.kernel_h,
            self.kernel_w,
            self.out_h,
            self.out_w,
        ];
        assert(r@ =~= self.tensor_shape_spec());
        r
    }

    pub fn img_shape(&self) -> (r: (usize, usize, usize, usize))
        ensures
            seq![r.0, r.1, r.2, r.3] == self.img_shape_spec(),
    {
        (self.batch, self.channels, self.height, self.width)
    }

    /// The index map of the extraction.
    pub fn index_map(&self) -> (r: Vec<Option<usize>>)
        requires
            self.wf(),
        ensures
            r@ == self.map(),
            r@.len() == self.rows_spec() * self.columns_spec(),
            maps_into(r@, volume(self.img_shape_spec())),
    {
        let window: [usize; 6] = [
            self.batch,
            self.out_h,
            self.out_w,
            self.channels,
            self.kernel_h,
            self.kernel_w,
        ];
        let image: [usize; 4] = [self.batch, self.channels, self.height, self.width];
        let ghost want = self.map();
        proof {
            self.lemma_window_volume();
            self.lemma_map_into();
            assert(window@ =~= self.window_shape());
            assert(image@ =~= self.img_shape_spec());
        }
        let rows: usize = self.rows();
        let columns: usize = self.columns();
        let total: usize = rows * columns;
        let mut r: Vec<Option<usize>> = Vec::new();
        let mut k: usize = 0;
        while k < total
            invariant
                k <= total,
                self.wf(),
                total == volume(self.window_shape()),
                window@ == self.window_shape(),
                image@ == self.img_shape_spec(),
                want == self.map(),
                r@ == want.take(k as int),
            decreases total - k,
        {
            let w: Vec<usize> = unravel_index(window.as_slice(), k);
            let ghost wi = to_int(w@);
            proof {
                self.lemma_window_entry(wi);
            }
            let padded_y: usize = w[4] + self.stride_h * w[1];
            let padded_x: usize = w[5] + self.stride_w * w[2];
            let entry: Option<usize> = if padded_y < self.pad_h || padded_y - self.pad_h
                >= self.height || padded_x < self.pad_w || padded_x - self.pad_w >= self.width {
                None
            } else {
                let p: [usize; 4] = [w[0], w[3], padded_y - self.pad_h, padded_x - self.pad_w];
                proof {
                    let pi = to_int(p@);
                    assert(pi =~= self.pixel(wi)->0);
                    self.lemma_pixel_in_image(wi);
                }
                Some(ravel(image.as_slice(), p.as_slice()))
            };
            r.push(entry);
            proof {
                assert(entry == self.source(k as int));
                assert(want.take(k + 1) =~= want.take(k as int).push(want[k as int]));
            }
            k = k + 1;
        }
        proof {
            assert(want.take(total as int) =~= want);
        }
        r
    }

    pub proof fn lemma_window_volume(self)
        ensures
            volume(self.window_shape()) == self.rows_spec() * self.columns_spec(),
    {
        lemma_volume6(
            self.batch,
            self.out_h,
            self.out_w,
            self.channels,
            self.kernel_h,
            self.kernel_w,
        );
    }

    /// A window entry lies in the padded image.
    proof fn lemma_window_entry(self, w: Seq<int>)
        requires
            self.wf(),
            in_bounds(self.window_shape(), w),
        ensures
            0 <= self.stride_h * w[1] <= w[4] + self.stride_h * w[1] < self.height + 2 * self.pad_h,
            0 <= self.stride_w * w[2] <= w[5] + self.stride_w * w[2] < self.width + 2 * self.pad_w,
    {
        assert(0 <= w[1] < self.window_shape()[1]);
        assert(0 <= w[2] < self.window_shape()[2]);
        assert(0 <= w[4] < self.window_shape()[4]);
        assert(0 <= w[5] < self.window_shape()[5]);
        conv_outsize_counts_the_windows_that_fit(
            self.height as int,
            self.kernel_h as int,
            self.stride_h as int,
            self.pad_h as int,
        );
        conv_outsize_counts_the_windows_that_fit(
            self.width as int,
            self.kernel_w as int,
            self.stride_w as int,
            self.pad_w as int,
        );
        assert(0 <= self.stride_h * w[1] <= self.stride_h * (self.out_h - 1)) by (nonlinear_arith)
            requires
                0 <= w[1] <= self.out_h - 1,
                self.stride_h > 0,
        ;
        assert(0 <= self.stride_w * w[2] <= self.stride_w * (self.out_w - 1)) by (nonlinear_arith)
            requires
                0 <= w[2] <= self.out_w - 1,
                self.stride_w > 0,
        ;
    }

    proof fn lemma_pixel_in_image(self, w: Seq<int>)
        requires
            in_bounds(self.window_shape(), w),
            self.pixel(w).is_some(),
        ensures
            in_bounds(self.img_shape_spec(), self.pixel(w)->0),
            0 <= offset(self.img_shape_spec(), self.pixel(w)->0) < volume(self.img_shape_spec()),
    {
        assert(0 <= w[0] < self.window_shape()[0]);
        assert(0 <= w[3] < self.window_shape()[3]);
        lemma_offset_bound(self.img_shape_spec(), self.pixel(w)->0);
    }

    pub proof fn lemma_map_into(self)
        requires
            self.wf(),
        ensures
            maps_into(self.map(), volume(self.img_shape_spec())),
    {
        assert forall|k: int| 0 <= k < self.map().len() implies (#[trigger] self.map()[k] matches Some(
            j,
        ) ==> (j as nat) < volume(self.img_shape_spec())) by {
            lemma_unravel(self.window_shape(), k);
            if self.source(k).is_some() {
                self.lemma_pixel_in_image(unravel(self.window_shape(), k));
            }
        }
    }

    /// With windows that do not overlap, two entries never copy the same pixel.
    proof fn lemma_disjoint(self, k: int, l: int)
        requires
            self.wf(),
            self.kernel_h <= self.stride_h,
            self.kernel_w <= self.stride_w,
            0 <= k < volume(self.window_shape()),
            0 <= l < volume(self.window_shape()),
            self.source(k).is_some(),
            self.source(k) == self.source(l),
        ensures
            k == l,
    {
        let s = self.window_shape();
        let img = self.img_shape_spec();
        lemma_unravel(s, k);
        lemma_unravel(s, l);
        let u = unravel(s, k);
        let v = unravel(s, l);
        self.lemma_pixel_in_image(u);
        self.lemma_pixel_in_image(v);
        let p = self.pixel(u)->0;
        let q = self.pixel(v)->0;
        lemma_unravel_offset(img, p);
        lemma_unravel_offset(img, q);
        assert(p == q);
        assert(p[0] == q[0] && p[1] == q[1] && p[2] == q[2] && p[3] == q[3]);
        assert(0 <= u[4] < s[4] && 0 <= v[4] < s[4] && 0 <= u[5] < s[5] && 0 <= v[5] < s[5]);
        lemma_fundamental_div_mod_converse(
            u[4] + self.stride_h * u[1],
            self.stride_h as int,
            u[1],
            u[4],
        );
        lemma_fundamental_div_mod_converse(
            v[4] + self.stride_h * v[1],
            self.stride_h as int,
            v[1],
            v[4],
        );
        lemma_fundamental_div_mod_converse(
            u[5] + self.stride_w * u[2],
            self.stride_w as int,
            u[2],
            u[5],
        );
        lemma_fundamental_div_mod_converse(
            v[5] + self.stride_w * v[2],
            self.stride_w as int,
            v[2],
            v[5],
        );
        assert(u =~= v);
    }
}

pub proof fn lemma_volume2(a: usize, b: usize)
    ensures
        volume(seq![a, b]) == (a as nat) * (b as nat),
{
    reveal_with_fuel(volume, 3);
    let s = seq![a, b];
    assert(s.drop_last() =~= seq![a]);
    assert(seq![a].drop_last() =~= Seq::<usize>::empty());
    assert(1 * (a as nat) == a as nat) by (nonlinear_arith);
}

pub proof fn lemma_volume4(a: usize, b: usize, c: usize, d: usize)
    ensures
        volume(seq![a, b, c, d]) == (a as nat) * (b as nat) * (c as nat) * (d as nat),
{
    let s = seq![a, b, c, d];
    assert(s.drop_last() =~= seq![a, b, c]);
    assert(seq![a, b, c].drop_last() =~= seq![a, b]);
    lemma_volume2(a, b);
    assert(volume(seq![a, b, c]) == volume(seq![a, b]) * (c as nat));
}

pub proof fn lemma_volume6(a: usize, b: usize, c: usize, d: usize, e: usize, f: usize)
    ensures
        volume(seq![a, b, c, d, e, f]) == ((a as nat) * (b as nat) * (c as nat)) * ((d as nat) * (
        e as nat) * (f as nat)),
{
    let s = seq![a, b, c, d, e, f];
    assert(s.drop_last() =~= seq![a, b, c, d, e]);
    assert(seq![a, b, c, d, e].drop_last() =~= seq![a, b, c, d]);
    lemma_volume4(a, b, c, d);
    assert(volume(seq![a, b, c, d, e]) == volume(seq![a, b, c, d]) * (e as nat));
    let p = (a as nat) * (b as nat) * (c as nat);
    let dd = d as nat;
    let ee = e as nat;
    let ff = f as nat;
    assert(((p * dd) * ee) * ff == p * (dd * ee * ff)) by (nonlinear_arith);
}

// ---------------------------------------------------------------------------
// patches
// ---------------------------------------------------------------------------
/// The patch matrix of a batch of images: one row per output position, one column
/// per patch element, zero where the window hangs over the edge.
pub open spec fn im2col_spec<T: Scalar>(
    img: Array<T>,
    kernel: (usize, usize),
    stride: (usize, usize),
    pad: (usize, usize),
) -> Array<T> {
    let p = patches_spec(img.shape, kernel, stride, pad);
    Array { shape: p.matrix_shape_spec(), data: gather(img.data, p.map()) }
}

/// The images in which every patch element has been added to the pixel it is a copy
/// of.
pub open spec fn col2im_spec<T: Scalar>(
    col: Array<T>,
    img_shape: Seq<usize>,
    kernel: (usize, usize),
    stride: (usize, usize),
    pad: (usize, usize),
) -> Array<T> {
    let p = patches_spec(img_shape, kernel, stride, pad);
    Array { shape: img_shape, data: scatter(col.data, p.map(), volume(img_shape)) }
}

pub proof fn lemma_shape4(s: Seq<usize>)
    requires
        s.len() == 4,
    ensures
        s == seq![s[0], s[1], s[2], s[3]],
{
    assert(s =~= seq![s[0], s[1], s[2], s[3]]);
}

pub proof fn lemma_patches_wf(
    img: Seq<usize>,
    kernel: (usize, usize),
    stride: (usize, usize),
    pad: (usize, usize),
)
    requires
        patches_fit(img, kernel, stride, pad),
    ensures
        patches_spec(img, kernel, stride, pad).wf(),
        patches_spec(img, kernel, stride, pad).img_shape_spec() == img,
{
    lemma_shape4(img);
}

pub fn im2col_matrix<T: Scalar>(
    img: &Tensor<T>,
    kernel: (usize, usize),
    stride: (usize, usize),
    pad: (usize, usize),
) -> (r: Tensor<T>)
    requires
        img.wf(),
        patches_fit(img@.shape, kernel, stride, pad),
    ensures
        r.wf(),
        r@ == im2col_spec(img@, kernel, stride, pad),
{
    proof {
        lemma_shape4(img@.shape);
    }
    let (n, c, h, w) = nchw(img.shape.as_slice());
    let patches = Patches::new((n, c, h, w), kernel, stride, pad);
    let map = patches.index_map();
    let data = gather_through(&img.data, &map);
    let mut shape: Vec<usize> = Vec::new();
    shape.push(patches.rows());
    shape.push(patches.columns());
    proof {
        assert(shape@ =~= patches.matrix_shape_spec());
        lemma_volume2(shape@[0], shape@[1]);
    }
    Tensor { shape, data }
}

pub fn col2im_matrix<T: Scalar>(
    col: &Tensor<T>,
    img_shape: (usize, usize, usize, usize),
    kernel: (usize, usize),
    stride: (usize, usize),
    pad: (usize, usize),
) -> (r: Tensor<T>)
    requires
        col.wf(),
        patches_fit(
            seq![img_shape.0, img_shape.1, img_shape.2, img_shape.3],
            kernel,
            stride,
            pad,
        ),
        col@.shape == patches_spec(
            seq![img_shape.0, img_shape.1, img_shape.2, img_shape.3],
            kernel,
            stride,
            pad,
        ).matrix_shape_spec(),
    ensures
        r.wf(),
        r@ == col2im_spec(
            col@,
            seq![img_shape.0, img_shape.1, img_shape.2, img_shape.3],
            kernel,
            stride,
            pad,
        ),
{
    let patches = Patches::new(img_shape, kernel, stride, pad);
    let map = patches.index_map();
    proof {
        lemma_volume2(patches.rows_spec() as usize, patches.columns_spec() as usize);
        lemma_volume4(img_shape.0, img_shape.1, img_shape.2, img_shape.3);
    }
    let mut shape: Vec<usize> = Vec::new();
    shape.push(img_shape.0);
    shape.push(img_shape.1);
    shape.push(img_shape.2);
    shape.push(img_shape.3);
    proof {
        assert(shape@ =~= seq![img_shape.0, img_shape.1, img_shape.2, img_shape.3]);
    }
    let len: usize = match crate::index::checked_volume(shape.as_slice()) {
        Some(v) => v,
        None => 0,
    };
    let data = scatter_through(&col.data, &map, len);
    Tensor { shape, data }
}

/// The four lengths of a batch of images.
pub fn nchw(shape: &[usize]) -> (r: (usize, usize, usize, usize))
    requires
        shape@.len() == 4,
    ensures
        shape@ == seq![r.0, r.1, r.2, r.3],
{
    proof {
        lemma_shape4(shape@);
    }
    (shape[0], shape[1], shape[2], shape[3])
}

/// The order that moves the channel axis of a batch of images last.
pub open spec fn channels_last() -> Seq<usize> {
    seq![0, 2, 3, 1]
}

/// The order that moves a last channel axis back behind the batch axis.
pub open spec fn channels_first() -> Seq<usize> {
    seq![0, 3, 1, 2]
}

/// The order that takes output positions behind patch elements.
pub open spec fn positions_last() -> Seq<usize> {
    seq![0, 3, 4, 5, 1, 2]
}

/// The order that takes patch elements behind output positions.
pub open spec fn positions_first() -> Seq<usize> {
    seq![0, 4, 5, 1, 2, 3]
}

pub proof fn lemma_channel_orders()
    ensures
        is_permutation(channels_last(), 4),
        is_permutation(channels_first(), 4),
        forall|i: int|
            0 <= i < 4 ==> channels_first()[#[trigger] channels_last()[i] as int] == i,
        forall|i: int|
            0 <= i < 4 ==> channels_last()[#[trigger] channels_first()[i] as int] == i,
{
    let p = channels_last();
    let q = channels_first();
    assert forall|a: int| 0 <= a < 4 implies #[trigger] p.contains(a as usize) by {
        assert(p[q[a] as int] == a as usize);
    }
    assert forall|a: int| 0 <= a < 4 implies #[trigger] q.contains(a as usize) by {
        assert(q[p[a] as int] == a as usize);
    }
}

pub proof fn lemma_position_orders()
    ensures
        is_permutation(positions_last(), 6),
        is_permutation(positions_first(), 6),
        forall|i: int|
            0 <= i < 6 ==> positions_first()[#[trigger] positions_last()[i] as int] == i,
        forall|i: int|
            0 <= i < 6 ==> positions_last()[#[trigger] positions_first()[i] as int] == i,
{
    let p = positions_last();
    let q = positions_first();
    assert forall|a: int| 0 <= a < 6 implies #[trigger] p.contains(a as usize) by {
        assert(p[q[a] as int] == a as usize);
    }
    assert forall|a: int| 0 <= a < 6 implies #[trigger] q.contains(a as usize) by {
        assert(q[p[a] as int] == a as usize);
    }
}

/// The matrix whose rows are the pixels of a batch of images and whose columns are
/// the channels.
pub open spec fn nchw_to_rows_spec<T: Scalar>(x: Array<T>) -> Array<T> {
    reshape_spec(
        permute_spec(x, channels_last()),
        seq![(x.shape[0] * x.shape[2] * x.shape[3]) as usize, x.shape[1]],
    )
}

/// The batch of images whose pixels are the rows of a matrix.
pub open spec fn rows_to_nchw_spec<T: Scalar>(
    rows: Array<T>,
    n: usize,
    c: usize,
    h: usize,
    w: usize,
) -> Array<T> {
    permute_spec(reshape_spec(rows, seq![n, h, w, c]), channels_first())
}

proof fn lemma_rows_volume(n: usize, c: usize, h: usize, w: usize)
    requires
        n * h * w <= usize::MAX,
    ensures
        volume(seq![n, h, w, c]) == volume(seq![(n * h * w) as usize, c]),
        volume(seq![n, h, w, c]) == volume(seq![n, c, h, w]),
{
    lemma_volume4(n, h, w, c);
    lemma_volume4(n, c, h, w);
    lemma_volume2((n * h * w) as usize, c);
    let (a, b, d, e) = (n as nat, c as nat, h as nat, w as nat);
    assert(a * d * e * b == a * b * d * e) by (nonlinear_arith);
    assert(a * d * e == n * h * w);
}

pub fn nchw_to_rows<T: Scalar>(x: &Tensor<T>) -> (r: Tensor<T>)
    requires
        x.wf(),
        x@.shape.len() == 4,
        x@.shape[0] * x@.shape[2] <= usize::MAX,
        x@.shape[0] * x@.shape[2] * x@.shape[3] <= usize::MAX,
    ensures
        r.wf(),
        r@ == nchw_to_rows_spec(x@),
{
    let (n, c, h, w) = nchw(x.shape.as_slice());
    let axes: [usize; 4] = [0, 2, 3, 1];
    proof {
        assert(axes@ =~= channels_last());
        lemma_channel_orders();
        lemma_rows_volume(n, c, h, w);
        crate::tensor::lemma_volume_permuted(x@.shape, axes@);
    }
    let moved = x.permuted_axes(axes.as_slice());
    let shape: [usize; 2] = [n * h * w, c];
    proof {
        assert(shape@ =~= seq![(n * h * w) as usize, c]);
    }
    moved.reshaped(shape.as_slice())
}

pub fn rows_to_nchw<T: Scalar>(rows: &Tensor<T>, n: usize, c: usize, h: usize, w: usize) -> (r:
    Tensor<T>)
    requires
        rows.wf(),
        n * h * w <= usize::MAX,
        rows@.shape == seq![(n * h * w) as usize, c],
    ensures
        r.wf(),
        r@ == rows_to_nchw_spec(rows@, n, c, h, w),
        r@.shape == seq![n, c, h, w],
{
    let shape: [usize; 4] = [n, h, w, c];
    let axes: [usize; 4] = [0, 3, 1, 2];
    proof {
        assert(shape@ =~= seq![n, h, w, c]);
        assert(axes@ =~= channels_first());
        lemma_channel_orders();
        lemma_rows_volume(n, c, h, w);
        assert(permuted(seq![n, h, w, c], channels_first()) =~= seq![n, c, h, w]);
    }
    let image = rows.reshaped(shape.as_slice());
    image.permuted_axes(axes.as_slice())
}

/// Turning images into rows of pixels and back gives the images back.
pub proof fn rows_fold_back_into_images<T: Scalar>(x: Array<T>)
    requires
        x.wf(),
        x.shape.len() == 4,
    ensures
        rows_to_nchw_spec(
            nchw_to_rows_spec(x),
            x.shape[0],
            x.shape[1],
            x.shape[2],
            x.shape[3],
        ) == x,
{
    lemma_channel_orders();
    let moved = permute_spec(x, channels_last());
    assert(moved.shape =~= seq![x.shape[0], x.shape[2], x.shape[3], x.shape[1]]);
    permuting_back_is_the_identity(x, channels_last(), channels_first());
    assert(reshape_spec(nchw_to_rows_spec(x), moved.shape) =~= moved);
}

/// The patches of a batch of images: the patch matrix, or the same numbers with the
/// patch elements ahead of the output positions.
pub open spec fn im2col_array_spec<T: Scalar>(
    img: Array<T>,
    kernel: (usize, usize),
    stride: (usize, usize),
    pad: (usize, usize),
    to_matrix: bool,
) -> Array<T> {
    let col = im2col_spec(img, kernel, stride, pad);
    if to_matrix {
        col
    } else {
        permute_spec(
            reshape_spec(col, patches_spec(img.shape, kernel, stride, pad).window_shape()),
            positions_last(),
        )
    }
}

/// The images that patches fold back into.
pub open spec fn col2im_array_spec<T: Scalar>(
    col: Array<T>,
    img_shape: Seq<usize>,
    kernel: (usize, usize),
    stride: (usize, usize),
    pad: (usize, usize),
    to_matrix: bool,
) -> Array<T> {
    let p = patches_spec(img_shape, kernel, stride, pad);
    let matrix = if to_matrix {
        col
    } else {
        reshape_spec(permute_spec(col, positions_first()), p.matrix_shape_spec())
    };
    col2im_spec(matrix, img_shape, kernel, stride, pad)
}

/// The shape that patches have in either layout.
pub open spec fn col_shape(
    img_shape: Seq<usize>,
    kernel: (usize, usize),
    stride: (usize, usize),
    pad: (usize, usize),
    to_matrix: bool,
) -> Seq<usize> {
    let p = patches_spec(img_shape, kernel, stride, pad);
    if to_matrix {
        p.matrix_shape_spec()
    } else {
        p.tensor_shape_spec()
    }
}

pub fn im2col_array<T: Scalar>(
    img: &Tensor<T>,
    kernel: (usize, usize),
    stride: (usize, usize),
    pad: (usize, usize),
    to_matrix: bool,
) -> (r: Tensor<T>)
    requires
        img.wf(),
        patches_fit(img@.shape, kernel, stride, pad),
    ensures
        r.wf(),
        r@ == im2col_array_spec(img@, kernel, stride, pad, to_matrix),
        r@.shape == col_shape(img@.shape, kernel, stride, pad, to_matrix),
{
    let col = im2col_matrix(img, kernel, stride, pad);
    if to_matrix {
        return col;
    }
    let patches = Patches::new(nchw(img.shape.as_slice()), kernel, stride, pad);
    let window: [usize; 6] = [
        patches.batch,
        patches.out_h,
        patches.out_w,
        patches.channels,
        patches.kernel_h,
        patches.kernel_w,
    ];
    let axes: [usize; 6] = [0, 3, 4, 5, 1, 2];
    proof {
        lemma_patches_wf(img@.shape, kernel, stride, pad);
        assert(window@ =~= patches.window_shape());
        assert(axes@ =~= positions_last());
        lemma_position_orders();
        patches.lemma_window_volume();
        lemma_volume2(patches.rows_spec() as usize, patches.columns_spec() as usize);
        assert(permuted(patches.window_shape(), positions_last())
            =~= patches.tensor_shape_spec());
    }
    col.reshaped(window.as_slice()).permuted_axes(axes.as_slice())
}

pub fn col2im_array<T: Scalar>(
    col: &Tensor<T>,
    img_shape: &[usize],
    kernel: (usize, usize),
    stride: (usize, usize),
    pad: (usize, usize),
    to_matrix: bool,
) -> (r: Tensor<T>)
    requires
        col.wf(),
        patches_fit(img_shape@, kernel, stride, pad),
        col@.shape == col_shape(img_shape@, kernel, stride, pad, to_matrix),
    ensures
        r.wf(),
        r@ == col2im_array_spec(col@, img_shape@, kernel, stride, pad, to_matrix),
{
    let shape = nchw(img_shape);
    if to_matrix {
        return col2im_matrix(col, shape, kernel, stride, pad);
    }
    let patches = Patches::new(shape, kernel, stride, pad);
    let axes: [usize; 6] = [0, 4, 5, 1, 2, 3];
    let matrix: [usize; 2] = [patches.rows(), patches.columns()];
    proof {
        assert(axes@ =~= positions_first());
        assert(matrix@ =~= patches.matrix_shape_spec());
        lemma_position_orders();
        patches.lemma_window_volume();
        lemma_volume2(patches.rows_spec() as usize, patches.columns_spec() as usize);
        assert(permuted(patches.tensor_shape_spec(), positions_first())
            =~= patches.window_shape());
    }
    let rows = col.permuted_axes(axes.as_slice()).reshaped(matrix.as_slice());
    col2im_matrix(&rows, shape, kernel, stride, pad)
}

/// The entry of the patch matrix for output position `(out_y, out_x)` of image `n`
/// and patch element `(j, i)` of channel `c` is the pixel that lies there, or zero in
/// the padding.
pub proof fn im2col_entry<T: Scalar>(
    img: Array<T>,
    kernel: (usize, usize),
    stride: (usize, usize),
    pad: (usize, usize),
    n: int,
    out_y: int,
    out_x: int,
    c: int,
    j: int,
    i: int,
)
    requires
        img.wf(),
        patches_fit(img.shape, kernel, stride, pad),
        0 <= n < img.shape[0],
        0 <= c < img.shape[1],
        0 <= out_y < patches_spec(img.shape, kernel, stride, pad).out_h,
        0 <= out_x < patches_spec(img.shape, kernel, stride, pad).out_w,
        0 <= j < kernel.0,
        0 <= i < kernel.1,
    ensures
        ({
            let p = patches_spec(img.shape, kernel, stride, pad);
            let row = (n * p.out_h + out_y) * p.out_w + out_x;
            let column = (c * p.kernel_h + j) * p.kernel_w + i;
            let y = j + stride.0 * out_y - pad.0;
            let x = i + stride.1 * out_x - pad.1;
            im2col_spec(img, kernel, stride, pad).data[row * p.columns_spec() + column] == (
            if 0 <= y < img.shape[2] && 0 <= x < img.shape[3] {
                img.at(seq![n, c, y, x])
            } else {
                T::zero_spec()
            })
        }),
{
    lemma_patches_wf(img.shape, kernel, stride, pad);
    let p = patches_spec(img.shape, kernel, stride, pad);
    let s = p.window_shape();
    let w = seq![n, out_y, out_x, c, j, i];
    assert forall|a: int| 0 <= a < 6 implies 0 <= #[trigger] w[a] < s[a] by {}
    lemma_offset_bound(s, w);
    lemma_unravel_offset(s, w);
    lemma_offset6(s, w);
    let k = offset(s, w);
    assert(p.map()[k] == p.source(k));
    if p.pixel(w).is_some() {
        p.lemma_pixel_in_image(w);
    }
}

proof fn lemma_offset6(s: Seq<usize>, w: Seq<int>)
    requires
        s.len() == 6,
        w.len() == 6,
    ensures
        offset(s, w) == ((w[0] * s[1] + w[1]) * s[2] + w[2]) * (s[3] * s[4] * s[5]) + ((w[3] * s[4]
            + w[4]) * s[5] + w[5]),
{
    reveal_with_fuel(offset, 7);
    let a = (w[0] * s[1] + w[1]) * s[2] + w[2];
    let (b, c, d) = (s[3] as int, s[4] as int, s[5] as int);
    let (e, f, g) = (w[3], w[4], w[5]);
    let u = b * c;
    let v = e * c + f;
    assert((a * b + e) * c == a * u + e * c) by (nonlinear_arith)
        requires
            u == b * c,
    ;
    assert((a * u + v) * d == a * (u * d) + v * d) by (nonlinear_arith);
    assert(((a * b + e) * c + f) * d + g == a * (b * c * d) + ((e * c + f) * d + g));
    let s0 = s.drop_last();
    let s1 = s0.drop_last();
    let s2 = s1.drop_last();
    let s3 = s2.drop_last();
    let s4 = s3.drop_last();
    let w0 = w.drop_last();
    let w1 = w0.drop_last();
    let w2 = w1.drop_last();
    let w3 = w2.drop_last();
    let w4 = w3.drop_last();
    assert(offset(s4, w4) == w[0]) by {
        assert(s4.drop_last().len() == 0);
    }
    assert(offset(s3, w3) == w[0] * s[1] + w[1]);
    assert(offset(s2, w2) == a);
    assert(offset(s1, w1) == a * b + e);
    assert(offset(s0, w0) == (a * b + e) * c + f);
}

/// Folding patches back is the adjoint of extracting them: the product of
/// `col2im(g)` with `x` is the product of `g` with `im2col(x)`.
pub proof fn col2im_is_adjoint_to_im2col<R: Ring>(
    x: Array<R>,
    g: Array<R>,
    kernel: (usize, usize),
    stride: (usize, usize),
    pad: (usize, usize),
)
    requires
        x.wf(),
        g.wf(),
        patches_fit(x.shape, kernel, stride, pad),
        g.shape == patches_spec(x.shape, kernel, stride, pad).matrix_shape_spec(),
    ensures
        dot(col2im_spec(g, x.shape, kernel, stride, pad).data, x.data, x.data.len() as int) == dot(
            g.data,
            im2col_spec(x, kernel, stride, pad).data,
            g.data.len() as int,
        ),
{
    lemma_patches_wf(x.shape, kernel, stride, pad);
    let p = patches_spec(x.shape, kernel, stride, pad);
    p.lemma_map_into();
    p.lemma_window_volume();
    lemma_volume2(p.rows_spec() as usize, p.columns_spec() as usize);
    scatter_is_adjoint_to_gather(x.data, g.data, p.map());
}

/// Folding the patches of an image back multiplies each pixel by the number of
/// windows that cover it; a pixel that no window covers comes back as zero.
pub proof fn folding_back_counts_the_covering_windows<T: Scalar>(
    x: Array<T>,
    kernel: (usize, usize),
    stride: (usize, usize),
    pad: (usize, usize),
    j: int,
)
    requires
        x.wf(),
        patches_fit(x.shape, kernel, stride, pad),
        0 <= j < x.data.len(),
    ensures
        col2im_spec(im2col_spec(x, kernel, stride, pad), x.shape, kernel, stride, pad).data[j]
            == repeated(
            x.data[j],
            visits(
                patches_spec(x.shape, kernel, stride, pad).map(),
                j,
                patches_spec(x.shape, kernel, stride, pad).map().len() as int,
            ),
        ),
{
    scattering_back_counts_the_visits(
        x.data,
        patches_spec(x.shape, kernel, stride, pad).map(),
        j,
    );
}

/// Whether some window covers the pixel at position `j`.
pub open spec fn covered(p: Patches, j: int) -> bool {
    exists|k: int|
        0 <= k < volume(p.window_shape()) && (#[trigger] p.source(k) matches Some(t) && t == j)
}

/// Where the windows do not overlap, folding the patches back gives every covered
/// pixel back and leaves the others at zero.
pub proof fn folding_back_inverts_disjoint_patches<R: Ring>(
    x: Array<R>,
    kernel: (usize, usize),
    stride: (usize, usize),
    pad: (usize, usize),
    j: int,
)
    requires
        x.wf(),
        patches_fit(x.shape, kernel, stride, pad),
        kernel.0 <= stride.0,
        kernel.1 <= stride.1,
        0 <= j < x.data.len(),
    ensures
        col2im_spec(im2col_spec(x, kernel, stride, pad), x.shape, kernel, stride, pad).data[j] == (
        if covered(patches_spec(x.shape, kernel, stride, pad), j) {
            x.data[j]
        } else {
            R::zero_spec()
        }),
{
    lemma_patches_wf(x.shape, kernel, stride, pad);
    let p = patches_spec(x.shape, kernel, stride, pad);
    let map = p.map();
    let n = map.len() as int;
    folding_back_counts_the_covering_windows(x, kernel, stride, pad, j);
    if covered(p, j) {
        let k = choose|k: int|
            0 <= k < volume(p.window_shape()) && (#[trigger] p.source(k) matches Some(t)
                && t == j);
        assert forall|m: int| 0 <= m < n && m != k implies !(#[trigger] map[m] matches Some(t)
            && t == j) by {
            if p.source(m) matches Some(t) && t == j {
                p.lemma_disjoint(k, m);
            }
        }
        assert(map[k] == p.source(k));
        lemma_visits_once(map, j, k, n);
        reveal_with_fuel(repeated, 2);
        R::plus_commutes(R::zero_spec(), x.data[j]);
        R::zero_is_neutral(x.data[j]);
    } else {
        assert forall|m: int| 0 <= m < n implies !(#[trigger] map[m] matches Some(t)
            && t == j) by {
            assert(map[m] == p.source(m));
        }
        lemma_visits_none(map, j, n);
    }
}

} // verus!
