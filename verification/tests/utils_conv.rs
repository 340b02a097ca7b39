use dezero::scalar::Scalar;
use dezero::tensor::Tensor;
use dezero::utils::conv::{
    col2im_array, get_conv_outsize, get_deconv_outsize, im2col_array, im2col_matrix, nchw_to_rows,
    pair, rows_to_nchw, Pair,
};

#[derive(Debug, Clone, Copy, PartialEq)]
struct Real(f64);

impl Scalar for Real {
    fn zero() -> Self {
        Real(0.0)
    }

    fn one() -> Self {
        Real(1.0)
    }

    fn from_count(n: usize) -> Self {
        Real(n as f64)
    }

    fn add(self, other: Self) -> Self {
        Real(self.0 + other.0)
    }

    fn sub(self, other: Self) -> Self {
        Real(self.0 - other.0)
    }

    fn mul(self, other: Self) -> Self {
        Real(self.0 * other.0)
    }

    fn div(self, other: Self) -> Self {
        Real(self.0 / other.0)
    }

    fn neg(self) -> Self {
        Real(-self.0)
    }

    fn gt(self, other: Self) -> bool {
        self.0 > other.0
    }
}

/// An array of the given shape and elements.
fn array(shape: &[usize], values: &[f64]) -> Tensor<Real> {
    Tensor::from_shape_vec(shape.to_vec(), values.iter().map(|&v| Real(v)).collect())
        .expect("as many elements as the shape says")
}

fn image(n: usize, c: usize, h: usize, w: usize) -> Tensor<Real> {
    let count = n * c * h * w;
    let values: Vec<f64> = (0..count).map(|v| (v as f64) * 0.5 - 3.0).collect();
    array(&[n, c, h, w], &values)
}

/// Row `r` of a matrix.
fn row(m: &Tensor<Real>, r: usize) -> Vec<f64> {
    let columns = m.shape[1];
    m.data[r * columns..(r + 1) * columns].iter().map(|v| v.0).collect()
}

/// The sum of the products of matching elements.
fn inner(a: &Tensor<Real>, b: &Tensor<Real>) -> f64 {
    assert_eq!(a.shape, b.shape);
    a.data.iter().zip(&b.data).map(|(x, y)| x.0 * y.0).sum()
}

#[test]
fn pair_accepts_every_spelling() {
    assert_eq!(pair(4), (4, 4));
    assert_eq!(pair((4, 7)), (4, 7));
    assert_eq!(pair([4, 7]), (4, 7));
    assert_eq!(pair(Pair::new(4, 7)), (4, 7));
    assert_eq!(<(usize, usize)>::from(Pair::new(1, 2)), (1, 2));
}

#[test]
fn conv_outsize_matches_the_books_examples() {
    assert_eq!(get_conv_outsize(4, 3, 1, 1), 4);
    assert_eq!(get_conv_outsize(7, 5, 2, 1), 3);
    assert_eq!(get_conv_outsize(7, 3, 1, 0), 5);
    assert_eq!(get_conv_outsize(7, 3, 2, 1), 4);
}

#[test]
fn conv_outsize_matches_the_formula_everywhere() {
    for input in 1..24_usize {
        for kernel in 1..8_usize {
            for stride in 1..5_usize {
                for pad in 0..4_usize {
                    if input + 2 * pad < kernel {
                        continue;
                    }
                    let expected = (input + 2 * pad - kernel) / stride + 1;
                    assert_eq!(
                        get_conv_outsize(input, kernel, stride, pad),
                        expected,
                        "input {input}, kernel {kernel}, stride {stride}, pad {pad}"
                    );
                }
            }
        }
    }
}

#[test]
fn conv_outsize_counts_only_windows_that_fit() {
    for input in 1..20_usize {
        for kernel in 1..6_usize {
            for stride in 1..4_usize {
                for pad in 0..3_usize {
                    if input + 2 * pad < kernel {
                        continue;
                    }
                    let out = get_conv_outsize(input, kernel, stride, pad);
                    assert!(out >= 1);
                    assert!(stride * (out - 1) + kernel <= input + 2 * pad);
                    assert!(
                        stride * out + kernel > input + 2 * pad,
                        "one more would fit"
                    );
                }
            }
        }
    }
}

#[test]
fn deconv_outsize_inverts_conv_outsize_when_nothing_was_lost() {
    for input in 1..20_usize {
        for kernel in 1..6_usize {
            for stride in 1..4_usize {
                for pad in 0..3_usize {
                    if input + 2 * pad < kernel || (input + 2 * pad - kernel) % stride != 0 {
                        continue;
                    }
                    let out = get_conv_outsize(input, kernel, stride, pad);
                    assert_eq!(
                        get_deconv_outsize(out, kernel, stride, pad),
                        input,
                        "input {input}, kernel {kernel}, stride {stride}, pad {pad}"
                    );
                }
            }
        }
    }
}

#[test]
fn deconv_outsize_matches_the_formula() {
    assert_eq!(get_deconv_outsize(5, 3, 1, 0), 7);
    assert_eq!(get_deconv_outsize(4, 3, 2, 1), 7);
    assert_eq!(get_deconv_outsize(1, 3, 1, 0), 3);
}

#[test]
fn im2col_extracts_the_expected_patches() {
    let values: Vec<f64> = (1..=9).map(f64::from).collect();
    let img = array(&[1, 1, 3, 3], &values);
    let col = im2col_matrix(&img, (2, 2), (1, 1), (0, 0));
    assert_eq!(col.shape(), &[4, 4]);
    assert_eq!(row(&col, 0), vec![1.0, 2.0, 4.0, 5.0]);
    assert_eq!(row(&col, 1), vec![2.0, 3.0, 5.0, 6.0]);
    assert_eq!(row(&col, 2), vec![4.0, 5.0, 7.0, 8.0]);
    assert_eq!(row(&col, 3), vec![5.0, 6.0, 8.0, 9.0]);
}

#[test]
fn im2col_zero_fills_the_padding() {
    let img = array(&[1, 1, 2, 2], &[1.0, 2.0, 3.0, 4.0]);
    let col = im2col_matrix(&img, (3, 3), (1, 1), (1, 1));
    assert_eq!(col.shape(), &[4, 9]);
    // Top-left output position: only the bottom-right quadrant is real.
    assert_eq!(
        row(&col, 0),
        vec![0.0, 0.0, 0.0, 0.0, 1.0, 2.0, 0.0, 3.0, 4.0]
    );
}

#[test]
fn im2col_shapes_follow_the_output_size() {
    let img = image(2, 3, 7, 7);
    for (kernel, stride, pad, out) in [
        ((3, 3), (1, 1), (0, 0), 5),
        ((3, 3), (2, 2), (1, 1), 4),
        ((5, 5), (1, 1), (2, 2), 7),
    ] {
        let col = im2col_array(&img, kernel, stride, pad, true);
        assert_eq!(col.shape(), &[2 * out * out, 3 * kernel.0 * kernel.1]);
        let tensor = im2col_array(&img, kernel, stride, pad, false);
        assert_eq!(tensor.shape(), &[2, 3, kernel.0, kernel.1, out, out]);
    }
}

#[test]
fn the_two_layouts_are_one_permutation_apart() {
    let img = image(2, 3, 5, 5);
    let (kernel, stride, pad) = ((3, 3), (1, 1), (1, 1));
    let matrix = im2col_array(&img, kernel, stride, pad, true);
    let tensor = im2col_array(&img, kernel, stride, pad, false);

    let regrouped = matrix
        .reshaped(&[2, 5, 5, 3, 3, 3])
        .permuted_axes(&[0, 3, 4, 5, 1, 2]);
    assert_eq!(regrouped, tensor);
}

#[test]
fn col2im_is_the_adjoint_of_im2col() {
    for (shape, kernel, stride, pad) in [
        ((1, 1, 4, 4), (2, 2), (1, 1), (0, 0)),
        ((2, 3, 5, 5), (3, 3), (1, 1), (1, 1)),
        ((2, 3, 7, 7), (3, 3), (2, 2), (1, 1)),
        ((1, 2, 6, 6), (2, 2), (2, 2), (0, 0)),
        ((1, 2, 6, 4), (3, 2), (1, 2), (2, 1)),
        ((3, 1, 8, 8), (5, 5), (3, 3), (2, 2)),
    ] {
        let (n, c, h, w) = shape;
        let x = image(n, c, h, w);
        let col = im2col_array(&x, kernel, stride, pad, true);
        // An asymmetric seed: a constant one would hide a transposed index.
        let mut step = 0.0;
        let values: Vec<f64> = col
            .data
            .iter()
            .map(|_| {
                step += 0.25;
                (step % 3.0) - 1.5
            })
            .collect();
        let g = array(&col.shape, &values);

        let back = col2im_array(&g, &[n, c, h, w], kernel, stride, pad, true);
        assert_eq!(back.shape(), &[n, c, h, w]);

        let left = inner(&col, &g);
        let right = inner(&x, &back);
        assert!(
            (left - right).abs() <= 1e-9 * left.abs().max(1.0),
            "shape {shape:?}, kernel {kernel:?}, stride {stride:?}, pad {pad:?}: \
             <im2col(x), g> = {left} but <x, col2im(g)> = {right}"
        );
    }
}

#[test]
fn the_adjoint_identity_holds_in_the_tensor_layout() {
    let x = image(2, 3, 5, 5);
    let (kernel, stride, pad) = ((3, 3), (2, 2), (1, 1));
    let col = im2col_array(&x, kernel, stride, pad, false);
    let values: Vec<f64> = col.data.iter().map(|v| v.0.mul_add(0.3, 0.7)).collect();
    let g = array(&col.shape, &values);
    let back = col2im_array(&g, &[2, 3, 5, 5], kernel, stride, pad, false);

    let left = inner(&col, &g);
    let right = inner(&x, &back);
    assert!((left - right).abs() < 1e-9);
}

#[test]
fn col2im_accumulates_overlapping_patches() {
    let ones = array(&[1, 1, 3, 3], &[1.0; 9]);
    let col = im2col_array(&ones, (2, 2), (1, 1), (0, 0), true);
    let back = col2im_array(&col, &[1, 1, 3, 3], (2, 2), (1, 1), (0, 0), true);
    // Corners belong to 1 patch, edges to 2, the centre to 4.
    assert_eq!(back.data[0].0, 1.0);
    assert_eq!(back.data[1].0, 2.0);
    assert_eq!(back.data[4].0, 4.0);
}

#[test]
fn col2im_inverts_im2col_when_patches_do_not_overlap() {
    let x = image(2, 3, 6, 6);
    let col = im2col_array(&x, (2, 2), (2, 2), (0, 0), true);
    let back = col2im_array(&col, &[2, 3, 6, 6], (2, 2), (2, 2), (0, 0), true);
    assert_eq!(back, x);
}

#[test]
fn col2im_leaves_uncovered_pixels_at_zero() {
    let x = image(1, 1, 5, 5);
    let col = im2col_array(&x, (2, 2), (2, 2), (0, 0), true);
    let back = col2im_array(&col, &[1, 1, 5, 5], (2, 2), (2, 2), (0, 0), true);
    for i in 0..5 {
        assert_eq!(back.data[20 + i].0, 0.0, "row 4 is never covered");
        assert_eq!(back.data[5 * i + 4].0, 0.0, "column 4 is never covered");
    }
}

#[test]
fn nchw_rows_round_trip() {
    let x = image(2, 3, 4, 5);
    let rows = nchw_to_rows(&x);
    assert_eq!(rows.shape(), &[2 * 4 * 5, 3]);
    assert_eq!(rows_to_nchw(&rows, 2, 3, 4, 5), x);
}

#[test]
fn nchw_to_rows_orders_pixels_the_way_im2col_does() {
    let x = image(1, 2, 2, 2);
    let rows = nchw_to_rows(&x);
    // Row (n, y, x) holds that pixel's channels.
    assert_eq!(rows.data[0], x.data[0]);
    assert_eq!(rows.data[1], x.data[4]);
    assert_eq!(rows.data[6], x.data[3]);
}
