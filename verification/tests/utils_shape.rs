use dezero::scalar::Scalar;
use dezero::tensor::Tensor;
use dezero::utils::shape::{broadcast_array, broadcast_shape, normalize_axis, reshape_sum_backward, sum_to};

#[derive(Debug, Clone, Copy, PartialEq)]
struct Real(f64);

impl Scalar for Real {
    fn zero() -> Self {
        Real(0.0)
    }

    fn one() -> Self {
        Real(1.0)
    }

    fn from_count(n: usize) -> Self {
        Real(n as f64)
    }

    fn add(self, other: Self) -> Self {
        Real(self.0 + other.0)
    }

    fn sub(self, other: Self) -> Self {
        Real(self.0 - other.0)
    }

    fn mul(self, other: Self) -> Self {
        Real(self.0 * other.0)
    }

    fn div(self, other: Self) -> Self {
        Real(self.0 / other.0)
    }

    fn neg(self) -> Self {
        Real(-self.0)
    }

    fn gt(self, other: Self) -> bool {
        self.0 > other.0
    }
}

/// An array of the given shape and elements.
fn array(shape: &[usize], values: &[f64]) -> Tensor<Real> {
    Tensor::from_shape_vec(shape.to_vec(), values.iter().map(|&v| Real(v)).collect())
        .expect("as many elements as the shape says")
}

/// `0, 1, 2, ...` in the given shape, so a wrong axis cannot pass by luck.
fn ramp(shape: &[usize]) -> Tensor<Real> {
    let n: usize = shape.iter().product();
    let values: Vec<f64> = (0..n).map(|v| v as f64).collect();
    array(shape, &values)
}

#[test]
fn negative_axes_count_from_the_end() {
    assert_eq!(normalize_axis(-1, 3), 2);
    assert_eq!(normalize_axis(-3, 3), 0);
    assert_eq!(normalize_axis(2, 3), 2);
}

#[test]
fn broadcasting_is_symmetric() {
    for (a, b) in [
        (vec![2, 3], vec![3]),
        (vec![2, 3], vec![2, 1]),
        (vec![2, 3, 4], vec![3, 4]),
        (vec![1, 3, 1], vec![2, 1, 4]),
        (vec![2, 3], vec![]),
    ] {
        let forward = broadcast_shape(&a, &b);
        let reverse = broadcast_shape(&b, &a);
        assert_eq!(forward, reverse, "{a:?} vs {b:?}");
        assert!(forward.is_some(), "{a:?} and {b:?} should broadcast");
    }
}

#[test]
fn broadcast_shape_takes_the_larger_of_each_axis() {
    assert_eq!(broadcast_shape(&[1, 3, 1], &[2, 1, 4]), Some(vec![2, 3, 4]));
    assert_eq!(broadcast_shape(&[], &[2, 3]), Some(vec![2, 3]));
    assert_eq!(broadcast_shape(&[], &[]), Some(vec![]));
}

#[test]
fn incompatible_shapes_do_not_broadcast() {
    assert_eq!(broadcast_shape(&[2, 2], &[2, 3]), None);
    assert_eq!(broadcast_shape(&[3], &[2]), None);
    assert_eq!(broadcast_shape(&[2, 3, 4], &[3, 5]), None);
}

#[test]
fn a_zero_length_axis_only_broadcasts_against_one() {
    assert_eq!(broadcast_shape(&[0], &[1]), Some(vec![0]));
    assert_eq!(broadcast_shape(&[0], &[2]), None);
}

#[test]
fn sum_to_reduces_rows_and_columns() {
    let x = array(&[2, 3], &[1.0, 2.0, 3.0, 4.0, 5.0, 6.0]);
    assert_eq!(sum_to(&x, &[1, 3]), array(&[1, 3], &[5.0, 7.0, 9.0]));
    assert_eq!(sum_to(&x, &[2, 1]), array(&[2, 1], &[6.0, 15.0]));
    assert_eq!(sum_to(&x, &[1, 1]), array(&[1, 1], &[21.0]));
}

#[test]
fn sum_to_drops_the_lead_axes_entirely() {
    // (2, 3, 4) -> (3, 4): axis 0 is summed away, not kept as a 1.
    let x = ramp(&[2, 3, 4]);
    let y = sum_to(&x, &[3, 4]);
    assert_eq!(y.shape(), &[3, 4]);
    for i in 0..3 {
        for j in 0..4 {
            assert_eq!(
                y.data[i * 4 + j].0,
                x.data[i * 4 + j].0 + x.data[12 + i * 4 + j].0
            );
        }
    }
}

#[test]
fn sum_to_mixes_lead_axes_and_kept_ones() {
    // (2, 3, 4) -> (1, 4): axis 0 vanishes, axis 1 is summed but kept.
    let x = ramp(&[2, 3, 4]);
    let y = sum_to(&x, &[1, 4]);
    assert_eq!(y.shape(), &[1, 4]);
    let total = |t: &Tensor<Real>| t.data.iter().map(|v| v.0).sum::<f64>();
    assert!((total(&y) - total(&x)).abs() < 1e-12);
    for j in 0..4 {
        let expected: f64 = (0..2)
            .map(|i| (0..3).map(|k| x.data[i * 12 + k * 4 + j].0).sum::<f64>())
            .sum();
        assert!((y.data[j].0 - expected).abs() < 1e-12);
    }
}

#[test]
fn sum_to_the_same_shape_copies() {
    let x = array(&[2, 2], &[1.0, 2.0, 3.0, 4.0]);
    assert_eq!(sum_to(&x, &[2, 2]), x);
    assert_eq!(sum_to(&array(&[], &[7.0]), &[]), array(&[], &[7.0]));
}

#[test]
fn sum_to_a_scalar_removes_every_axis() {
    let x = array(&[3], &[1.0, 2.0, 3.0]);
    assert_eq!(sum_to(&x, &[]), array(&[], &[6.0]));
    assert_eq!(sum_to(&x, &[1]), array(&[1], &[6.0]));
}

#[test]
fn sum_to_inverts_broadcasting() {
    // Broadcasting an array up and summing it back down scales it by the
    // number of copies.
    let x = array(&[3], &[1.0, 2.0, 3.0]);
    let wide = broadcast_array(&x, &[4, 3]);
    assert_eq!(sum_to(&wide, &[3]), array(&[3], &[4.0, 8.0, 12.0]));
}

#[test]
fn sum_to_matches_a_hand_summed_three_dimensional_case() {
    let x = array(
        &[3, 2, 2],
        &[1.0, 2.0, 3.0, 4.0, 5.0, 6.0, 7.0, 8.0, 9.0, 10.0, 11.0, 12.0],
    );
    // (3, 2, 2) -> (1, 2): axis 0 away, axis 1 summed and kept.
    assert_eq!(sum_to(&x, &[1, 2]), array(&[1, 2], &[36.0, 42.0]));
}

#[test]
fn reshape_sum_backward_reinserts_the_reduced_axes() {
    assert_eq!(
        reshape_sum_backward(&[3], &[2, 3], Some(&[0]), false),
        [1, 3]
    );
    assert_eq!(
        reshape_sum_backward(&[2], &[2, 3], Some(&[1]), false),
        [2, 1]
    );
    assert_eq!(
        reshape_sum_backward(&[2], &[2, 3, 4], Some(&[1, 2]), false),
        [2, 1, 1]
    );
}

#[test]
fn reshape_sum_backward_sorts_before_inserting() {
    // Descending axes must still produce (1, 3, 1): inserting in the order
    // given would put the 1s in the wrong places.
    assert_eq!(
        reshape_sum_backward(&[3], &[2, 3, 4], Some(&[2, 0]), false),
        [1, 3, 1]
    );
}

#[test]
fn reshape_sum_backward_accepts_negative_axes() {
    assert_eq!(
        reshape_sum_backward(&[2], &[2, 3], Some(&[-1]), false),
        [2, 1]
    );
}

#[test]
fn reshape_sum_backward_passes_the_shape_through() {
    // keepdims, no axis and scalar inputs each leave the gradient alone.
    assert_eq!(
        reshape_sum_backward(&[2, 1], &[2, 3], Some(&[1]), true),
        [2, 1]
    );
    assert_eq!(
        reshape_sum_backward(&[], &[2, 3], None, false),
        Vec::<usize>::new()
    );
    assert_eq!(
        reshape_sum_backward(&[], &[], Some(&[0]), false),
        Vec::<usize>::new()
    );
}

#[test]
fn broadcasting_repeats_along_ones_and_missing_axes() {
    let x = array(&[2, 1], &[1.0, 2.0]);
    assert_eq!(
        broadcast_array(&x, &[2, 2, 3]),
        array(
            &[2, 2, 3],
            &[1.0, 1.0, 1.0, 2.0, 2.0, 2.0, 1.0, 1.0, 1.0, 2.0, 2.0, 2.0]
        )
    );
}
