use dezero::data::{stack_rows, Dataset};
use dezero::scalar::Scalar;
use dezero::tensor::Tensor;

#[derive(Debug, Clone, Copy, PartialEq)]
struct Real(f64);

impl Scalar for Real {
    fn zero() -> Self {
        Real(0.0)
    }

    fn one() -> Self {
        Real(1.0)
    }

    fn from_count(n: usize) -> Self {
        Real(n as f64)
    }

    fn add(self, other: Self) -> Self {
        Real(self.0 + other.0)
    }

    fn sub(self, other: Self) -> Self {
        Real(self.0 - other.0)
    }

    fn mul(self, other: Self) -> Self {
        Real(self.0 * other.0)
    }

    fn div(self, other: Self) -> Self {
        Real(self.0 / other.0)
    }

    fn neg(self) -> Self {
        Real(-self.0)
    }

    fn gt(self, other: Self) -> bool {
        self.0 > other.0
    }
}

/// An array of the given shape and elements.
fn array(shape: &[usize], values: &[f64]) -> Tensor<Real> {
    Tensor::from_shape_vec(shape.to_vec(), values.iter().map(|&v| Real(v)).collect())
        .expect("as many elements as the shape says")
}

/// A dataset with a shape and labels chosen so that every value identifies
/// the example it came from.
struct Counting {
    count: usize,
    labelled: bool,
}

impl Dataset<Real> for Counting {
    fn len(&self) -> usize {
        self.count
    }

    fn input(&self, index: usize) -> Tensor<Real> {
        assert!(index < self.count, "index {index} is out of range");
        array(&[2], &[index as f64, index as f64 + 0.5])
    }

    fn label(&self, index: usize) -> Option<usize> {
        assert!(index < self.count, "index {index} is out of range");
        if self.labelled {
            Some(index % 3)
        } else {
            None
        }
    }
}

/// The array with every element put through `f`.
fn mapped(x: &Tensor<Real>, f: impl Fn(f64) -> f64) -> Tensor<Real> {
    let values: Vec<f64> = x.data.iter().map(|v| f(v.0)).collect();
    array(&x.shape, &values)
}

#[test]
fn is_empty_follows_len() {
    assert!(Counting {
        count: 0,
        labelled: true
    }
    .is_empty());
    assert!(!Counting {
        count: 1,
        labelled: true
    }
    .is_empty());
}

#[test]
fn an_unlabelled_dataset_reports_no_label() {
    let set = Counting {
        count: 3,
        labelled: false,
    };
    assert!((0..3).all(|i| set.label(i).is_none()));
    assert_eq!(set.input(2), array(&[2], &[2.0, 2.5]));
}

#[test]
fn map_input_transforms_only_the_input() {
    let set = Counting {
        count: 3,
        labelled: true,
    }
    .map_input(|x: Tensor<Real>| mapped(&x, |v| v * 10.0));

    assert_eq!(set.len(), 3);
    assert_eq!(set.input(1), array(&[2], &[10.0, 15.0]));
    assert_eq!(set.label(1), Some(1), "the label is untouched");
    assert_eq!(set.inner().len(), 3);
}

#[test]
fn map_label_transforms_only_the_label() {
    let set = Counting {
        count: 4,
        labelled: true,
    }
    .map_label(|t| t * 100);

    assert_eq!(set.input(1), array(&[2], &[1.0, 1.5]));
    assert_eq!(set.label(1), Some(100));
    assert_eq!(set.inner().len(), 4);
}

#[test]
fn map_label_leaves_an_absent_label_absent() {
    let set = Counting {
        count: 2,
        labelled: false,
    }
    .map_label(|t| t + 1);
    assert_eq!(set.label(0), None);
}

#[test]
fn the_combinators_compose() {
    let set = Counting {
        count: 2,
        labelled: true,
    }
    .map_input(|x: Tensor<Real>| mapped(&x, |v| v + 1.0))
    .map_label(|t| t + 10);

    assert_eq!(set.input(0), array(&[2], &[1.0, 1.5]));
    assert_eq!(set.label(1), Some(11));
}

#[test]
fn stacking_adds_a_leading_axis() {
    let rows = [
        array(&[2], &[1.0, 2.0]),
        array(&[2], &[3.0, 4.0]),
        array(&[2], &[5.0, 6.0]),
    ];
    assert_eq!(
        stack_rows(&rows),
        array(&[3, 2], &[1.0, 2.0, 3.0, 4.0, 5.0, 6.0])
    );
}

#[test]
fn stacking_preserves_higher_rank_examples() {
    let rows = [
        array(&[2, 2], &[1.0, 2.0, 3.0, 4.0]),
        array(&[2, 2], &[5.0, 6.0, 7.0, 8.0]),
    ];
    let stacked = stack_rows(&rows);
    assert_eq!(stacked.shape(), &[2, 2, 2]);
    assert_eq!(stacked.data[5].0, 6.0);
}

#[test]
fn stacking_a_scalar_example_gives_a_vector() {
    let rows = [array(&[], &[1.0]), array(&[], &[2.0])];
    assert_eq!(stack_rows(&rows), array(&[2], &[1.0, 2.0]));
}

#[test]
fn stacking_nothing_gives_an_empty_vector() {
    let rows: [Tensor<Real>; 0] = [];
    assert_eq!(stack_rows(&rows).shape(), &[0]);
}

#[test]
fn a_dataset_works_behind_a_trait_object() {
    let set = Counting {
        count: 5,
        labelled: true,
    };
    let erased: &dyn Dataset<Real> = &set;
    assert_eq!(erased.len(), 5);
    assert_eq!(erased.label(4), Some(1));
}
