use dezero::data::dataloader::{Batch, DataLoader};
use dezero::data::spiral::{Spiral, CLASSES, POINTS_PER_CLASS};
use dezero::data::Dataset;
use dezero::engine::builtin::Builtin;
use dezero::engine::graph::Graph;
use dezero::scalar::Scalar;
use dezero::tensor::Tensor;

#[derive(Debug, Clone, Copy, PartialEq)]
struct Real(f64);

impl Scalar for Real {
    fn zero() -> Self {
        Real(0.0)
    }

    fn one() -> Self {
        Real(1.0)
    }

    fn from_count(n: usize) -> Self {
        Real(n as f64)
    }

    fn add(self, other: Self) -> Self {
        Real(self.0 + other.0)
    }

    fn sub(self, other: Self) -> Self {
        Real(self.0 - other.0)
    }

    fn mul(self, other: Self) -> Self {
        Real(self.0 * other.0)
    }

    fn div(self, other: Self) -> Self {
        Real(self.0 / other.0)
    }

    fn neg(self) -> Self {
        Real(-self.0)
    }

    fn gt(self, other: Self) -> bool {
        self.0 > other.0
    }
}

/// An array of the given shape and elements.
fn array(shape: &[usize], values: &[f64]) -> Tensor<Real> {
    Tensor::from_shape_vec(shape.to_vec(), values.iter().map(|&v| Real(v)).collect())
        .expect("as many elements as the shape says")
}

type Net = Graph<Real, Builtin>;

/// `input(i) == [i]`, so a batch's contents name the examples in it.
struct Counting {
    count: usize,
    labelled: bool,
}

impl Counting {
    fn labelled(count: usize) -> Self {
        Self { count, labelled: true }
    }
}

impl Dataset<Real> for Counting {
    fn len(&self) -> usize {
        self.count
    }

    fn input(&self, index: usize) -> Tensor<Real> {
        array(&[1], &[index as f64])
    }

    fn label(&self, index: usize) -> Option<usize> {
        self.labelled.then_some(index * 10)
    }
}

type Loader<'a> = DataLoader<'a, Real, Counting>;

fn batches(loader: &mut Loader<'_>) -> Vec<Batch<Real>> {
    std::iter::from_fn(|| loader.next()).collect()
}

fn visited(mut loader: Loader<'_>) -> Vec<Vec<usize>> {
    batches(&mut loader)
        .iter()
        .map(|batch| batch.x.data().iter().map(|v| v.0 as usize).collect())
        .collect()
}

// -- batch boundaries --------------------------------------------------------

#[test]
fn a_dividing_batch_size_gives_whole_batches() {
    let set = Counting::labelled(6);
    let loader = DataLoader::new(&set, 3, false);
    assert_eq!(loader.max_iter(), 2);
    assert_eq!(visited(loader), vec![vec![0, 1, 2], vec![3, 4, 5]]);
}

#[test]
fn the_last_batch_is_short_rather_than_dropped() {
    let set = Counting::labelled(7);
    let loader = DataLoader::new(&set, 3, false);
    assert_eq!(loader.max_iter(), 3, "ceil(7 / 3)");
    assert_eq!(visited(loader), vec![vec![0, 1, 2], vec![3, 4, 5], vec![6]]);
}

#[test]
fn a_batch_size_larger_than_the_dataset_gives_one_short_batch() {
    let set = Counting::labelled(3);
    let mut loader = DataLoader::new(&set, 100, false);
    assert_eq!(loader.max_iter(), 1);

    let batch: Batch<Real> = loader.next().expect("one batch");
    assert_eq!(batch.len(), 3);
    assert_eq!(batch.x.shape(), &[3, 1]);
    assert_eq!(batch.t, vec![0, 10, 20]);
    assert!(loader.next().is_none());
}

#[test]
fn a_batch_size_of_one_yields_one_example_at_a_time() {
    let set = Counting::labelled(3);
    let loader = DataLoader::new(&set, 1, false);
    assert_eq!(loader.max_iter(), 3);
    assert_eq!(visited(loader), vec![vec![0], vec![1], vec![2]]);
}

#[test]
fn an_empty_dataset_yields_nothing() {
    let set = Counting::labelled(0);
    let mut loader: Loader<'_> = DataLoader::new(&set, 8, false);
    assert_eq!(loader.data_size(), 0);
    assert_eq!(loader.max_iter(), 0, "ceil(0 / 8)");
    assert_eq!(loader.size_hint(), (0, Some(0)));
    assert!(loader.next().is_none());
    loader.reset();
    assert!(loader.next().is_none(), "and still nothing after a reset");
}

// -- labels ------------------------------------------------------------------

#[test]
fn labels_travel_with_their_rows() {
    let set = Counting::labelled(5);
    let batches = batches(&mut DataLoader::new(&set, 2, false));
    assert_eq!(batches[0].t, vec![0, 10]);
    assert_eq!(batches[1].t, vec![20, 30]);
    assert_eq!(batches[2].t, vec![40]);
}

#[test]
fn an_unlabelled_dataset_gives_batches_with_no_labels() {
    let set = Counting { count: 4, labelled: false };
    let batch: Batch<Real> = DataLoader::new(&set, 4, false).next().expect("one full batch");
    assert_eq!(batch.len(), 4);
    assert!(batch.t.is_empty());
}

// -- shuffling ---------------------------------------------------------------

#[test]
fn shuffling_off_visits_examples_in_order() {
    let set = Counting::labelled(10);
    let loader: Loader<'_> = DataLoader::new(&set, 4, false);
    assert_eq!(loader.order(), (0..10).collect::<Vec<_>>());
}

#[test]
fn shuffling_on_permutes_without_losing_or_repeating_an_example() {
    let set = Counting::labelled(50);
    let loader = DataLoader::new(&set, 7, true).with_seed(3);

    let mut seen: Vec<usize> = visited(loader).into_iter().flatten().collect();
    assert_eq!(seen.len(), 50, "every example appears exactly once");
    seen.sort_unstable();
    assert_eq!(seen, (0..50).collect::<Vec<_>>());
}

#[test]
fn a_reset_reshuffles_but_an_unshuffled_loader_keeps_its_order() {
    let set = Counting::labelled(30);

    let mut shuffled: Loader<'_> = DataLoader::new(&set, 5, true).with_seed(9);
    let first_epoch = shuffled.order().to_vec();
    shuffled.reset();
    assert_ne!(shuffled.order(), first_epoch, "a new epoch, a new order");

    let mut ordered: Loader<'_> = DataLoader::new(&set, 5, false);
    let before = ordered.order().to_vec();
    ordered.reset();
    assert_eq!(ordered.order(), before);
}

#[test]
fn the_seed_pins_the_shuffle() {
    let set = Counting::labelled(20);
    let a: Loader<'_> = DataLoader::new(&set, 4, true).with_seed(77);
    let b: Loader<'_> = DataLoader::new(&set, 4, true).with_seed(77);
    let c: Loader<'_> = DataLoader::new(&set, 4, true).with_seed(78);
    assert_eq!(a.order(), b.order());
    assert_ne!(a.order(), c.order());
}

// -- epochs ------------------------------------------------------------------

#[test]
fn exhaustion_is_final_until_reset() {
    let set = Counting::labelled(4);
    let mut loader: Loader<'_> = DataLoader::new(&set, 2, false);

    assert_eq!(batches(&mut loader).len(), 2);
    assert!(loader.next().is_none());
    assert!(loader.next().is_none(), "still nothing");

    loader.reset();
    assert_eq!(loader.iteration(), 0);
    assert_eq!(batches(&mut loader).len(), 2, "the next epoch is a full one");
}

#[test]
fn the_remaining_batch_count_is_exact() {
    let set = Counting::labelled(10);
    let mut loader: Loader<'_> = DataLoader::new(&set, 3, false);
    assert_eq!(loader.size_hint(), (4, Some(4)));

    let _ = loader.next();
    assert_eq!(loader.size_hint().0, 3);
    assert_eq!(loader.iteration(), 1);

    while loader.next().is_some() {}
    assert_eq!(loader.size_hint().0, 0);
}

#[test]
fn several_epochs_cover_the_dataset_each_time() {
    let set = Counting::labelled(9);
    let mut loader: Loader<'_> = DataLoader::new(&set, 4, true).with_seed(5);

    for epoch in 0..3 {
        let mut seen: Vec<usize> = batches(&mut loader)
            .into_iter()
            .flat_map(|batch| batch.t.into_iter().map(|label| label / 10))
            .collect();
        seen.sort_unstable();
        assert_eq!(seen, (0..9).collect::<Vec<_>>(), "epoch {epoch}");
        loader.reset();
    }
}

// -- what a loader and a batch say of themselves -------------------------------

#[test]
fn the_loader_reports_how_it_was_built() {
    let set = Counting::labelled(11);
    let loader: Loader<'_> = DataLoader::new(&set, 4, true).with_seed(1);
    assert_eq!(loader.batch_size(), 4);
    assert_eq!(loader.data_size(), 11);
    assert_eq!(loader.max_iter(), 3);
    assert!(loader.shuffle());
}

#[test]
fn a_batch_converts_to_a_graph_node() {
    let set = Counting::labelled(4);
    let batch: Batch<Real> = DataLoader::new(&set, 4, false).next().expect("a batch");
    assert!(!batch.is_empty());

    let mut g: Net = Graph::new();
    let x = batch.input(&mut g);
    assert_eq!(x.shape(&g), Some(vec![4, 1]));
    assert_eq!(x.data(&g), Some(&batch.x));
    assert!(x.creator(&g).is_none(), "a batch is a leaf, not a computation");
}

#[test]
fn two_loaders_can_share_one_dataset() {
    let set = Counting::labelled(8);
    let train: Loader<'_> = DataLoader::new(&set, 4, true).with_seed(2);
    let evaluate: Loader<'_> = DataLoader::new(&set, 8, false);
    assert_eq!(train.max_iter(), 2);
    assert_eq!(evaluate.max_iter(), 1);
}

// -- spirals -----------------------------------------------------------------

fn tiny() -> Spiral<Real> {
    Spiral::new(array(&[3, 2], &[0.0, 1.0, 2.0, 3.0, 4.0, 5.0]), vec![0, 1, 2])
}

fn spiral(seed: u64) -> Spiral<Real> {
    let normal = |a: u64, b: u64| {
        let unit = |n: u64| n as f64 / 9_007_199_254_740_992.0;
        let radius = (-2.0 * (1.0 - unit(a)).ln()).sqrt();
        Real(radius * (std::f64::consts::TAU * unit(b)).cos())
    };
    let (sin, cos) = (|v: Real| Real(v.0.sin()), |v: Real| Real(v.0.cos()));
    Spiral::generate(seed, &normal, &sin, &cos)
}

/// The coordinates of a point.
fn point(set: &Spiral<Real>, index: usize) -> (f64, f64) {
    let row = set.input(index);
    (row.data()[0].0, row.data()[1].0)
}

#[test]
fn explicit_data_is_handed_back_row_by_row() {
    let set = tiny();
    assert_eq!(set.len(), 3);
    assert!(!set.is_empty());
    assert_eq!(set.input(0), array(&[2], &[0.0, 1.0]));
    assert_eq!(set.input(2), array(&[2], &[4.0, 5.0]));
    assert_eq!(set.labels(), &[0, 1, 2]);
    assert_eq!(set.inputs().shape(), &[3, 2]);
}

#[test]
fn an_input_row_is_rank_one() {
    assert_eq!(tiny().input(1).ndim(), 1, "an example, not a 1-row matrix");
}

#[test]
fn an_empty_spiral_is_allowed() {
    let empty: Spiral<Real> = Spiral::new(array(&[0, 2], &[]), Vec::new());
    assert!(empty.is_empty());
    assert_eq!(empty.len(), 0);
}

#[test]
fn generate_produces_the_reference_shape() {
    let set = spiral(1984);
    assert_eq!(set.len(), 300);
    assert_eq!(set.inputs().shape(), &[300, 2]);
    assert_eq!(set.labels().len(), 300);
}

#[test]
fn generate_balances_the_three_arms() {
    let set = spiral(11);
    let mut counts = [0_usize; CLASSES];
    for &label in set.labels() {
        counts[label] += 1;
    }
    assert_eq!(counts, [POINTS_PER_CLASS; CLASSES]);
}

#[test]
fn generate_is_reproducible_and_seed_dependent() {
    assert_eq!(spiral(7), spiral(7));
    assert_ne!(spiral(7), spiral(8));
}

#[test]
fn generate_shuffles_the_classes_together() {
    let set = spiral(3);
    let first_hundred = &set.labels()[..POINTS_PER_CLASS];
    assert!(
        first_hundred.iter().any(|&label| label != first_hundred[0]),
        "unshuffled, the first hundred labels would all be class 0"
    );
}

/// Every point lies inside the unit disc: `radius = i / 100 < 1` and the noise only
/// rotates it.
#[test]
fn generated_points_stay_inside_the_unit_disc() {
    let set = spiral(2);
    for index in 0..set.len() {
        let (x, y) = point(&set, index);
        let radius = (x * x + y * y).sqrt();
        assert!(radius < 1.0, "point {index} has radius {radius}");
    }
}

/// The arms are what makes the problem non-linear: at the same radius, the three classes
/// sit at angles roughly four radians apart.
#[test]
fn the_three_arms_are_separated_in_angle() {
    let set = spiral(4);
    let mut outermost = [(0.0_f64, 0.0_f64); CLASSES];
    for index in 0..set.len() {
        let (x, y) = point(&set, index);
        let class = set.label(index).expect("labelled");
        if x.hypot(y) > outermost[class].0.hypot(outermost[class].1) {
            outermost[class] = (x, y);
        }
    }

    let angles: Vec<f64> = outermost.iter().map(|(x, y)| x.atan2(*y)).collect();
    for (a, b) in [(0, 1), (1, 2), (0, 2)] {
        let gap = (angles[a] - angles[b]).abs();
        assert!(gap > 0.5, "classes {a} and {b} share an angle: {angles:?}");
    }
}

#[test]
fn a_generated_spiral_is_a_dataset() {
    let set = spiral(0);
    assert_eq!(set.len(), 300);
    assert_eq!(set.input(299).shape(), &[2]);
    assert!(set.label(299).is_some_and(|label| label < CLASSES));
}

#[test]
fn a_point_without_noise_lies_on_its_arm() {
    // The draws shuffle as ever; only the strays are gone.
    let (sin, cos) = (|v: Real| Real(v.0.sin()), |v: Real| Real(v.0.cos()));
    let set: Spiral<Real> = Spiral::generate(5, &|_: u64, _: u64| Real(0.0), &sin, &cos);
    for index in 0..set.len() {
        let (x, y) = point(&set, index);
        let rate = (x * x + y * y).sqrt();
        let theta = set.labels()[index] as f64 * 4.0 + 4.0 * rate;
        assert!((x - rate * theta.sin()).abs() < 1e-9 && (y - rate * theta.cos()).abs() < 1e-9);
    }
}

#[test]
fn every_arm_has_one_point_at_each_hundredth() {
    let set = spiral(5);
    for class in 0..CLASSES {
        let mut radii: Vec<f64> = (0..set.len())
            .filter(|&i| set.label(i) == Some(class))
            .map(|i| point(&set, i).0.hypot(point(&set, i).1))
            .collect();
        radii.sort_by(f64::total_cmp);
        assert_eq!(radii.len(), POINTS_PER_CLASS);
        for (step, radius) in radii.iter().enumerate() {
            assert!((radius - step as f64 / 100.0).abs() < 1e-12, "class {class}, {radius}");
        }
    }
}
