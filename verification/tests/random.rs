use dezero::utils::random::{seed, Rng};

/// Enough samples that the moment checks below are meaningful, but still
/// instant in a debug build.
const SAMPLES: usize = 20_000;

fn sample_count() -> f64 {
    SAMPLES as f64
}

/// A draw in the half-open unit interval.
fn uniform(rng: &mut Rng) -> f64 {
    rng.next_numerator() as f64 / 9_007_199_254_740_992.0
}

#[test]
fn the_same_seed_replays_the_same_stream() {
    let a: Vec<f64> = (0..8).map(|_| uniform(&mut Rng::new(1))).collect();
    assert!(
        a.windows(2).all(|w| (w[0] - w[1]).abs() < f64::EPSILON),
        "a fresh Rng::new(1) each time must give the same first value"
    );

    let mut one = Rng::new(99);
    let mut two = Rng::new(99);
    for _ in 0..32 {
        assert_eq!(one.next_u64(), two.next_u64());
    }
}

#[test]
fn different_seeds_give_different_streams() {
    assert_ne!(Rng::new(1).next_u64(), Rng::new(2).next_u64());
    assert_ne!(uniform(&mut Rng::new(0)), uniform(&mut Rng::new(1)));
}

#[test]
fn a_zero_seed_is_not_a_fixed_point() {
    let mut rng = Rng::new(0);
    let values: Vec<u64> = (0..4).map(|_| rng.next_u64()).collect();
    assert!(values.iter().all(|&v| v != 0));
    assert_ne!(values[0], values[1]);
}

#[test]
fn the_first_draws_are_those_of_the_published_generator() {
    let mut rng = Rng::new(1234567);
    assert_eq!(rng.next_u64(), 6457827717110365317);
    assert_eq!(rng.next_u64(), 3203168211198807973);
    assert_eq!(rng.next_u64(), 9817491932198370423);
}

#[test]
fn uniforms_stay_inside_the_half_open_unit_interval() {
    let mut rng = Rng::new(7);
    for _ in 0..SAMPLES {
        let v = uniform(&mut rng);
        assert!((0.0..1.0).contains(&v), "{v} escaped [0, 1)");
    }
}

#[test]
fn uniforms_have_the_right_mean_and_spread() {
    let mut rng = Rng::new(11);
    let values: Vec<f64> = (0..SAMPLES).map(|_| uniform(&mut rng)).collect();
    let mean = values.iter().sum::<f64>() / sample_count();
    assert!((mean - 0.5).abs() < 0.01, "mean was {mean}");

    // Every decile should hold roughly a tenth of the draws.
    let mut deciles = [0_usize; 10];
    for v in &values {
        let bucket = (v * 10.0).floor().clamp(0.0, 9.0);
        deciles[bucket as usize] += 1;
    }
    for (index, count) in deciles.iter().enumerate() {
        let share = f64::from(u32::try_from(*count).expect("fits")) / sample_count();
        assert!(
            (share - 0.1).abs() < 0.02,
            "decile {index} held {share} of the draws"
        );
    }
}

#[test]
fn a_stream_can_be_seeded_again() {
    let mut rng = Rng::default();
    seed(&mut rng, 123);
    let first: Vec<u64> = (0..3).map(|_| rng.next_u64()).collect();
    let second: Vec<u64> = (0..3).map(|_| rng.next_u64()).collect();
    assert_ne!(first, second, "the stream advances between calls");

    seed(&mut rng, 123);
    let again: Vec<u64> = (0..3).map(|_| rng.next_u64()).collect();
    assert_eq!(again, first, "reseeding replays it");
}

#[test]
fn below_stays_inside_its_bound() {
    let mut rng = Rng::new(17);
    assert!((0..1000).all(|_| rng.below(7) < 7));
    assert!(
        (0..10).all(|_| rng.below(1) == 0),
        "a bound of 1 is constant"
    );
}

#[test]
fn below_covers_its_range_roughly_evenly() {
    let mut rng = Rng::new(31);
    let mut counts = [0_u32; 6];
    for _ in 0..SAMPLES {
        counts[rng.below(6)] += 1;
    }
    let expected = sample_count() / 6.0;
    for (face, count) in counts.iter().enumerate() {
        let share = f64::from(*count) / expected;
        assert!(
            (share - 1.0).abs() < 0.1,
            "face {face} came up {count} times, expected about {expected}"
        );
    }
}

#[test]
fn a_permutation_is_a_bijection() {
    let mut rng = Rng::new(11);
    for n in [0, 1, 2, 5, 64] {
        let mut order = rng.permutation(n);
        assert_eq!(order.len(), n);
        order.sort_unstable();
        assert_eq!(order, (0..n).collect::<Vec<_>>(), "n = {n}");
    }
}

#[test]
fn permutations_are_reproducible_and_not_the_identity() {
    assert_eq!(Rng::new(4).permutation(50), Rng::new(4).permutation(50));
    assert_ne!(
        Rng::new(4).permutation(50),
        (0..50).collect::<Vec<_>>(),
        "50! makes an accidental identity impossible in practice"
    );
    assert_ne!(Rng::new(4).permutation(50), Rng::new(5).permutation(50));
}

/// A normal draw made of two uniform ones.
fn normal(a: u64, b: u64) -> f64 {
    let unit = |n: u64| n as f64 / 9_007_199_254_740_992.0;
    (-2.0 * (1.0 - unit(a)).ln()).sqrt() * (std::f64::consts::TAU * unit(b)).cos()
}

#[test]
fn normals_have_mean_zero_and_variance_one() {
    let values = Rng::new(3).randn(&[SAMPLES], &normal).data().clone();

    let mean = values.iter().sum::<f64>() / sample_count();
    let variance = values.iter().map(|v| (v - mean).powi(2)).sum::<f64>() / sample_count();

    assert!(mean.abs() < 0.03, "mean was {mean}");
    assert!((variance - 1.0).abs() < 0.05, "variance was {variance}");
    assert!(values.iter().all(|v| v.is_finite()), "no inf or NaN");
}

#[test]
fn normals_have_a_normal_shaped_tail() {
    // ~68% within one standard deviation, ~95% within two.
    let values = Rng::new(5).randn(&[SAMPLES], &normal).data().clone();

    let share = |limit: f64| {
        let inside = values.iter().filter(|v| v.abs() < limit).count();
        inside as f64 / sample_count()
    };
    assert!((share(1.0) - 0.6827).abs() < 0.02, "1 sigma: {}", share(1.0));
    assert!((share(2.0) - 0.9545).abs() < 0.01, "2 sigma: {}", share(2.0));
}

#[test]
fn randn_fills_the_requested_shape_in_c_order() {
    let mut rng = Rng::new(13);
    let flat = rng.randn(&[6], &normal);

    let mut rng = Rng::new(13);
    let shaped = rng.randn(&[2, 3], &normal);

    assert_eq!(shaped.shape(), &[2, 3]);
    for (index, value) in flat.data().iter().enumerate() {
        assert_eq!(shaped.data()[(index / 3) * 3 + index % 3], *value);
    }
}

#[test]
fn randn_of_no_shape_is_a_single_deviate() {
    let x = Rng::new(1).randn(&[], &normal);
    assert!(x.shape().is_empty());
    assert_eq!(x.size(), 1);
}

#[test]
fn the_global_stream_advances_and_reseeds() {
    let mut rng = Rng::new(0);
    seed(&mut rng, 123);
    let first = rng.randn(&[3], &normal);
    let second = rng.randn(&[3], &normal);
    assert_ne!(first, second, "the stream advances between calls");

    seed(&mut rng, 123);
    assert_eq!(rng.randn(&[3], &normal), first, "reseeding replays it");
}

#[test]
fn the_global_stream_matches_an_explicit_one() {
    let mut rng = Rng::new(0);
    seed(&mut rng, 2024);
    let streamed = rng.randn(&[5], &normal);
    assert_eq!(Rng::new(2024).randn(&[5], &normal), streamed);
}
