use fermentation::aggregate::{Aggregator, ArithmeticAggregation, BasicAggregator, MinMaxAggregator, SignAggregator};
use fermentation::g::{Exponential, Polynomial};
use fermentation::{ForwardDecay, Ratio};

fn to_f64(r: Ratio) -> f64 {
    let n = r.magnitude() as f64;
    let n = if r.is_negative() { -n } else { n };
    n / r.denominator() as f64
}

fn assert_almost_eq(left: f64, right: f64, epsilon: f64) {
    assert!(left >= (right - epsilon) && left <= (right + epsilon), "assertion 'left approximately equals right' failed");
}

fn same(a: Ratio, b: Ratio) -> bool {
    let sign = |r: &Ratio| if r.is_negative() { -1i128 } else { 1 };
    let lhs = sign(&a) * (a.magnitude() as i128) * (b.denominator() as i128);
    let rhs = sign(&b) * (b.magnitude() as i128) * (a.denominator() as i128);
    lhs == rhs
}

fn item(landmark: u64, offset: u64, value: i64) -> (u64, i64) {
    (landmark + offset, value)
}

#[test]
fn aggregate_example() {
    let landmark: u64 = 1_000;
    let now = landmark + 10;
    let stream = vec![
        item(landmark, 5, 4),
        item(landmark, 7, 8),
        item(landmark, 3, 3),
        item(landmark, 8, 6),
        item(landmark, 4, 4),
    ];

    let fd = ForwardDecay::new(landmark, Polynomial::new(2));
    let mut aggregates = ArithmeticAggregation::new(fd);

    for item in stream {
        aggregates.update(item);
    }

    assert_eq!(to_f64(aggregates.sum(now)), 9.67);
    assert_eq!(to_f64(aggregates.count(now)), 1.63);
    assert_almost_eq(to_f64(aggregates.average()), 5.93, 0.01);
    assert_eq!(aggregates.min(), Some(&(landmark + 3, 3)));
    assert_eq!(aggregates.max(), Some(&(landmark + 7, 8)));
}

#[test]
fn basic_example() {
    let landmark: u64 = 1_000;
    let now = landmark + 10;
    let stream = vec![
        (landmark + 5, 4),
        (landmark + 7, 8),
        (landmark + 3, 3),
        (landmark + 8, 6),
        (landmark + 4, 4),
    ];

    let fd = ForwardDecay::new(landmark, Polynomial::new(2));
    let mut aggregator: BasicAggregator<Polynomial, (u64, i64)> = BasicAggregator::new(fd);

    for item in stream {
        aggregator.update(item);
    }

    let epsilon = 0.01;

    assert_eq!(to_f64(aggregator.sum(now)), 9.67);
    assert_eq!(aggregator.static_sum(), 967);
    assert_eq!(to_f64(aggregator.count(now)), 1.63);
    assert_eq!(aggregator.static_count(), 163);
    assert!(to_f64(aggregator.average()) >= (5.93 - epsilon) && to_f64(aggregator.average()) <= (5.93 + epsilon));
}

#[test]
fn minmax_example() {
    let landmark: u64 = 1_000;
    let stream = vec![
        (landmark + 5, 4),
        (landmark + 7, 8),
        (landmark + 3, 3),
        (landmark + 8, 6),
        (landmark + 4, 4),
    ];

    let fd = ForwardDecay::new(landmark, Polynomial::new(2));
    let mut aggregator = MinMaxAggregator::new(fd);

    for item in stream {
        aggregator.update(item);
    }

    assert_eq!(aggregator.min(), Some(&(landmark + 3, 3)));
    assert_eq!(aggregator.max(), Some(&(landmark + 7, 8)));
}

#[test]
fn sign_example() {
    let landmark: u64 = 1_000;
    let now = landmark + 10;
    let stream = vec![
        (landmark + 5, -4),
        (landmark + 7, 8),
        (landmark + 3, 3),
        (landmark + 8, -6),
        (landmark + 4, 4),
    ];

    let fd = ForwardDecay::new(landmark, Polynomial::new(2));
    let mut aggregator = SignAggregator::new(fd, ForwardDecay::new(landmark, Polynomial::new(2)));

    for item in stream {
        aggregator.update(item);
    }

    let epsilon = 0.01;

    assert_eq!(to_f64(aggregator.positive().sum(now)), 4.83);
    assert_eq!(to_f64(aggregator.negative().sum(now)), -4.84);
    assert_eq!(to_f64(aggregator.positive().count(now)), 0.74);
    assert_eq!(to_f64(aggregator.negative().count(now)), 0.89);
    let positive = to_f64(aggregator.positive().average());
    let negative = to_f64(aggregator.negative().average());
    assert!(positive >= (6.53 - epsilon) && positive <= (6.53 + epsilon));
    assert!(negative >= (-5.44 - epsilon) && negative <= (-5.44 + epsilon));
}

#[test]
fn sign_error_rate() {
    let landmark: u64 = 0;
    let fd = ForwardDecay::new(landmark, Polynomial::new(2));
    let mut aggregator = SignAggregator::new(fd, ForwardDecay::new(landmark, Polynomial::new(2)));
    for item in [(5u64, -4i64), (7, 8), (3, 3), (8, -6), (4, 4)] {
        aggregator.update(item);
    }
    assert_eq!(aggregator.positive().static_sum(), 483);
    assert_eq!(aggregator.negative().static_sum(), -484);
    assert_eq!(aggregator.positive().static_count(), 74);
    assert_eq!(aggregator.negative().static_count(), 89);
    let errors = aggregator.negative().static_sum().abs() as f64;
    let successes = aggregator.positive().static_sum() as f64;
    let percent = 100.0 * errors / (errors + successes);
    assert!((percent - 50.05).abs() < 0.01);
}

#[test]
fn zero_value_goes_to_positive_side() {
    let fd = ForwardDecay::new(0, Polynomial::new(1));
    let mut aggregator = SignAggregator::new(fd, ForwardDecay::new(0, Polynomial::new(1)));
    aggregator.update((3u64, 0i64));
    assert_eq!(aggregator.positive().static_count(), 3);
    assert_eq!(aggregator.negative().static_count(), 0);
}

#[test]
fn average_of_nothing_is_undefined() {
    let fd = ForwardDecay::new(0, Polynomial::new(2));
    let aggregator: BasicAggregator<Polynomial, (u64, i64)> = BasicAggregator::new(fd);
    assert_eq!(aggregator.average().denominator(), 0);
    assert!(to_f64(aggregator.average()).is_nan());
}

#[test]
fn reset_empties_and_moves_landmark() {
    let fd = ForwardDecay::new(0, Polynomial::new(2));
    let mut aggregator = BasicAggregator::new(fd);
    aggregator.update((4u64, 2i64));
    aggregator.reset(2);
    assert_eq!(aggregator.static_sum(), 0);
    assert_eq!(aggregator.static_count(), 0);
    assert_eq!(aggregator.landmark(), 2);
    assert_eq!(aggregator.decay().landmark(), 2);
    aggregator.update((4u64, 2i64));
    assert_eq!(aggregator.static_sum(), 8);

    let mut extremes = MinMaxAggregator::new(ForwardDecay::new(0, Polynomial::new(2)));
    extremes.update((3u64, 1i64));
    extremes.reset(0);
    assert_eq!(extremes.min(), None);
    assert_eq!(extremes.max(), None);
}

#[test]
fn newer_smaller_value_overtakes_older_larger() {
    let fd = ForwardDecay::new(0, Polynomial::new(2));
    let mut extremes = MinMaxAggregator::new(fd);
    extremes.update((1u64, 50i64));
    extremes.update((10u64, 5i64));
    assert_eq!(extremes.max(), Some(&(10, 5)));
    assert_eq!(extremes.min(), Some(&(1, 50)));
}

#[test]
fn ties_keep_the_existing_item() {
    let fd = ForwardDecay::new(0, Polynomial::new(1));
    let mut extremes = MinMaxAggregator::new(fd);
    extremes.update((2u64, 3i64));
    extremes.update((3u64, 2i64));
    assert_eq!(extremes.min(), Some(&(2, 3)));
    assert_eq!(extremes.max(), Some(&(2, 3)));
    extremes.update((1u64, 6i64));
    assert_eq!(extremes.min(), Some(&(2, 3)));
    assert_eq!(extremes.max(), Some(&(2, 3)));
    extremes.update((1u64, 7i64));
    assert_eq!(extremes.max(), Some(&(1, 7)));
}

#[test]
fn rescale_matches_fresh_accumulation() {
    let landmark: u64 = 0;
    let new_landmark = landmark + 1;
    let now = landmark + 10;
    let stream = vec![(5u64, 4i64), (7, 8), (3, 3), (8, 6), (4, 4)];

    let mut aggregator = BasicAggregator::new(ForwardDecay::new(landmark, Exponential::new(2)));
    let mut fresh = BasicAggregator::new(ForwardDecay::new(landmark, Exponential::new(2)));
    fresh.reset(new_landmark);
    for item in stream {
        aggregator.update(item);
        fresh.update(item);
    }
    aggregator.update_landmark(new_landmark);

    assert_eq!(aggregator.landmark(), new_landmark);
    assert!(same(aggregator.sum(now), fresh.sum(now)));
    assert!(same(aggregator.count(now), fresh.count(now)));
    assert!(same(aggregator.average(), fresh.average()));
    assert!((to_f64(aggregator.sum(now)) - to_f64(fresh.sum(now))).abs() < 0.0001);
}

#[test]
fn rescale_is_exact_for_items_before_the_new_landmark() {
    let mut aggregator = BasicAggregator::new(ForwardDecay::new(0, Exponential::new(2)));
    aggregator.update((0u64, 1i64));
    aggregator.update((0u64, 1i64));
    aggregator.update_landmark(1);
    let mut fresh = BasicAggregator::new(ForwardDecay::new(1, Exponential::new(2)));
    fresh.update((0u64, 1i64));
    fresh.update((0u64, 1i64));
    assert_eq!(fresh.decay().landmark(), 0);
    assert_eq!(fresh.landmark(), 1);
    assert_eq!(to_f64(aggregator.sum(1)), 1.0);
    assert_eq!(to_f64(fresh.sum(1)), 1.0);
    assert!(same(aggregator.count(5), fresh.count(5)));
    assert_eq!(to_f64(fresh.count(0)), 2.0);
}

#[test]
fn landmark_moves_back_and_forth() {
    let mut aggregator = BasicAggregator::new(ForwardDecay::new(10, Exponential::new(3)));
    aggregator.update((12u64, 2i64));
    aggregator.update((9u64, -1i64));
    assert_eq!(aggregator.decay().landmark(), 9);
    assert_eq!(aggregator.static_sum(), 2 * 27 - 1);
    assert_eq!(aggregator.static_count(), 28);
    aggregator.update_landmark(4);
    aggregator.update_landmark(20);
    assert_eq!(aggregator.static_sum(), 53);
    let sum = aggregator.sum(12);
    assert_eq!((sum.magnitude(), sum.denominator()), (53, 27));
}

#[test]
fn sign_rescale_matches_fresh_accumulation() {
    let stream = vec![(5u64, -4i64), (7, 8), (3, 3), (8, -6), (4, 4), (1, 2)];
    let mut aggregator = SignAggregator::new(ForwardDecay::new(0, Exponential::new(3)), ForwardDecay::new(0, Exponential::new(3)));
    let mut fresh = SignAggregator::new(ForwardDecay::new(0, Exponential::new(3)), ForwardDecay::new(0, Exponential::new(3)));
    fresh.reset(2);
    for item in stream {
        aggregator.update(item);
        fresh.update(item);
    }
    aggregator.update_landmark(2);
    for t in [2u64, 5, 9] {
        assert!(same(aggregator.positive().sum(t), fresh.positive().sum(t)));
        assert!(same(aggregator.negative().sum(t), fresh.negative().sum(t)));
        assert!(same(aggregator.negative().count(t), fresh.negative().count(t)));
    }
    assert!(same(aggregator.positive().average(), fresh.positive().average()));
}

#[test]
fn arithmetic_rescale_and_reset() {
    let mut aggregates = ArithmeticAggregation::new(ForwardDecay::new(0, Exponential::new(2)));
    aggregates.update((3u64, 2i64));
    aggregates.update((5u64, 1i64));
    let before = aggregates.average();
    assert_eq!((before.magnitude(), before.denominator()), (48, 40));
    aggregates.update_landmark(4);
    let after = aggregates.average();
    assert_eq!((after.magnitude(), after.denominator()), (6, 5));
    assert!(same(after, before));
    assert_eq!(aggregates.landmark(), 4);
    assert_eq!(aggregates.decay().landmark(), 3);
    assert_eq!(aggregates.min(), Some(&(3, 2)));
    assert_eq!(aggregates.max(), Some(&(5, 1)));
    let mut fresh = ArithmeticAggregation::new(ForwardDecay::new(4, Exponential::new(2)));
    fresh.update((3u64, 2i64));
    fresh.update((5u64, 1i64));
    assert!(same(aggregates.sum(6), fresh.sum(6)));
    assert_eq!(fresh.min(), Some(&(3, 2)));
    assert_eq!(fresh.max(), Some(&(5, 1)));
    aggregates.reset(4);
    assert_eq!(aggregates.min(), None);
    assert_eq!(aggregates.decay().landmark(), 4);
}

#[test]
fn decayed_extremes() {
    let landmark: u64 = 1_000;
    let now = landmark + 10;
    let stream = vec![(landmark + 5, 4i64), (landmark + 7, 8), (landmark + 3, 3), (landmark + 8, 6), (landmark + 4, 4)];
    let mut aggregates = ArithmeticAggregation::new(ForwardDecay::new(landmark, Polynomial::new(2)));
    let mut extremes = MinMaxAggregator::new(ForwardDecay::new(landmark, Polynomial::new(2)));
    assert_eq!(extremes.min_at(now), None);
    for item in stream {
        aggregates.update(item);
        extremes.update(item);
    }
    assert_eq!(to_f64(aggregates.min_at(now).unwrap()), 3.0 * 0.09);
    assert_eq!(to_f64(aggregates.max_at(now).unwrap()), 8.0 * 0.49);
    assert_eq!(to_f64(extremes.min_at(now).unwrap()), 0.27);
    assert_eq!(to_f64(extremes.max_at(now).unwrap()), 3.92);
    assert_eq!(to_f64(extremes.max_at(landmark).unwrap()), 0.0);
}

#[test]
fn rescale_shrinks_totals_exactly() {
    let mut aggregator = BasicAggregator::new(ForwardDecay::new(0, Exponential::new(2)));
    aggregator.update((3u64, 1i64));
    aggregator.update((5u64, -2i64));
    assert_eq!(aggregator.static_count(), 40);
    assert_eq!(aggregator.static_sum(), 8 - 64);
    let before = aggregator.sum(9);
    aggregator.update_landmark(4);
    assert_eq!(aggregator.decay().landmark(), 3);
    assert_eq!(aggregator.static_count(), 5);
    assert_eq!(aggregator.static_sum(), -7);
    assert!(same(aggregator.sum(9), before));
    aggregator.update_landmark(100);
    assert_eq!(aggregator.static_count(), 5);
}
