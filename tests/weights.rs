use fermentation::g::{Custom, Exponential, Function, LandmarkWindow, Polynomial};
use fermentation::{ForwardDecay, Item, Ratio};

fn to_f64(r: Ratio) -> f64 {
    let n = r.magnitude() as f64;
    let n = if r.is_negative() { -n } else { n };
    n / r.denominator() as f64
}

#[test]
fn no_decay() {
    assert_eq!(().invoke(1), 1);
    assert_eq!(().invoke(0), 1);
    assert_eq!(().invoke(-1), 1);
}

#[test]
fn polynomial() {
    assert_eq!(Polynomial::new(3).invoke(2), 8);
}

#[test]
fn landmark() {
    assert_eq!(LandmarkWindow.invoke(1), 1);
    assert_eq!(LandmarkWindow.invoke(0), 0);
    assert_eq!(LandmarkWindow.invoke(-1), 0);
}

#[test]
fn polynomial_before_landmark_is_zero() {
    let p = Polynomial::new(2);
    assert_eq!(p.invoke(0), 0);
    assert_eq!(p.invoke(-3), 0);
    assert_eq!(p.invoke(10), 100);
}

#[test]
fn polynomial_overflow_is_reported() {
    let p = Polynomial::new(3);
    assert!(p.fits(2_642_245));
    assert_eq!(p.invoke(2_642_245), 2_642_245u64 * 2_642_245 * 2_642_245);
    assert!(!p.fits(2_642_246));
    assert!(!p.fits(1 << 70));
}

#[test]
fn exponential_base() {
    let e = Exponential::new(2);
    assert_eq!(e.invoke(0), 1);
    assert_eq!(e.invoke(1), 2);
    assert_eq!(e.invoke(10), 1024);
    assert_eq!(e.invoke(-1), 0);
    assert!(e.fits(63));
    assert!(!e.fits(64));
    assert_eq!(e.rescale_factor(3), Some(8));
    assert_eq!(e.rescale_factor(127), Some(1u128 << 127));
    assert_eq!(e.rescale_factor(128), None);
}

#[test]
fn custom_function() {
    let c = Custom::new(|n: i128| if n > 0 { (n as u64) * 2 } else { 0 });
    assert_eq!(c.invoke(1), 2);
    assert_eq!(c.invoke(0), 0);
    assert_eq!(c.invoke(-1), 0);
    assert!(c.fits(5));
}

#[test]
fn age() {
    let landmark: u64 = 100;
    assert_eq!((landmark - 1).age(landmark), -1);
    assert_eq!(landmark.age(landmark), 0);
    assert_eq!((landmark + 5).age(landmark), 5);
    assert_eq!((landmark + 10).age(landmark), 10);
}

#[test]
fn item_with_value() {
    let item: (u64, i64) = (7, -3);
    assert_eq!(item.timestamp(), 7);
    assert_eq!(item.value(), -3);
    assert_eq!(item.age(10), -3);
    assert_eq!(7u64.value(), 1);
}

#[test]
fn lib_example() {
    let landmark: u64 = 1_000;
    let stream: Vec<u64> = vec![5, 7, 3, 8, 4];
    let fd = ForwardDecay::new(landmark, Polynomial::new(2));
    let now = landmark + 10;

    let result: Vec<f64> = stream
        .into_iter()
        .map(|i| landmark + i)
        .map(|i| to_f64(fd.weight(&i, now)))
        .collect();
    let weights = vec![0.25, 0.49, 0.09, 0.64, 0.16];

    assert_eq!(result, weights);
}

#[test]
fn decay_example() {
    let landmark: u64 = 50;
    let stream: Vec<u64> = vec![5, 7, 3, 8, 4];
    let fd = ForwardDecay::new(landmark, Polynomial::new(2));
    let now = landmark + 10;

    let result: Vec<f64> = stream
        .into_iter()
        .map(|i| landmark + i)
        .map(|i| to_f64(fd.weight(&i, now)))
        .collect();
    let weights = vec![0.25, 0.49, 0.09, 0.64, 0.16];

    assert_eq!(result, weights);
}

#[test]
fn weights_are_exact_ratios() {
    let fd = ForwardDecay::new(0, Polynomial::new(2));
    let w = fd.weight(&5u64, 10);
    assert_eq!((w.magnitude(), w.denominator()), (25, 100));
    assert!(!w.is_negative());
}

#[test]
fn weight_is_zero_at_or_before_landmark() {
    let fd = ForwardDecay::new(10, Polynomial::new(2));
    assert_eq!(to_f64(fd.weight(&5u64, 10)), 0.0);
    assert_eq!(to_f64(fd.weight(&12u64, 3)), 0.0);
    let none = ForwardDecay::new(5, ());
    assert_eq!(to_f64(none.weight(&3u64, 10)), 0.0);
    assert_eq!(to_f64(none.weight(&5u64, 10)), 1.0);
}

#[test]
fn weight_stays_between_zero_and_one() {
    let fd = ForwardDecay::new(0, Exponential::new(3));
    for t in 1..20u64 {
        for ti in 0..=t {
            let w = to_f64(fd.weight(&ti, t));
            assert!((0.0..=1.0).contains(&w));
        }
        assert_eq!(to_f64(fd.weight(&t, t)), 1.0);
    }
}

#[test]
fn weight_is_monotone() {
    let fd = ForwardDecay::new(0, Polynomial::new(2));
    let t = 10;
    let earlier = to_f64(fd.weight(&3u64, t));
    let later = to_f64(fd.weight(&7u64, t));
    assert!(earlier <= later);
    assert!(to_f64(fd.weight(&3u64, 20)) <= earlier);
}

#[test]
fn set_landmark_returns_signed_age() {
    let mut fd = ForwardDecay::new(10, LandmarkWindow);
    let item: u64 = 15;
    assert_eq!(to_f64(fd.weight(&item, 20)), 1.0);
    assert_eq!(fd.set_landmark(16), 6);
    assert_eq!(fd.landmark(), 16);
    assert_eq!(to_f64(fd.weight(&item, 20)), 0.0);
    assert_eq!(fd.set_landmark(4), -12);
}

#[test]
fn static_weights_and_normalizing_factor() {
    let fd = ForwardDecay::new(100, Polynomial::new(2));
    let item: (u64, i64) = (103, -4);
    assert_eq!(fd.static_weight(&item), 9);
    assert_eq!(fd.static_weighted_value(&item), -36);
    assert_eq!(fd.normalizing_factor(110), 100);
    assert!(fd.fits(110));
    assert_eq!(*fd.g(), Polynomial::new(2));
}

#[test]
fn ratio_signs() {
    let r = Ratio::from_signed(-7, 2);
    assert!(r.is_negative());
    assert_eq!(r.magnitude(), 7);
    assert_eq!(r.denominator(), 2);
    let m = Ratio::from_signed(i128::MIN, 1);
    assert_eq!(m.magnitude(), 1u128 << 127);
    let z = Ratio::from_signed(0, 0);
    assert!(!z.is_negative());
    assert!(to_f64(z).is_nan());
}

#[test]
fn decayed_value_scales_by_weight() {
    let fd = ForwardDecay::new(0, Polynomial::new(2));
    let r = fd.decayed_value(&(3u64, -3i64), 10);
    assert!(r.is_negative());
    assert_eq!((r.magnitude(), r.denominator()), (27, 100));
    assert_eq!(to_f64(fd.decayed_value(&(3u64, 5i64), 0)), 0.0);
}

#[test]
fn scaled_exponential() {
    let landmark: u64 = 100;
    let stream: Vec<u64> = vec![5, 7, 3, 8, 4];
    let mut fd = ForwardDecay::new(landmark, Exponential::new(2));

    let previous_weights: Vec<u64> = stream.iter().map(|i| fd.static_weight(&(landmark + *i))).collect();
    let age = fd.set_landmark(landmark + 1);
    let factor = fd.g().invoke(age);
    let new_weights: Vec<u64> = stream.iter().map(|i| fd.static_weight(&(landmark + *i))).collect();

    assert_eq!(age, 1);
    assert_eq!(previous_weights, vec![32, 128, 8, 256, 16]);
    assert!(new_weights.iter().zip(previous_weights).all(|(a, b)| b == a * factor));
}
