use fermentation::g::Exponential;
use fermentation::space_saving::{BTreeSpaceSaving, Count};
use fermentation::ForwardDecay;

fn counter(capacity: usize) -> BTreeSpaceSaving<()> {
    BTreeSpaceSaving::new(capacity, ForwardDecay::new(0, ()))
}

fn feed(ss: &mut BTreeSpaceSaving<()>, stream: &str) {
    for (t, token) in stream.split_whitespace().enumerate() {
        ss.hit(token.to_string(), t as u64 + 1);
    }
}

fn to_f64(r: fermentation::Ratio) -> f64 {
    r.magnitude() as f64 / r.denominator() as f64
}

fn keys(list: &[String]) -> Vec<&str> {
    list.iter().map(|k| k.as_str()).collect()
}

#[test]
fn tracks_the_heaviest_keys() {
    let mut ss = counter(2);
    feed(&mut ss, "a a b c c c");
    let top = ss.top(2).unwrap_err();
    assert!(top.len() <= 2);
    assert!(top.iter().all(|k| ["a", "b", "c"].contains(&k.as_str())));
    assert_eq!(top[0], "c");
    assert_eq!(keys(&top), vec!["c", "a"]);
}

#[test]
fn eviction_inherits_count_as_error() {
    let mut ss = counter(2);
    assert_eq!(ss.hit("a".to_string(), 1), Count { count: 1, error: 0 });
    assert_eq!(ss.hit("a".to_string(), 2), Count { count: 2, error: 0 });
    assert_eq!(ss.hit("b".to_string(), 3), Count { count: 1, error: 0 });
    assert_eq!(ss.hit("c".to_string(), 4), Count { count: 2, error: 1 });
    assert!(ss.get(&"b".to_string(), 5).is_none());
    let (count, error) = ss.get(&"c".to_string(), 5).unwrap();
    assert_eq!((count.magnitude(), count.denominator()), (2, 1));
    assert_eq!((error.magnitude(), error.denominator()), (1, 1));
}

#[test]
fn top_is_guaranteed_when_bounds_separate() {
    let mut ss = counter(2);
    feed(&mut ss, "a a b c c c");
    assert_eq!(keys(&ss.top(1).unwrap()), vec!["c"]);
    assert_eq!(keys(&ss.top(0).unwrap()), Vec::<&str>::new());
}

#[test]
fn top_without_a_next_counter_is_not_guaranteed() {
    let mut ss = counter(3);
    feed(&mut ss, "x x y");
    assert_eq!(keys(&ss.top(2).unwrap_err()), vec!["x", "y"]);
    assert_eq!(keys(&ss.top(5).unwrap_err()), vec!["x", "y"]);
}

#[test]
fn top_with_overlapping_bounds_is_not_guaranteed() {
    let mut ss = counter(2);
    feed(&mut ss, "a b c");
    assert_eq!(keys(&ss.top(1).unwrap()), vec!["c"]);
    feed(&mut ss, "d");
    let top = ss.top(1).unwrap_err();
    assert_eq!(top.len(), 1);
}

#[test]
fn frequent_keys_above_threshold() {
    let mut ss = counter(2);
    feed(&mut ss, "a a b c c c");
    assert_eq!(keys(&ss.frequent(1, 4).unwrap()), vec!["c"]);
    assert_eq!(keys(&ss.frequent(1, 10).unwrap()), vec!["c", "a"]);
    assert_eq!(keys(&ss.frequent(1, 1).unwrap()), Vec::<&str>::new());
    assert_eq!(keys(&ss.frequent(u64::MAX, 1).unwrap()), Vec::<&str>::new());
}

#[test]
fn frequent_with_inherited_error_is_not_guaranteed() {
    let mut ss = counter(1);
    feed(&mut ss, "a b");
    assert_eq!(keys(&ss.frequent(1, 4).unwrap_err()), vec!["b"]);
}

#[test]
fn hits_total_every_weight() {
    let mut ss = counter(2);
    feed(&mut ss, "a a b c c c");
    let hits = ss.hits(10);
    assert_eq!((hits.magnitude(), hits.denominator()), (6, 1));
    assert_eq!(ss.static_hits(), 6);
    assert_eq!(ss.capacity(), 2);
    assert_eq!(ss.decay().landmark(), 0);
    assert_eq!(ss.landmark(), 0);
}

#[test]
fn decayed_hits_and_rescale() {
    let mut ss = BTreeSpaceSaving::new(4, ForwardDecay::new(0, Exponential::new(2)));
    ss.hit("x".to_string(), 3);
    ss.hit("x".to_string(), 3);
    ss.hit("y".to_string(), 4);
    assert_eq!(ss.static_hits(), 32);
    let (count, _) = ss.get(&"x".to_string(), 5).unwrap();
    assert_eq!((count.magnitude(), count.denominator()), (16, 32));
    ss.update_landmark(2);
    assert_eq!(ss.landmark(), 2);
    assert_eq!(ss.decay().landmark(), 2);
    assert_eq!(ss.static_hits(), 8);
    let (count, error) = ss.get(&"x".to_string(), 5).unwrap();
    assert_eq!((count.magnitude(), count.denominator()), (4, 8));
    assert_eq!(error.magnitude(), 0);
    assert_eq!(to_f64(ss.hits(5)), 1.0);
    ss.update_landmark(0);
    assert_eq!(ss.landmark(), 0);
    assert_eq!(ss.static_hits(), 8);
    ss.update_landmark(10);
    assert_eq!(ss.decay().landmark(), 3);
    assert_eq!(ss.static_hits(), 4);
    assert_eq!(to_f64(ss.hits(5)), 1.0);
}

#[test]
fn rescale_matches_fresh_counter() {
    let mut ss = BTreeSpaceSaving::new(1, ForwardDecay::new(0, Exponential::new(2)));
    ss.hit("x".to_string(), 0);
    ss.hit("x".to_string(), 0);
    ss.update_landmark(1);
    let mut fresh = BTreeSpaceSaving::new(1, ForwardDecay::new(1, Exponential::new(2)));
    fresh.hit("x".to_string(), 0);
    fresh.hit("x".to_string(), 0);
    assert_eq!(to_f64(ss.hits(1)), 1.0);
    assert_eq!(to_f64(fresh.hits(1)), 1.0);
}

#[test]
fn rescale_keeps_counts_and_errors_exact() {
    let mut ss = BTreeSpaceSaving::new(1, ForwardDecay::new(0, Exponential::new(2)));
    ss.hit("a".to_string(), 0);
    assert_eq!(ss.hit("b".to_string(), 1), Count { count: 3, error: 1 });
    ss.update_landmark(1);
    let (count, error) = ss.get(&"b".to_string(), 1).unwrap();
    assert_eq!(to_f64(count), 1.5);
    assert_eq!(to_f64(error), 0.5);
    let mut fresh = BTreeSpaceSaving::new(1, ForwardDecay::new(1, Exponential::new(2)));
    fresh.hit("a".to_string(), 0);
    fresh.hit("b".to_string(), 1);
    let (count, error) = fresh.get(&"b".to_string(), 1).unwrap();
    assert_eq!(to_f64(count), 1.5);
    assert_eq!(to_f64(error), 0.5);
}

fn exact_counts(tokens: &[&str]) -> std::collections::HashMap<String, u128> {
    let mut exact = std::collections::HashMap::new();
    for t in tokens {
        *exact.entry(t.to_string()).or_insert(0u128) += 1;
    }
    exact
}

#[test]
fn error_bounds_hold_after_every_hit() {
    let stream = "a b a c d a e b b f a g b h a i b a j b".split_whitespace().collect::<Vec<_>>();
    let mut ss = counter(3);
    for (n, token) in stream.iter().enumerate() {
        ss.hit(token.to_string(), n as u64);
        let exact = exact_counts(&stream[..=n]);
        for (key, truth) in &exact {
            if let Some((count, error)) = ss.get(key, n as u64) {
                assert!(count.magnitude() - error.magnitude() <= *truth);
                assert!(*truth <= count.magnitude());
            }
        }
    }
}

#[test]
fn guaranteed_answers_match_exact_counts() {
    let stream = "a a a b b a c b a d a b e b a".split_whitespace().collect::<Vec<_>>();
    let mut ss = counter(4);
    for (n, token) in stream.iter().enumerate() {
        ss.hit(token.to_string(), n as u64);
    }
    let exact = exact_counts(&stream);
    let top = ss.top(2).unwrap();
    assert_eq!(keys(&top), vec!["a", "b"]);
    for (key, truth) in &exact {
        if !top.contains(key) {
            assert!(top.iter().all(|t| exact[t] >= *truth));
        }
    }
    let frequent = ss.frequent(1, 4).unwrap();
    let threshold = (stream.len() as u128 + 3) / 4;
    for (key, truth) in &exact {
        assert_eq!(frequent.contains(key), *truth > threshold);
    }
}

#[test]
fn frequent_misses_evicted_keys_when_every_slot_is_listed() {
    let mut ss = counter(1);
    feed(&mut ss, "a a b b b");
    assert_eq!(keys(&ss.frequent(1, 5).unwrap()), vec!["b"]);
}

#[test]
fn inherited_error_is_bounded_by_total_over_capacity() {
    let mut ss = counter(3);
    feed(&mut ss, "a a a b b c c c c");
    let before = ss.static_hits();
    let taken = ss.hit("d".to_string(), 20);
    assert_eq!(taken, Count { count: 3, error: 2 });
    assert!(taken.error * ss.capacity() as u128 <= before);
}

#[test]
fn rescale_divides_counts_and_errors_exactly() {
    let mut ss = BTreeSpaceSaving::new(1, ForwardDecay::new(0, Exponential::new(2)));
    ss.hit("a".to_string(), 2);
    assert_eq!(ss.hit("b".to_string(), 3), Count { count: 12, error: 4 });
    ss.update_landmark(5);
    assert_eq!(ss.decay().landmark(), 2);
    assert_eq!(ss.static_hits(), 3);
    let (count, error) = ss.get(&"b".to_string(), 3).unwrap();
    assert_eq!((count.magnitude(), count.denominator()), (3, 2));
    assert_eq!((error.magnitude(), error.denominator()), (1, 2));
    let mut fresh = BTreeSpaceSaving::new(1, ForwardDecay::new(5, Exponential::new(2)));
    fresh.hit("a".to_string(), 2);
    fresh.hit("b".to_string(), 3);
    let (count, error) = fresh.get(&"b".to_string(), 3).unwrap();
    assert_eq!(to_f64(count), 1.5);
    assert_eq!(to_f64(error), 0.5);
}
