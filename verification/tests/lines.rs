use csv::StringRecord;
use std::cmp::Ordering;
use tsv_sample::binary64::Binary64;
use tsv_sample::line::Line;
use tsv_sample::reservoir::Reservoir;

fn line(id: &str, key: f64, sequence: usize) -> Line {
    Line {
        record: StringRecord::from(vec![id]),
        weight: Binary64::one(),
        draw: Binary64::from_bits(0.5f64.to_bits()),
        key: Binary64::from_bits(key.to_bits()),
        sequence,
    }
}

fn ids(lines: &Vec<Line>) -> Vec<String> {
    let mut out: Vec<String> = lines.iter().map(|l| l.record.get(0).unwrap().to_string()).collect();
    out.sort();
    out
}

#[test]
fn the_smaller_key_is_the_greater_line() {
    let low = line("low", -2.0, 0);
    let high = line("high", -1.0, 1);
    assert_eq!(low.cmp(&high), Ordering::Greater);
    assert_eq!(high.cmp(&low), Ordering::Less);
    assert_eq!(low.cmp(&low), Ordering::Equal);
    assert_eq!(low.partial_cmp(&high), Some(Ordering::Greater));
    assert!(low.goes_before(&high));
    assert!(!high.goes_before(&low));
}

#[test]
fn of_two_lines_with_equal_keys_the_earlier_is_the_greater() {
    let a = line("a", -1.0, 0);
    let b = line("b", -1.0, 7);
    assert_eq!(a.cmp(&b), Ordering::Greater);
    assert_eq!(b.cmp(&a), Ordering::Less);
    assert_eq!(a.order(&b, true), Ordering::Greater);
    assert_eq!(a.order(&b, false), Ordering::Greater);
    assert_eq!(a.partial_cmp(&b), Some(Ordering::Greater));
    assert!(a.goes_before(&b));
    assert!(!b.goes_before(&a));
    let zero = line("z", 0.0, 1);
    let negative_zero = line("n", -0.0, 2);
    assert_eq!(zero.cmp(&negative_zero), Ordering::Greater);
    assert_eq!(a.cmp(&line("c", -1.0, 0)), Ordering::Equal);
}

#[test]
fn the_coin_turns_the_order_of_an_ambiguous_pair() {
    let a = line("a", f64::NAN, 3);
    let b = line("b", -1.0, 5);
    assert_eq!(a.order(&b, false), Ordering::Less);
    assert_eq!(a.order(&b, true), Ordering::Greater);
    assert_eq!(b.order(&a, false), Ordering::Greater);
    assert_eq!(b.order(&a, true), Ordering::Less);
}

#[test]
fn the_coin_does_not_matter_to_keys_that_compare() {
    let a = line("a", -3.0, 3);
    let b = line("b", f64::INFINITY, 5);
    assert_eq!(a.order(&b, false), Ordering::Greater);
    assert_eq!(a.order(&b, true), Ordering::Greater);
}

#[test]
fn an_ambiguous_pair_is_ordered_one_way_or_the_other() {
    let a = line("a", f64::NAN, 3);
    let b = line("b", f64::NAN, 5);
    for _ in 0..50 {
        let order = a.cmp(&b);
        assert!(order == Ordering::Less || order == Ordering::Greater);
        assert_eq!(a.partial_cmp(&b).is_some(), true);
    }
}

#[test]
fn a_reservoir_keeps_the_largest_keys() {
    let mut reservoir = Reservoir::new(3);
    let keys: Vec<f64> = vec![-5.0, -1.0, -7.0, -0.5, -3.0, -9.0, -0.25, -4.0];
    let mut evicted: Vec<f64> = Vec::new();
    for (i, key) in keys.iter().enumerate() {
        if let Some(out) = reservoir.offer(line(&format!("r{}", i), *key, i)) {
            evicted.push(f64::from_bits(out.key.to_bits()));
        }
    }
    assert_eq!(reservoir.len(), 3);
    assert_eq!(reservoir.capacity(), 3);
    assert!(!reservoir.ambiguous());
    assert_eq!(evicted, vec![-7.0, -5.0, -9.0, -3.0, -4.0]);
    let held = reservoir.into_lines();
    assert_eq!(ids(&held), vec!["r1".to_string(), "r3".to_string(), "r6".to_string()]);
}

#[test]
fn a_reservoir_below_its_limit_evicts_nothing() {
    let mut reservoir = Reservoir::new(4);
    assert_eq!(reservoir.offer(line("a", -1.0, 0)), None);
    assert_eq!(reservoir.offer(line("b", -2.0, 1)), None);
    assert_eq!(reservoir.len(), 2);
}

#[test]
fn a_reservoir_without_room_hands_every_line_back() {
    let mut reservoir = Reservoir::new(0);
    let out = reservoir.offer(line("a", -1.0, 0));
    assert_eq!(out, Some(line("a", -1.0, 0)));
    assert_eq!(reservoir.len(), 0);
}

#[test]
fn a_full_reservoir_hands_a_smaller_newcomer_back() {
    let mut reservoir = Reservoir::new(1);
    assert_eq!(reservoir.offer(line("a", -1.0, 0)), None);
    assert_eq!(reservoir.offer(line("b", -2.0, 1)), Some(line("b", -2.0, 1)));
    assert_eq!(reservoir.offer(line("c", -0.5, 2)), Some(line("a", -1.0, 0)));
    assert_eq!(ids(&reservoir.into_lines()), vec!["c".to_string()]);
}

#[test]
fn a_reservoir_of_many_lines_keeps_the_top() {
    let mut reservoir = Reservoir::new(10);
    let mut state: u64 = 12345;
    let mut keys: Vec<f64> = Vec::new();
    for i in 0..500usize {
        state = state.wrapping_mul(6364136223846793005).wrapping_add(1442695040888963407);
        let key: f64 = -((state >> 11) as f64);
        keys.push(key);
        reservoir.offer(line("x", key, i));
    }
    keys.sort_by(|a, b| b.partial_cmp(a).unwrap());
    let mut held: Vec<f64> =
        reservoir.into_lines().iter().map(|l| f64::from_bits(l.key.to_bits())).collect();
    held.sort_by(|a, b| b.partial_cmp(a).unwrap());
    assert_eq!(held, keys[..10].to_vec());
}

#[test]
fn a_nan_key_marks_the_reservoir_ambiguous() {
    let mut reservoir = Reservoir::new(2);
    reservoir.offer(line("a", -1.0, 0));
    assert!(!reservoir.ambiguous());
    reservoir.offer(line("b", f64::NAN, 1));
    assert!(reservoir.ambiguous());
    reservoir.offer(line("c", -2.0, 2));
    assert!(reservoir.ambiguous());
    assert_eq!(reservoir.len(), 2);
}

#[test]
fn among_equal_keys_the_earliest_line_is_evicted() {
    let mut reservoir = Reservoir::new(2);
    assert_eq!(reservoir.offer(line("a", -1.0, 0)), None);
    assert_eq!(reservoir.offer(line("b", -1.0, 1)), None);
    assert_eq!(reservoir.offer(line("c", -1.0, 2)), Some(line("a", -1.0, 0)));
    assert_eq!(reservoir.offer(line("d", -1.0, 3)), Some(line("b", -1.0, 1)));
    assert_eq!(reservoir.offer(line("e", -2.0, 4)), Some(line("e", -2.0, 4)));
    assert_eq!(ids(&reservoir.into_lines()), vec!["c".to_string(), "d".to_string()]);
}
