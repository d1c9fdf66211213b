use csv::StringRecord;
use tsv_sample::binary64::Binary64;
use tsv_sample::error::SampleError;
use tsv_sample::selection::{Selection, Standing};
use tsv_sample::threshold::{Normalizer, ThresholdSampler, DRAWS};

fn strings(items: &[&str]) -> Vec<String> {
    items.iter().map(|s| s.to_string()).collect()
}

fn row(id: &str) -> StringRecord {
    StringRecord::from(vec![id])
}

fn second_pass(selection: Selection, n: u32, unit: u32, weights: &[u64]) -> ThresholdSampler {
    let mut first = Normalizer::new(selection, n, unit);
    for (i, weight) in weights.iter().enumerate() {
        first.observe(&row(&format!("r{}", i)), *weight).unwrap();
    }
    first.finish().ok().unwrap()
}

#[test]
fn the_total_is_the_sum_of_the_capped_masses() {
    let sampler = second_pass(Selection::new(Vec::new(), Vec::new(), 0), 2, 1000, &[100, 200, 700]);
    assert_eq!(sampler.normalizer(), 200 + 400 + 1000);
}

#[test]
fn a_row_is_accepted_below_its_threshold_only() {
    let mut sampler =
        second_pass(Selection::new(Vec::new(), Vec::new(), 0), 2, 1000, &[100, 200, 700]);
    let quarter: u32 = 1 << 30;
    let half: u32 = 1 << 31;
    assert_eq!(sampler.decide(&row("a"), 100, 0), Ok(true));
    assert_eq!(sampler.decide(&row("a"), 100, quarter - 1), Ok(true));
    assert_eq!(sampler.decide(&row("a"), 100, quarter), Ok(false));
    assert_eq!(sampler.decide(&row("b"), 200, half - 1), Ok(true));
    assert_eq!(sampler.decide(&row("b"), 200, half), Ok(false));
    assert_eq!(sampler.decide(&row("b"), 200, u32::MAX), Ok(false));
}

#[test]
fn a_threshold_above_one_accepts_every_draw() {
    let mut sampler =
        second_pass(Selection::new(Vec::new(), Vec::new(), 0), 2, 1000, &[100, 200, 700]);
    assert_eq!(sampler.decide(&row("c"), 700, 0), Ok(true));
    assert_eq!(sampler.decide(&row("c"), 700, u32::MAX), Ok(true));
    assert_eq!(sampler.decide(&row("c"), u64::MAX, u32::MAX), Ok(true));
}

#[test]
fn a_weightless_row_is_never_accepted() {
    let mut sampler = second_pass(Selection::new(Vec::new(), Vec::new(), 0), 2, 1000, &[100, 0]);
    assert_eq!(sampler.decide(&row("z"), 0, 0), Ok(false));
    assert_eq!(sampler.decide(&row("z"), 0, u32::MAX), Ok(false));
}

#[test]
fn the_expected_count_adds_up_the_chances() {
    let mut sampler =
        second_pass(Selection::new(Vec::new(), Vec::new(), 0), 2, 1000, &[100, 200, 700]);
    assert_eq!(sampler.expected(), 0);
    sampler.decide(&row("a"), 100, 5).unwrap();
    assert_eq!(sampler.expected(), 400);
    sampler.decide(&row("b"), 200, 5).unwrap();
    assert_eq!(sampler.expected(), 1200);
    sampler.decide(&row("c"), 700, 5).unwrap();
    assert_eq!(sampler.expected(), 2800);
    assert!(sampler.expected() <= 2 * sampler.normalizer());
}

#[test]
fn without_a_cut_threshold_the_expected_count_is_the_size_asked_for() {
    let weights: Vec<u64> = vec![10, 20, 30, 40, 50, 60, 70, 80];
    let mut sampler = second_pass(Selection::new(Vec::new(), Vec::new(), 0), 3, 1000, &weights);
    for weight in weights.iter() {
        sampler.decide(&row("a"), *weight, 0).unwrap();
    }
    assert_eq!(sampler.expected(), 3 * sampler.normalizer());
}

#[test]
fn uniform_weights_give_every_row_the_same_chance() {
    let unit: u32 = 1 << 20;
    let weights: Vec<u64> = vec![unit as u64; 8];
    let mut sampler = second_pass(Selection::new(Vec::new(), Vec::new(), 0), 2, unit, &weights);
    let quarter: u32 = 1 << 30;
    assert_eq!(sampler.normalizer(), 8 * (unit as u128));
    assert_eq!(sampler.decide(&row("a"), unit as u64, quarter - 1), Ok(true));
    assert_eq!(sampler.decide(&row("a"), unit as u64, quarter), Ok(false));
}

#[test]
fn a_total_of_zero_is_an_error() {
    let mut first = Normalizer::new(Selection::new(Vec::new(), Vec::new(), 0), 2, 1000);
    assert!(matches!(
        Normalizer::new(Selection::new(Vec::new(), Vec::new(), 0), 2, 1000).finish(),
        Err(SampleError::DegenerateNormalization)
    ));
    first.observe(&row("a"), 0).unwrap();
    first.observe(&row("b"), 0).unwrap();
    assert!(matches!(first.finish(), Err(SampleError::DegenerateNormalization)));
}

#[test]
fn excluded_rows_count_for_nothing_and_are_never_accepted() {
    let selection = Selection::new(strings(&["x"]), strings(&["x", "y"]), 0);
    let mut first = Normalizer::new(selection, 1, 1000);
    assert_eq!(first.observe(&row("a"), 100), Ok(true));
    assert_eq!(first.observe(&row("x"), 900), Ok(false));
    assert_eq!(first.observe(&row("y"), 900), Ok(false));
    let mut sampler = first.finish().ok().unwrap();
    assert_eq!(sampler.normalizer(), 100);
    assert_eq!(sampler.decide(&row("x"), 900, 0), Ok(false));
    assert_eq!(sampler.decide(&row("y"), 900, 0), Ok(false));
    assert_eq!(sampler.decide(&row("a"), 100, u32::MAX), Ok(true));
    assert_eq!(sampler.expected(), 100);
}

#[test]
fn a_row_without_an_identifier_stops_either_pass() {
    let mut first = Normalizer::new(Selection::new(Vec::new(), Vec::new(), 1), 1, 1000);
    assert_eq!(first.observe(&row("a"), 100), Err(SampleError::NoIdentifier));
    first.observe(&StringRecord::from(vec!["a", "b"]), 100).unwrap();
    let mut sampler = first.finish().ok().unwrap();
    assert_eq!(sampler.decide(&row("a"), 100, 0), Err(SampleError::NoIdentifier));
}

#[test]
fn a_heavier_row_is_accepted_wherever_a_lighter_one_is() {
    let others: Vec<u64> = vec![50, 150, 300];
    let draws: Vec<u32> = vec![0, 1 << 20, 1 << 28, 1 << 30, 3 << 30, u32::MAX];
    let weights: Vec<u64> = vec![0, 1, 10, 100, 400, 500, 501, 1000, 100000];
    for draw in draws.iter() {
        let mut before: bool = false;
        for weight in weights.iter() {
            let mut all: Vec<u64> = others.clone();
            all.push(*weight);
            let mut sampler = second_pass(Selection::new(Vec::new(), Vec::new(), 0), 2, 1000, &all);
            let now: bool = sampler.decide(&row("a"), *weight, *draw).unwrap();
            assert!(now || !before, "weight {} draw {}", weight, draw);
            before = now;
        }
    }
}

#[test]
fn a_draw_has_two_to_the_thirty_two_values() {
    assert_eq!(DRAWS, 1u64 << 32);
}

#[test]
fn weights_read_as_numbers_set_the_thresholds() {
    let unit: u32 = 1 << 20;
    let weights: Vec<f64> = vec![0.125, 0.25, 0.75];
    let counts: Vec<u64> =
        weights.iter().map(|w| Binary64::from_bits(w.to_bits()).to_units(unit)).collect();
    let mut sampler = second_pass(Selection::new(Vec::new(), Vec::new(), 0), 2, unit, &counts);
    let total: u128 = (unit as u128) / 4 + (unit as u128) / 2 + unit as u128;
    assert_eq!(sampler.normalizer(), total);
    let threshold: f64 = 0.125 * 2.0 / (0.125 + 0.25 + 0.5);
    let edge: u32 = (threshold * 4294967296.0) as u32;
    assert_eq!(sampler.decide(&row("a"), counts[0], edge), Ok(true));
    assert_eq!(sampler.decide(&row("a"), counts[0], edge + 1), Ok(false));
}

#[test]
fn either_pass_tells_how_a_row_stands() {
    let first = Normalizer::new(Selection::new(strings(&["a"]), strings(&["b"]), 0), 1, 10);
    assert_eq!(first.standing(&row("a")), Some(Standing::Forced));
    assert_eq!(first.standing(&row("b")), Some(Standing::Excluded));
    assert_eq!(first.standing(&row("c")), Some(Standing::Ordinary));
    assert_eq!(first.standing(&StringRecord::new()), None);
    let mut first = first;
    first.observe(&row("c"), 5).unwrap();
    let sampler = first.finish().ok().unwrap();
    assert_eq!(sampler.standing(&row("a")), Some(Standing::Forced));
    assert_eq!(sampler.standing(&row("b")), Some(Standing::Excluded));
    assert_eq!(sampler.standing(&StringRecord::new()), None);
}
