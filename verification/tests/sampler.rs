use chotto::arrangements::get_all_possible_arrangements_of_size_k;
use chotto::rng::XorShiftRng;
use chotto::sampler::{ColumnSampler, StepOutcome};
use chotto::similarity::count_matching_cells;

fn universe(pool: &[i32], k: usize) -> Vec<Vec<i32>> {
    get_all_possible_arrangements_of_size_k(k, pool).unwrap()
}

/// Pool {1,2,3} with k = 1: after the three singleton arrangements are
/// exhausted at tolerance 0, one escalation to tolerance 1 lets every
/// further draw through, and the run completes.
#[test]
fn singleton_pool_escalates_once_then_accepts_everything() {
    let mut rng = XorShiftRng::new_from_seed(2024);
    let mut sampler = ColumnSampler::new(universe(&[1, 2, 3], 1), 10);
    let mut outcomes: Vec<StepOutcome> = Vec::new();
    loop {
        let o = sampler.step(&mut rng);
        if o == StepOutcome::Complete {
            break;
        }
        outcomes.push(o);
    }
    let accepted = sampler.accepted_arrangements();
    assert_eq!(accepted.len(), 10);
    // the first pass accepts the three distinct singletons at tolerance 0
    assert_eq!(outcomes[0], StepOutcome::Accepted);
    assert_eq!(outcomes[1], StepOutcome::Accepted);
    assert_eq!(outcomes[2], StepOutcome::Accepted);
    let mut first: Vec<i32> = accepted[..3].iter().map(|a| a[0]).collect();
    first.sort();
    assert_eq!(first, vec![1, 2, 3]);
    // then a whole fruitless pass: two rejections and the escalating third
    assert_eq!(outcomes[3], StepOutcome::Rejected);
    assert_eq!(outcomes[4], StepOutcome::Rejected);
    assert_eq!(outcomes[5], StepOutcome::Escalated);
    // at tolerance 1 = k every subsequent draw is accepted
    assert_eq!(outcomes.len(), 13);
    for o in &outcomes[6..] {
        assert_eq!(*o, StepOutcome::Accepted);
    }
    assert_eq!(sampler.tolerance, 1);
}

/// A request larger than the universe forces the tolerance to rise before
/// completion.
#[test]
fn oversized_request_escalates_tolerance() {
    let mut rng = XorShiftRng::new_from_seed(5);
    let mut sampler = ColumnSampler::new(universe(&[1, 2, 3], 1), 10);
    sampler.run(&mut rng);
    assert_eq!(sampler.accepted_arrangements().len(), 10);
    assert!(sampler.tolerance >= 1);
}

/// Any two accepted arrangements match in at most the larger tolerance in
/// force when each was accepted, so never in more cells than the final
/// tolerance.
#[test]
fn accepted_arrangements_stay_diverse() {
    let mut rng = XorShiftRng::new_from_seed(77);
    let mut sampler = ColumnSampler::new(universe(&[1, 2, 3, 4, 5], 3), 20);
    sampler.run(&mut rng);
    let accepted = sampler.accepted_arrangements();
    assert_eq!(accepted.len(), 20);
    for (i, a) in accepted.iter().enumerate() {
        for b in &accepted[i + 1..] {
            assert!(count_matching_cells(a, b) <= sampler.tolerance);
        }
    }
}

/// Requesting exactly the universe size: every arrangement is accepted
/// exactly once, and the tolerance stays below the arrangement length, so
/// no duplicate is ever accepted.
#[test]
fn full_universe_request_accepts_each_arrangement_once() {
    let uni = universe(&[1, 2, 3, 4, 5], 3);
    let size = uni.len();
    assert_eq!(size, 60);
    let mut rng = XorShiftRng::new_from_seed(11);
    let mut sampler = ColumnSampler::new(uni.clone(), size);
    sampler.run(&mut rng);
    let mut accepted = sampler.accepted_arrangements();
    assert!(sampler.tolerance < 3);
    accepted.sort();
    let mut expected = uni;
    expected.sort();
    assert_eq!(accepted, expected);
}

/// Identical seed and inputs give identical accepted sequences.
#[test]
fn identical_seeds_reproduce_the_run() {
    let pool = [1, 2, 3, 4, 5, 6];
    let mut first = ColumnSampler::new(universe(&pool, 3), 15);
    let mut second = ColumnSampler::new(universe(&pool, 3), 15);
    let mut rng_a = XorShiftRng::new_from_seed(31337);
    let mut rng_b = XorShiftRng::new_from_seed(31337);
    first.run(&mut rng_a);
    second.run(&mut rng_b);
    assert_eq!(first.accepted_arrangements(), second.accepted_arrangements());
    let mut third = ColumnSampler::new(universe(&pool, 3), 15);
    let mut rng_c = XorShiftRng::new_from_seed(31338);
    third.run(&mut rng_c);
    assert_eq!(third.accepted_arrangements().len(), 15);
}
