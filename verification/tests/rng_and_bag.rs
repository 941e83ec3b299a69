use chotto::bag::ShuffleBag;
use chotto::rng::XorShiftRng;

#[test]
fn rng_is_deterministic_per_seed() {
    let mut a = XorShiftRng::new_from_seed(1234);
    let mut b = XorShiftRng::new_from_seed(1234);
    for _ in 0..10 {
        assert_eq!(a.next_u64(), b.next_u64());
    }
    let mut c = XorShiftRng::new_from_seed(1235);
    let first: Vec<u64> = (0..4).map(|_| XorShiftRng::new_from_seed(1234).next_u64()).collect();
    assert!(first.iter().all(|v| *v == first[0]));
    assert_ne!(XorShiftRng::new_from_seed(1234).next_u64(), c.next_u64());
}

#[test]
fn rng_zero_seed_still_steps() {
    let mut r = XorShiftRng::new_from_seed(0);
    let x = r.next_u64();
    let y = r.next_u64();
    assert_ne!(x, 0);
    assert_ne!(x, y);
}

#[test]
fn next_below_stays_below_bound() {
    let mut r = XorShiftRng::new_from_seed(99);
    for bound in [1usize, 2, 7, 360360] {
        for _ in 0..50 {
            assert!(r.next_below(bound) < bound);
        }
    }
}

#[test]
fn bag_pass_is_a_permutation() {
    let mut rng = XorShiftRng::new_from_seed(7);
    let mut bag = ShuffleBag::new(5);
    let mut first_pass: Vec<usize> = (0..5).map(|_| bag.get_next(&mut rng)).collect();
    first_pass.sort();
    assert_eq!(first_pass, vec![0, 1, 2, 3, 4]);
    let mut second_pass: Vec<usize> = (0..5).map(|_| bag.get_next(&mut rng)).collect();
    second_pass.sort();
    assert_eq!(second_pass, vec![0, 1, 2, 3, 4]);
}

#[test]
fn bag_reset_restarts_the_pass() {
    let mut rng = XorShiftRng::new_from_seed(21);
    let mut bag = ShuffleBag::new(4);
    let _ = bag.get_next(&mut rng);
    let _ = bag.get_next(&mut rng);
    bag.reset();
    let mut pass: Vec<usize> = (0..4).map(|_| bag.get_next(&mut rng)).collect();
    pass.sort();
    assert_eq!(pass, vec![0, 1, 2, 3]);
}
