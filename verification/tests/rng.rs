use everett::Rng;

#[test]
fn same_seed_same_stream() {
    let mut a = Rng::seed_from_u64(42);
    let mut b = Rng::seed_from_u64(42);
    for _ in 0..100 {
        assert_eq!(a.next_u64(), b.next_u64());
    }
}

#[test]
fn different_seeds_differ() {
    let mut a = Rng::seed_from_u64(1);
    let mut b = Rng::seed_from_u64(2);
    assert_ne!(a.next_u64(), b.next_u64());
}

// Reference values of SplitMix64 seeding followed by xoshiro256++.
#[test]
fn seed_zero_first_outputs() {
    let mut r = Rng::seed_from_u64(0);
    assert_eq!(r.next_u64(), 5987356902031041503);
    assert_eq!(r.next_u64(), 7051070477665621255);
    assert_eq!(r.next_u64(), 6633766593972829180);
}

#[test]
fn seed_forty_two_first_outputs() {
    let mut r = Rng::seed_from_u64(42);
    assert_eq!(r.next_u64(), 15021278609987233951);
    assert_eq!(r.next_u64(), 5881210131331364753);
}

#[test]
fn zero_seed_gives_a_live_stream() {
    let mut r = Rng::seed_from_u64(0);
    let outs: Vec<u64> = (0..8).map(|_| r.next_u64()).collect();
    assert!(outs.iter().any(|&v| v != 0));
}
