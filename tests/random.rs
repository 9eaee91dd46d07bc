use trident::random::{sampling_schedule, MWC64X, MEASUREMENTS_BLOCK, SEED_MASK};

#[test]
fn seed_is_mixed_with_mask() {
    let prng = MWC64X::new(42);
    assert_eq!(prng.state(), 42 ^ SEED_MASK);
    assert_eq!(prng.state(), 0x8ccc1d021231bb86);
}

#[test]
fn skip_burn_in_value() {
    let mut prng = MWC64X::new(42);
    prng.skip(1000);
    assert_eq!(prng.state(), 0x4304b866c5a24b27);
}

#[test]
fn skip_is_additive() {
    let mut a = MWC64X::new(42);
    a.skip(3);
    a.skip(5);
    let mut b = MWC64X::new(42);
    b.skip(8);
    assert_eq!(a.state(), b.state());
    assert_eq!(a.state(), 0x6e4532de8975e27d);
}

#[test]
fn next_steps_multiply_with_carry() {
    let mut prng = MWC64X::new(42);
    let r = prng.next();
    assert_eq!(r, 0x9efda684);
    assert_eq!(prng.state(), 0x1231a438bfc73424);
}

#[test]
fn skip_one_matches_one_step() {
    let mut a = MWC64X::new(42);
    a.skip(1000);
    let mut b = MWC64X { state: a.state() };
    a.skip(1);
    b.next();
    assert_eq!(a.state(), b.state());
    assert_eq!(a.state(), 0xc5a14e042ad8ad83);
}

#[test]
fn schedule_splits_samples_into_blocks() {
    let batches = sampling_schedule(42, 2500);
    assert_eq!(batches.len(), 3);
    assert_eq!(batches[0].take, MEASUREMENTS_BLOCK);
    assert_eq!(batches[1].take, 1024);
    assert_eq!(batches[2].take, 452);
    assert_eq!(batches[0].state, 0x8521566da2822983);
    assert_eq!(batches[1].state, 0xdb60259dd65e6b94);
    assert_eq!(batches[2].state, 0x8cb342499f82b126);
}

#[test]
fn schedule_is_reproducible() {
    assert_eq!(sampling_schedule(7, 5000), sampling_schedule(7, 5000));
    assert_ne!(sampling_schedule(7, 5000), sampling_schedule(8, 5000));
}

#[test]
fn schedule_edge_sizes() {
    assert_eq!(sampling_schedule(1, 0).len(), 0);
    let exact = sampling_schedule(1, 2048);
    assert_eq!(exact.len(), 2);
    assert_eq!(exact[1].take, 1024);
    let one = sampling_schedule(1, 1);
    assert_eq!(one.len(), 1);
    assert_eq!(one[0].take, 1);
}
