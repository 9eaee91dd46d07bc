use std::time::Duration;
use trident::measure::{Measurement, Measurements};

#[test]
fn counts_are_ranked() {
    let states = vec![3, 1, 3, 2, 1, 3, 0, 2];
    let m = Measurements::new(Duration::from_millis(12), 2, 8, &states);
    assert_eq!(
        m.measures,
        vec![
            Measurement { state: 3, count: 3 },
            Measurement { state: 1, count: 2 },
            Measurement { state: 2, count: 2 },
            Measurement { state: 0, count: 1 },
        ]
    );
    assert_eq!(m.duration(), Duration::from_millis(12));
    assert_eq!(m.samples, 8);
}

#[test]
fn n_most_takes_the_top() {
    let states = vec![5, 5, 7, 7, 7, 1];
    let m = Measurements::new(Duration::from_secs(0), 3, 6, &states);
    assert_eq!(m.n_most(2), vec![7, 5]);
    assert_eq!(m.n_most(10), vec![7, 5, 1]);
    assert_eq!(m.n_most(0), Vec::<u64>::new());
}

#[test]
fn no_samples_no_measures() {
    let m = Measurements::new(Duration::from_secs(1), 1, 0, &[]);
    assert!(m.measures.is_empty());
    assert!(m.n_most(3).is_empty());
}
