use trident::addressing::{control_set, pair_indices};

#[test]
fn pairs_at_stride() {
    assert_eq!(pair_indices(0, 0), (0, 1));
    assert_eq!(pair_indices(3, 0), (6, 7));
    assert_eq!(pair_indices(5, 1), (9, 11));
    assert_eq!(pair_indices(5, 2), (9, 13));
    assert_eq!(pair_indices(1, 63), (1, (1u64 << 63) + 1));
}

#[test]
fn pairs_cover_the_buffer_once() {
    for t in 0..4u8 {
        let mut seen = vec![0u32; 16];
        for i in 0..8u64 {
            let (a, b) = pair_indices(i, t);
            seen[a as usize] += 1;
            seen[b as usize] += 1;
            assert_eq!(b - a, 1 << t);
        }
        assert!(seen.iter().all(|&n| n == 1));
    }
}

#[test]
fn control_bit() {
    assert!(control_set(0b100, 2));
    assert!(!control_set(0b100, 1));
    assert!(control_set(u64::MAX, 63));
}
