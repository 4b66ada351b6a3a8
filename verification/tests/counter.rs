use pantograph::counter::{distance, next, step};

#[test]
fn distance_counts_steps() {
    assert_eq!(distance(3, 10), 7);
    assert_eq!(distance(10, 10), 0);
}

#[test]
fn distance_wraps_around() {
    assert_eq!(distance(u32::MAX, 1), 2);
    assert_eq!(distance(1, 0), u32::MAX);
}

#[test]
fn next_wraps_around() {
    assert_eq!(next(41), 42);
    assert_eq!(next(u32::MAX), 0);
}

#[test]
fn next_is_one_step_away() {
    for seq in [0, 1, 1 << 31, u32::MAX - 1, u32::MAX] {
        assert_eq!(distance(seq, next(seq)), 1);
    }
}

#[test]
fn step_goes_round_the_slots() {
    assert_eq!(step(0, 3), 1);
    assert_eq!(step(1, 3), 2);
    assert_eq!(step(2, 3), 0);
    assert_eq!(step(0, 1), 0);
    assert_eq!(step(u32::MAX - 1, u32::MAX), 0);
}
