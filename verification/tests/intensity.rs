use market_making::intensity::{arrival_tick_counts, calibration_due};

#[test]
fn counts_arrivals_beyond_each_tick() {
    // ticks 3, 1, 3 and 0: beyond tick 0 lie 3 arrivals, beyond 1 two, beyond 2 two.
    assert_eq!(arrival_tick_counts(&[3, 1, 3, 0], 10), vec![3, 2, 2]);
}

#[test]
fn skips_ticks_outside_the_range() {
    assert_eq!(arrival_tick_counts(&[-1, 2, 7, 5], 5), vec![2, 2, 1, 1, 1]);
    // a tick equal to the limit is counted
    assert_eq!(arrival_tick_counts(&[4], 4), vec![1, 1, 1, 1]);
}

#[test]
fn no_counted_ticks_give_no_counts() {
    assert_eq!(arrival_tick_counts(&[], 10), Vec::<usize>::new());
    assert_eq!(arrival_tick_counts(&[0, 0, -3], 10), Vec::<usize>::new());
    assert_eq!(arrival_tick_counts(&[1, 2], -1), Vec::<usize>::new());
}

#[test]
fn counts_do_not_grow() {
    let counts = arrival_tick_counts(&[9, 4, 4, 1, 6, 2, 8], 100);
    assert_eq!(counts.len(), 9);
    assert!(counts.windows(2).all(|w| w[0] >= w[1]));
    assert_eq!(counts[8], 1);
    assert_eq!(counts[0], 7);
}

#[test]
fn calibration_every_fifty_steps_once_buffer_is_full() {
    assert!(!calibration_due(0, 100));
    assert!(!calibration_due(50, 100));
    assert!(calibration_due(100, 100));
    assert!(!calibration_due(101, 100));
    assert!(calibration_due(0, 1));
    assert!(calibration_due(150, 51));
    assert!(!calibration_due(49, 50));
}

#[test]
fn order_of_ticks_does_not_matter() {
    let ticks = [5, -2, 3, 11, 3, 0, 8];
    let mut reversed = ticks;
    reversed.reverse();
    let shuffled = [3, 8, 0, 5, 11, 3, -2];
    let expected = arrival_tick_counts(&ticks, 10);
    assert_eq!(arrival_tick_counts(&reversed, 10), expected);
    assert_eq!(arrival_tick_counts(&shuffled, 10), expected);
    assert_eq!(expected, vec![4, 4, 4, 2, 2, 1, 1, 1]);
}
