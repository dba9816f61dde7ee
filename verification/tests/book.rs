use market_making::book::{Level, OrderBook};
use market_making::decimal::Dec;

fn lv(price: i128, volume: i128) -> Level {
    (Dec { mantissa: price, scale: 1 }, Dec { mantissa: volume, scale: 0 })
}

fn prices(levels: &[Level]) -> Vec<i128> {
    levels.iter().map(|l| l.0.mantissa).collect()
}

fn volumes(levels: &[Level]) -> Vec<i128> {
    levels.iter().map(|l| l.1.mantissa).collect()
}

#[test]
fn new_book_is_empty() {
    let book = OrderBook::new(3);
    assert_eq!(book.depth(), 3);
    let levels = book.to_levels();
    assert!(levels.bids.is_empty());
    assert!(levels.asks.is_empty());
}

#[test]
fn snapshot_keeps_best_levels_in_order() {
    let mut book = OrderBook::new(2);
    book.apply_snapshot(
        &[lv(100, 1), lv(102, 2), lv(101, 3), lv(99, 4)],
        &[lv(105, 1), lv(103, 2), lv(104, 3)],
    );
    let levels = book.to_levels();
    assert_eq!(prices(&levels.bids), vec![102, 101]);
    assert_eq!(volumes(&levels.bids), vec![2, 3]);
    assert_eq!(prices(&levels.asks), vec![103, 104]);
    assert_eq!(volumes(&levels.asks), vec![2, 3]);
}

#[test]
fn snapshot_skips_zero_volumes_and_replaces_the_book() {
    let mut book = OrderBook::new(5);
    book.apply_snapshot(&[lv(90, 1)], &[lv(95, 1)]);
    book.apply_snapshot(&[lv(100, 0), lv(99, 2)], &[]);
    let levels = book.to_levels();
    assert_eq!(prices(&levels.bids), vec![99]);
    assert!(levels.asks.is_empty());
}

#[test]
fn updates_set_and_remove_levels() {
    let mut book = OrderBook::new(3);
    book.apply_snapshot(&[lv(100, 1), lv(99, 1)], &[lv(101, 1), lv(102, 1)]);
    book.apply_updates(&[lv(100, 0), lv(98, 7), lv(99, 5)], &[lv(101, 0), lv(103, 4)]);
    let levels = book.to_levels();
    assert_eq!(prices(&levels.bids), vec![99, 98]);
    assert_eq!(volumes(&levels.bids), vec![5, 7]);
    assert_eq!(prices(&levels.asks), vec![102, 103]);
    assert_eq!(volumes(&levels.asks), vec![1, 4]);
}

#[test]
fn removing_an_absent_price_changes_nothing() {
    let mut book = OrderBook::new(3);
    book.apply_snapshot(&[lv(100, 1)], &[lv(101, 1)]);
    book.apply_updates(&[lv(50, 0)], &[lv(500, 0)]);
    let levels = book.to_levels();
    assert_eq!(prices(&levels.bids), vec![100]);
    assert_eq!(prices(&levels.asks), vec![101]);
}

#[test]
fn updates_cut_sides_to_depth() {
    let mut book = OrderBook::new(2);
    book.apply_updates(&[lv(10, 1), lv(12, 1), lv(11, 1)], &[lv(20, 1), lv(19, 1), lv(21, 1)]);
    let levels = book.to_levels();
    assert_eq!(prices(&levels.bids), vec![12, 11]);
    assert_eq!(prices(&levels.asks), vec![19, 20]);
}

#[test]
fn equal_prices_keep_the_first_written_form() {
    let mut book = OrderBook::new(3);
    let first = (Dec { mantissa: 15, scale: 1 }, Dec { mantissa: 1, scale: 0 });
    let same_value = (Dec { mantissa: 150, scale: 2 }, Dec { mantissa: 9, scale: 0 });
    book.apply_snapshot(&[first], &[]);
    book.apply_updates(&[same_value], &[]);
    let levels = book.to_levels();
    assert_eq!(levels.bids.len(), 1);
    assert_eq!(levels.bids[0].0, Dec { mantissa: 15, scale: 1 });
    assert_eq!(levels.bids[0].1, Dec { mantissa: 9, scale: 0 });
}

#[test]
fn trim_to_depth_zero_empties() {
    let mut book = OrderBook::new(0);
    book.apply_snapshot(&[lv(1, 1)], &[lv(2, 1)]);
    let levels = book.to_levels();
    assert!(levels.bids.is_empty());
    assert!(levels.asks.is_empty());
}

#[test]
fn snapshot_forgets_what_the_book_held() {
    let mut fresh = OrderBook::new(3);
    let mut used = OrderBook::new(3);
    used.apply_updates(&[lv(500, 1), lv(400, 2)], &[lv(600, 1)]);
    let snapshot_bids = [lv(100, 1), lv(101, 2)];
    let snapshot_asks = [lv(102, 3)];
    fresh.apply_snapshot(&snapshot_bids, &snapshot_asks);
    used.apply_snapshot(&snapshot_bids, &snapshot_asks);
    let (a, b) = (fresh.to_levels(), used.to_levels());
    assert_eq!(a.bids, b.bids);
    assert_eq!(a.asks, b.asks);
}

#[test]
fn cutting_again_changes_nothing() {
    let mut book = OrderBook::new(2);
    book.apply_snapshot(&[lv(1, 1), lv(2, 1), lv(3, 1)], &[lv(4, 1), lv(5, 1), lv(6, 1)]);
    let before = book.to_levels();
    book.apply_updates(&[], &[]);
    book.trim_to_depth();
    let after = book.to_levels();
    assert_eq!(before.bids, after.bids);
    assert_eq!(before.asks, after.asks);
}

#[test]
fn snapshot_twice_is_snapshot_once() {
    let mut once = OrderBook::new(2);
    let mut twice = OrderBook::new(2);
    let bids = [lv(7, 1), lv(9, 2), lv(8, 3)];
    let asks = [lv(10, 1), lv(12, 0), lv(11, 5)];
    once.apply_snapshot(&bids, &asks);
    twice.apply_snapshot(&bids, &asks);
    twice.apply_snapshot(&bids, &asks);
    let (a, b) = (once.to_levels(), twice.to_levels());
    assert_eq!(a.bids, b.bids);
    assert_eq!(a.asks, b.asks);
    assert_eq!(prices(&a.bids), vec![9, 8]);
    assert_eq!(prices(&a.asks), vec![10, 11]);
}

#[test]
fn small_snapshot_is_listed_whole_and_sorted() {
    let mut book = OrderBook::new(5);
    let bids = [lv(3, 1), lv(1, 2), lv(4, 3), lv(2, 4)];
    let asks = [lv(8, 1), lv(6, 2), lv(7, 3)];
    book.apply_snapshot(&bids, &asks);
    let levels = book.to_levels();
    let mut sorted_bids = bids.to_vec();
    sorted_bids.sort_by(|x, y| y.0.mantissa.cmp(&x.0.mantissa));
    let mut sorted_asks = asks.to_vec();
    sorted_asks.sort_by(|x, y| x.0.mantissa.cmp(&y.0.mantissa));
    assert_eq!(levels.bids, sorted_bids);
    assert_eq!(levels.asks, sorted_asks);
}

#[test]
fn published_levels_have_volume_and_order_by_value() {
    let mut book = OrderBook::new(4);
    let a = (Dec { mantissa: 15, scale: 1 }, Dec { mantissa: 1, scale: 0 });
    let b = (Dec { mantissa: 1499, scale: 3 }, Dec { mantissa: 2, scale: 0 });
    let c = (Dec { mantissa: 2, scale: 0 }, Dec { mantissa: 0, scale: 0 });
    book.apply_snapshot(&[b, a, c], &[c, b, a]);
    let levels = book.to_levels();
    assert_eq!(levels.bids, vec![a, b]);
    assert_eq!(levels.asks, vec![b, a]);
    assert!(levels.bids.iter().chain(levels.asks.iter()).all(|l| !l.1.is_zero()));
}
