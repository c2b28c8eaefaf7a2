use hyperbook::book::{BookError, LOBLevel, LimitOrderBook, OrderBookSide, is_crossed};
use hyperbook::decimal::Decimal;

fn d(text: &str) -> Decimal {
    Decimal::parse(text).unwrap()
}

fn lv(price: &str, size: &str) -> LOBLevel {
    LOBLevel { price: d(price), size: d(size) }
}

fn pairs(levels: &[LOBLevel]) -> Vec<(Decimal, Decimal)> {
    levels.iter().map(|l| (l.price, l.size)).collect()
}

#[test]
fn last_write_wins_within_one_update() {
    let mut side = OrderBookSide::new();
    side.apply_update(&vec![lv("50", "5"), lv("50", "7")]);
    assert_eq!(pairs(&side.levels), vec![(d("50"), d("7"))]);
}

#[test]
fn distinct_prices_commute() {
    let start = vec![lv("10", "1"), lv("12", "3")];
    let mut a = OrderBookSide::from_snapshot(&start);
    let mut b = OrderBookSide::from_snapshot(&start);
    a.apply_update(&vec![lv("11", "2"), lv("12", "0")]);
    b.apply_update(&vec![lv("12", "0"), lv("11", "2")]);
    assert_eq!(pairs(&a.levels), pairs(&b.levels));
    assert_eq!(pairs(&a.levels), vec![(d("10"), d("1")), (d("11"), d("2"))]);
}

#[test]
fn removing_absent_price_is_a_noop() {
    let mut side = OrderBookSide::from_snapshot(&vec![lv("10", "1"), lv("11", "2")]);
    let before = pairs(&side.levels);
    side.apply_update(&vec![lv("10.5", "0")]);
    assert_eq!(pairs(&side.levels), before);
}

#[test]
fn no_zero_size_entries_after_updates() {
    let mut side = OrderBookSide::from_snapshot(&vec![lv("1", "0"), lv("2", "4"), lv("3", "0.000")]);
    assert_eq!(pairs(&side.levels), vec![(d("2"), d("4"))]);
    side.apply_update(&vec![lv("2", "0"), lv("5", "1"), lv("6", "0"), lv("5", "0.0")]);
    assert!(side.levels.is_empty());
    side.apply_update(&vec![lv("7", "2"), lv("4", "1")]);
    assert!(side.levels.iter().all(|l| !l.size.is_zero()));
    assert_eq!(pairs(&side.levels), vec![(d("4"), d("1")), (d("7"), d("2"))]);
}

#[test]
fn snapshot_discards_prior_state() {
    let mut a = LimitOrderBook::new();
    let mut b = LimitOrderBook::new();
    a.apply_snapshot(&vec![lv("90", "1"), lv("95", "2")], &vec![lv("120", "1")]).unwrap();
    let snap_bids = vec![lv("100", "2"), lv("99", "1")];
    let snap_asks = vec![lv("101", "3")];
    a.apply_snapshot(&snap_bids, &snap_asks).unwrap();
    b.apply_snapshot(&snap_bids, &snap_asks).unwrap();
    let upd_bids = vec![lv("98", "4")];
    let upd_asks = vec![lv("101", "0"), lv("103", "1")];
    a.apply_update(&upd_bids, &upd_asks).unwrap();
    b.apply_update(&upd_bids, &upd_asks).unwrap();
    assert_eq!(pairs(&a.bid_levels()), pairs(&b.bid_levels()));
    assert_eq!(pairs(&a.ask_levels()), pairs(&b.ask_levels()));
    assert_eq!(
        pairs(&a.bid_levels()),
        vec![(d("100"), d("2")), (d("99"), d("1")), (d("98"), d("4"))]
    );
    assert_eq!(pairs(&a.ask_levels()), vec![(d("103"), d("1"))]);
}

#[test]
fn crossed_update_is_reported() {
    let mut book = LimitOrderBook::new();
    book.apply_snapshot(&vec![lv("10", "1")], &vec![]).unwrap();
    let r = book.apply_update(&vec![], &vec![lv("9", "1")]);
    assert_eq!(r, Err(BookError::CrossedBook));
    assert!(book.bid_levels().is_empty());
    assert!(book.ask_levels().is_empty());
}

#[test]
fn equal_best_prices_are_crossed() {
    let mut book = LimitOrderBook::new();
    let r = book.apply_snapshot(&vec![lv("10", "1")], &vec![lv("10.0", "2")]);
    assert_eq!(r, Err(BookError::CrossedBook));
}

#[test]
fn uncrossed_book_is_accepted() {
    let bids = OrderBookSide::from_snapshot(&vec![lv("9.99", "1"), lv("9.5", "1")]);
    let asks = OrderBookSide::from_snapshot(&vec![lv("10", "1"), lv("11", "1")]);
    assert!(!is_crossed(&bids, &asks));
    assert!(is_crossed(&asks, &bids));
    assert!(!is_crossed(&OrderBookSide::new(), &asks));
}

#[test]
fn bids_descend_and_asks_ascend() {
    let mut book = LimitOrderBook::new();
    book.apply_snapshot(
        &vec![lv("99", "1"), lv("100", "2"), lv("98.5", "3")],
        &vec![lv("102", "5"), lv("101", "3")],
    )
    .unwrap();
    assert_eq!(
        pairs(&book.bid_levels()),
        vec![(d("100"), d("2")), (d("99"), d("1")), (d("98.5"), d("3"))]
    );
    assert_eq!(pairs(&book.ask_levels()), vec![(d("101"), d("3")), (d("102"), d("5"))]);
}

#[test]
fn snapshot_keeps_later_level_at_same_price() {
    let side = OrderBookSide::from_snapshot(&vec![lv("5", "3"), lv("5", "0"), lv("6", "1"), lv("6", "2")]);
    assert_eq!(pairs(&side.levels), vec![(d("5"), d("3")), (d("6"), d("2"))]);
}
