use hyperbook::book::{BookError, LOBLevel, LimitOrderBook};
use hyperbook::checksum::checksum_text;
use hyperbook::decimal::Decimal;

fn d(text: &str) -> Decimal {
    Decimal::parse(text).unwrap()
}

fn lv(price: &str, size: &str) -> LOBLevel {
    LOBLevel { price: d(price), size: d(size) }
}

#[test]
fn float_format_positional() {
    assert_eq!(d("100").float_text(), "100.0");
    assert_eq!(d("100.50").float_text(), "100.5");
    assert_eq!(d("0.0001").float_text(), "0.0001");
    assert_eq!(d("0").float_text(), "0.0");
    assert_eq!(d("-3").float_text(), "-3.0");
    assert_eq!(d("-0.005").float_text(), "-0.005");
    assert_eq!(d("12.34").float_text(), "12.34");
    assert_eq!(d("1234567890123456").float_text(), "1234567890123456.0");
}

#[test]
fn float_format_scientific() {
    assert_eq!(d("0.00005").float_text(), "5e-05");
    assert_eq!(d("-0.000015").float_text(), "-1.5e-05");
    assert_eq!(d("10000000000000000").float_text(), "1e+16");
    assert_eq!(d("12345678901234567").float_text(), "1.2345678901234567e+16");
    assert_eq!(d("0.0000000000001").float_text(), "1e-13");
}

#[test]
fn checksum_text_interleaves_best_first() {
    let bids = vec![lv("5000.5", "10"), lv("4995.0", "5")];
    let asks = vec![lv("5001.0", "6"), lv("5002.0", "7")];
    assert_eq!(
        checksum_text(&bids, &asks),
        "5000.5:10.0:5001.0:6.0:4995.0:5.0:5002.0:7.0"
    );
    assert_eq!(checksum_text(&vec![], &asks), "5001.0:6.0:5002.0:7.0");
    assert_eq!(checksum_text(&vec![], &vec![]), "");
}

#[test]
fn checksum_text_covers_one_hundred_levels() {
    let bids: Vec<LOBLevel> = (0..150).map(|i| lv(&format!("{}", 1000 - i), "1")).collect();
    let text = checksum_text(&bids, &vec![]);
    assert_eq!(text.split(':').count(), 200);
    assert!(text.ends_with("901.0:1.0"));
}

#[test]
fn book_checksum_is_crc_of_text() {
    let mut book = LimitOrderBook::new();
    book.apply_snapshot(&vec![lv("99", "1"), lv("100", "2")], &vec![lv("101", "3")]).unwrap();
    assert_eq!(book.checksum(), crc32fast::hash(b"100.0:2.0:101.0:3.0:99.0:1.0"));
}

#[test]
fn check_checksum_outcomes() {
    let mut book = LimitOrderBook::new();
    book.apply_snapshot(&vec![lv("99", "1")], &vec![lv("101", "3")]).unwrap();
    let actual = book.checksum();
    assert_eq!(book.check_checksum(actual, actual), Ok(()));
    assert_eq!(book.bid_levels().len(), 1);
    assert_eq!(book.check_checksum(actual.wrapping_add(1), actual), Err(BookError::ChecksumMismatch));
    assert!(book.bid_levels().is_empty());
    assert!(book.ask_levels().is_empty());
}
