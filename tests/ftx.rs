use hyperbook::book::{BookError, LOBLevel, LimitOrderBook};
use hyperbook::decimal::Decimal;
use hyperbook::ftx::{
    DecodeError, FTXChannel, FTXMessage, FTXOperation, FeedMessage, RawBookData, RawFrame, RawLevel,
    decode_frame, market_request, parse_level, parse_levels, subscription_request,
};

fn d(text: &str) -> Decimal {
    Decimal::parse(text).unwrap()
}

fn raw(levels: &[(&str, &str)]) -> Vec<RawLevel> {
    levels
        .iter()
        .map(|(p, s)| RawLevel { price: p.to_string(), size: s.to_string() })
        .collect()
}

fn frame(kind: &str, bids: &[(&str, &str)], asks: &[(&str, &str)]) -> RawFrame {
    frame_with_checksum(kind, bids, asks, 0)
}

fn frame_with_checksum(
    kind: &str,
    bids: &[(&str, &str)],
    asks: &[(&str, &str)],
    checksum: u32,
) -> RawFrame {
    RawFrame {
        kind: Some(kind.to_string()),
        channel: Some("orderbook".to_string()),
        market: Some("BTC/USD".to_string()),
        data: Some(RawBookData {
            action: kind.to_string(),
            bids: raw(bids),
            asks: raw(asks),
            checksum,
        }),
    }
}

fn pairs(levels: &[LOBLevel]) -> Vec<(Decimal, Decimal)> {
    levels.iter().map(|l| (l.price, l.size)).collect()
}

#[test]
fn operation_names() {
    assert_eq!(FTXOperation::Subscribe.to_string(), "subscribe");
    assert_eq!(FTXOperation::Unsubscribe.to_string(), "unsubscribe");
}

#[test]
fn channel_names() {
    assert_eq!(FTXChannel::Orderbook.to_string(), "orderbook");
    assert_eq!(FTXChannel::Trades.to_string(), "trades");
    assert_eq!(FTXChannel::Ticker.to_string(), "ticker");
}

#[test]
fn message_texts() {
    assert_eq!(FTXMessage::FTXPing.to_string(), r#"{"op":"ping"}"#);
    let m = subscription_request(FTXChannel::Orderbook, "BTC", "USD");
    assert_eq!(
        m.to_string(),
        r#"{"op":"subscribe","channel":"orderbook","market":"BTC/USD"}"#
    );
    let u = FTXMessage::FTXRequest {
        operation: FTXOperation::Unsubscribe,
        channel: FTXChannel::Trades,
        market: "ETH/USD".to_string(),
    };
    assert_eq!(u.to_string(), r#"{"op":"unsubscribe","channel":"trades","market":"ETH/USD"}"#);
}

#[test]
fn level_parsing() {
    let l = parse_level("100.50", "2").unwrap();
    assert_eq!(l.price, d("100.5"));
    assert_eq!(l.size, d("2"));
    assert!(parse_level("100", "-1").is_none());
    assert!(parse_level("x", "1").is_none());
    assert!(parse_level("1", "").is_none());
    assert!(parse_levels(&raw(&[("1", "1"), ("2", "bad")])).is_none());
    assert_eq!(parse_levels(&raw(&[("1", "1"), ("2", "0")])).unwrap().len(), 2);
}

#[test]
fn decode_subscribed() {
    let f = RawFrame {
        kind: Some("subscribed".to_string()),
        channel: Some("orderbook".to_string()),
        market: Some("BTC/USD".to_string()),
        data: None,
    };
    match decode_frame(f) {
        Ok(FeedMessage::Subscribed(s)) => {
            assert_eq!(s.channel, "orderbook");
            assert_eq!(s.market, "BTC/USD");
            assert_eq!(s.kind, "subscribed");
        }
        _ => panic!("expected a subscription acknowledgement"),
    }
}

#[test]
fn decode_unknown_tag() {
    match decode_frame(frame("info", &[], &[])) {
        Err(DecodeError::UnrecognizedMessageType(t)) => assert_eq!(t, "info"),
        _ => panic!("expected an unrecognized type"),
    }
}

#[test]
fn decode_malformed() {
    let mut f = frame("partial", &[], &[]);
    f.kind = None;
    assert!(matches!(decode_frame(f), Err(DecodeError::MalformedMessage(_))));
    let mut f = frame("update", &[], &[]);
    f.data = None;
    assert!(matches!(decode_frame(f), Err(DecodeError::MalformedMessage(_))));
    let mut f = frame("update", &[], &[]);
    f.market = None;
    assert!(matches!(decode_frame(f), Err(DecodeError::MalformedMessage(_))));
    let f = frame("partial", &[("100", "abc")], &[]);
    assert!(matches!(decode_frame(f), Err(DecodeError::MalformedMessage(_))));
    let f = frame("partial", &[], &[("100", "-2")]);
    assert!(matches!(decode_frame(f), Err(DecodeError::MalformedMessage(_))));
}

#[test]
fn end_to_end_btc_usd() {
    let req = subscription_request(FTXChannel::Orderbook, "BTC", "USD");
    match &req {
        FTXMessage::FTXRequest { market, .. } => assert_eq!(market, "BTC/USD"),
        _ => panic!("expected a request"),
    }
    let mut book = LimitOrderBook::new();
    let snap = decode_frame(frame_with_checksum(
        "partial",
        &[("100", "2"), ("99", "1")],
        &[("101", "3")],
        crc32fast::hash(b"100.0:2.0:101.0:3.0:99.0:1.0"),
    ))
    .unwrap();
    assert!(matches!(snap, FeedMessage::Snapshot(_)));
    book.apply_message(&snap).unwrap();
    assert_eq!(pairs(&book.bid_levels()), vec![(d("100"), d("2")), (d("99"), d("1"))]);
    assert_eq!(pairs(&book.ask_levels()), vec![(d("101"), d("3"))]);
    let upd = decode_frame(frame_with_checksum(
        "update",
        &[("100", "0")],
        &[("101", "1"), ("102", "5")],
        crc32fast::hash(b"99.0:1.0:101.0:1.0:102.0:5.0"),
    ))
    .unwrap();
    assert!(matches!(upd, FeedMessage::Update(_)));
    book.apply_message(&upd).unwrap();
    assert_eq!(pairs(&book.bid_levels()), vec![(d("99"), d("1"))]);
    assert_eq!(pairs(&book.ask_levels()), vec![(d("101"), d("1")), (d("102"), d("5"))]);
}

#[test]
fn crossed_message_is_reported() {
    let mut book = LimitOrderBook::new();
    let snap =
        decode_frame(frame_with_checksum("partial", &[("10", "1")], &[], crc32fast::hash(b"10.0:1.0")))
            .unwrap();
    book.apply_message(&snap).unwrap();
    let upd = decode_frame(frame("update", &[], &[("9", "1")])).unwrap();
    assert_eq!(book.apply_message(&upd), Err(BookError::CrossedBook));
}

#[test]
fn checksum_mismatch_is_reported() {
    let mut book = LimitOrderBook::new();
    let snap = decode_frame(frame_with_checksum(
        "partial",
        &[("100", "2")],
        &[("101", "3")],
        crc32fast::hash(b"100.0:2.0:101.0:3.0"),
    ))
    .unwrap();
    book.apply_message(&snap).unwrap();
    let upd = decode_frame(frame_with_checksum("update", &[("99", "1")], &[], 12345)).unwrap();
    assert_eq!(book.apply_message(&upd), Err(BookError::ChecksumMismatch));
    assert!(book.bid_levels().is_empty());
    assert!(book.ask_levels().is_empty());
}

#[test]
fn subscribed_leaves_book_alone() {
    let mut book = LimitOrderBook::new();
    let snap =
        decode_frame(frame_with_checksum("partial", &[("1.5", "2")], &[], crc32fast::hash(b"1.5:2.0")))
            .unwrap();
    book.apply_message(&snap).unwrap();
    let ack = RawFrame {
        kind: Some("subscribed".to_string()),
        channel: Some("orderbook".to_string()),
        market: Some("BTC/USD".to_string()),
        data: None,
    };
    book.apply_message(&decode_frame(ack).unwrap()).unwrap();
    assert_eq!(pairs(&book.bid_levels()), vec![(d("1.5"), d("2"))]);
}

#[test]
fn unsubscribe_request_text() {
    let m = market_request(FTXOperation::Unsubscribe, FTXChannel::Orderbook, "ETH", "BTC");
    assert_eq!(
        m.to_string(),
        r#"{"op":"unsubscribe","channel":"orderbook","market":"ETH/BTC"}"#
    );
}
