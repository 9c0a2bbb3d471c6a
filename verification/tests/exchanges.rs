use obmerge::exchanges::obbinance::{binance_endpoint, binance_url, BinanceBook, BinanceFeed, BinanceMessage};
use obmerge::exchanges::obbitstamp::{
    bitstamp_endpoint, subscribe_request, BitstampBook, BitstampData, BitstampFeed,
};
use obmerge::exchanges::{endpoint, BookError, EndpointError, FeedAction, FeedError};

fn pairs(start: u64, step: i64) -> Vec<[String; 2]> {
    (0..10)
        .map(|i| {
            let p = (start as i64 + step * i) as u64;
            [format!("{}.5", p), format!("0.{:08}", i + 1)]
        })
        .collect()
}

fn binance_book() -> BinanceBook {
    BinanceBook { lastUpdateId: 7, bids: pairs(100, -1), asks: pairs(101, 1) }
}

fn triples(start: u64, step: i64) -> Vec<[String; 3]> {
    pairs(start, step).into_iter().map(|[p, a]| [p, a, "123".to_string()]).collect()
}

fn bitstamp_book() -> BitstampBook {
    BitstampBook {
        data: BitstampData {
            timestamp: "1".to_string(),
            microtimestamp: "1000000".to_string(),
            bids: triples(50, -2),
            asks: triples(53, 2),
        },
        channel: "detail_order_book_ethbtc".to_string(),
        event: "data".to_string(),
    }
}

#[test]
fn binance_book_reads_ten_lines_per_side() {
    let o = binance_book().to_order_book().unwrap();
    assert_eq!(o.asks.len(), 10);
    assert_eq!(o.bids.len(), 10);
    assert_eq!(o.asks[0].price, 10_150_000_000);
    assert_eq!(o.asks[0].amount, 1);
    assert_eq!(o.bids[9].price, 9_150_000_000);
    assert_eq!(o.bids[9].amount, 10);
    assert_eq!(o.bids[0].exchange, "binance");
    assert_eq!(o.spread, 100_000_000);
}

#[test]
fn binance_book_takes_only_the_first_ten() {
    let mut b = binance_book();
    b.asks.push(["1".to_string(), "1".to_string()]);
    b.asks.push(["not a number".to_string(), "1".to_string()]);
    let o = b.to_order_book().unwrap();
    assert_eq!(o.asks.len(), 10);
}

#[test]
fn binance_book_with_short_side_or_bad_number_is_unreadable() {
    let mut b = binance_book();
    b.bids.pop();
    assert_eq!(b.to_order_book().unwrap_err(), BookError::Unreadable);
    let mut c = binance_book();
    c.asks[3][1] = "1x3".to_string();
    assert_eq!(c.to_order_book().unwrap_err(), BookError::Unreadable);
    assert_eq!(BinanceBook::empty().to_order_book().unwrap_err(), BookError::Unreadable);
}

#[test]
fn binance_feed_answers_pings_once() {
    let mut f = BinanceFeed::new();
    assert_eq!(f.take_pong(), None);
    assert!(matches!(f.on_message(BinanceMessage::Ping(vec![1, 2, 3])), FeedAction::Wait));
    assert_eq!(f.take_pong(), Some(vec![1, 2, 3]));
    assert_eq!(f.take_pong(), None);
    // an empty ping payload is not answered
    assert!(matches!(f.on_message(BinanceMessage::Ping(Vec::new())), FeedAction::Wait));
    assert_eq!(f.take_pong(), None);
}

#[test]
fn binance_feed_falls_back_on_the_last_book() {
    let mut f = BinanceFeed::new();
    match f.on_message(BinanceMessage::Text(None)) {
        FeedAction::Fail(e) => assert_eq!(e, FeedError::UnreadableBook),
        other => panic!("unexpected {:?}", other),
    }
    match f.on_message(BinanceMessage::Text(Some(binance_book()))) {
        FeedAction::Publish(o) => assert_eq!(o.spread, 100_000_000),
        other => panic!("unexpected {:?}", other),
    }
    assert_eq!(f.fallback.lastUpdateId, 7);
    match f.on_message(BinanceMessage::Text(None)) {
        FeedAction::Publish(o) => assert_eq!(o.asks[0].price, 10_150_000_000),
        other => panic!("unexpected {:?}", other),
    }
    match f.on_message(BinanceMessage::Other) {
        FeedAction::Fail(e) => assert_eq!(e, FeedError::UnexpectedMessage),
        other => panic!("unexpected {:?}", other),
    }
}

#[test]
fn binance_addresses() {
    assert_eq!(binance_url("ethbtc"), "wss://stream.binance.com:9443/ws/ethbtc@depth20@100ms/ws");
    let u = binance_endpoint("btcusdt").unwrap();
    assert_eq!(u.as_str(), "wss://stream.binance.com:9443/ws/btcusdt@depth20@100ms/ws");
}

#[test]
fn bitstamp_address_and_subscription() {
    assert_eq!(bitstamp_endpoint().unwrap().as_str(), "wss://ws.bitstamp.net/");
    let s = subscribe_request("ethusdt");
    assert_eq!(s.event, "bts:subscribe");
    assert_eq!(s.data.channel, "detail_order_book_ethusdt");
}

#[test]
fn addresses_that_do_not_parse_are_refused() {
    assert_eq!(endpoint("no scheme here").unwrap_err(), EndpointError::InvalidUrl);
    assert_eq!(endpoint("wss://[::1").unwrap_err(), EndpointError::InvalidUrl);
}

#[test]
fn bitstamp_book_reads_ten_lines_per_side() {
    let o = bitstamp_book().to_order_book().unwrap();
    assert_eq!(o.bids[0].price, 5_050_000_000);
    assert_eq!(o.bids[1].price, 4_850_000_000);
    assert_eq!(o.asks[0].price, 5_350_000_000);
    assert_eq!(o.asks[0].exchange, "bitstamp");
    assert_eq!(o.spread, 300_000_000);
}

#[test]
fn bitstamp_feed_falls_back_on_the_last_book() {
    let mut f = BitstampFeed::new();
    assert!(matches!(f.on_text(None), FeedAction::Fail(FeedError::UnreadableBook)));
    assert!(matches!(f.on_text(Some(bitstamp_book())), FeedAction::Publish(_)));
    match f.on_text(None) {
        FeedAction::Publish(o) => assert_eq!(o.spread, 300_000_000),
        other => panic!("unexpected {:?}", other),
    }
    let mut bad = bitstamp_book();
    bad.data.asks.truncate(9);
    assert!(matches!(f.on_text(Some(bad)), FeedAction::Fail(FeedError::UnreadableBook)));
}

#[test]
fn feeds_read_signed_and_exponent_numerals() {
    let mut b = binance_book();
    b.asks[0][0] = "1e3".to_string();
    b.asks[1][1] = "+2.5E-1".to_string();
    b.bids[0][0] = "9.95e2".to_string();
    let o = b.to_order_book().unwrap();
    assert_eq!(o.asks[0].price, 100_000_000_000);
    assert_eq!(o.asks[1].amount, 25_000_000);
    assert_eq!(o.bids[0].price, 99_500_000_000);
    assert_eq!(o.spread, 500_000_000);
    let mut f = BitstampFeed::new();
    let mut c = bitstamp_book();
    c.data.asks[0][0] = "5.35e1".to_string();
    c.data.bids[0][1] = "-1".to_string();
    match f.on_text(Some(c)) {
        FeedAction::Publish(o) => {
            assert_eq!(o.asks[0].price, 5_350_000_000);
            assert_eq!(o.bids[0].amount, -100_000_000);
        }
        other => panic!("unexpected {:?}", other),
    }
}

#[test]
fn non_finite_numerals_make_a_book_unreadable() {
    let mut b = binance_book();
    b.asks[0][0] = "inf".to_string();
    assert_eq!(b.to_order_book().unwrap_err(), BookError::Unreadable);
    let mut c = binance_book();
    c.bids[2][1] = "NaN".to_string();
    assert_eq!(c.to_order_book().unwrap_err(), BookError::Unreadable);
}
