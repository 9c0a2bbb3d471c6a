use obmerge::orderbook::{book_zero, Level, OrderBook, OrderLine, Summary};

fn line(exchange: &str, price: i64, amount: i64) -> OrderLine {
    OrderLine { exchange: exchange.to_string(), price, amount }
}

#[test]
fn smaller_gives_way_to_higher_bids() {
    assert!(line("a", 10, 5).smaller(&line("b", 11, 1)));
    assert!(!line("a", 10, 5).smaller(&line("b", 9, 100)));
    assert!(line("a", 10, 5).smaller(&line("b", 10, 6)));
    assert!(!line("a", 10, 5).smaller(&line("b", 10, 5)));
    assert!(!line("a", 10, 5).smaller(&line("b", 10, 4)));
    // a line with no amount gives way to anything
    assert!(line("a", 10, 0).smaller(&line("b", 1, 1)));
}

#[test]
fn greater_gives_way_to_lower_asks() {
    assert!(line("a", 10, 5).greater(&line("b", 9, 1)));
    assert!(!line("a", 10, 5).greater(&line("b", 11, 100)));
    assert!(line("a", 10, 5).greater(&line("b", 10, 6)));
    assert!(!line("a", 10, 5).greater(&line("b", 10, 5)));
    assert!(line("a", 10, 0).greater(&line("b", 100, 1)));
}

#[test]
fn to_level_keeps_the_fields() {
    let l = line("binance", 7, 8).toLevel();
    assert_eq!(l.exchange, "binance");
    assert_eq!(l.price, 7);
    assert_eq!(l.amount, 8);
}

#[test]
fn to_summary_keeps_asks_and_bids() {
    let book = OrderBook {
        spread: 3,
        asks: vec![line("a", 13, 1), line("b", 14, 2)],
        bids: vec![line("c", 10, 3)],
    };
    let s = book.toSummary();
    assert_eq!(s.spread, 3);
    let asks: Vec<i64> = s.asks.iter().map(|l| l.price).collect();
    assert_eq!(asks, vec![13, 14]);
    assert_eq!(s.asks[1].exchange, "b");
    assert_eq!(s.bids.len(), 1);
    assert_eq!(s.bids[0].exchange, "c");
    assert_eq!(s.bids[0].price, 10);
    assert_eq!(s.bids[0].amount, 3);
}

#[test]
fn to_summary_of_one_ask_and_one_bid() {
    let book = OrderBook { spread: 1, asks: vec![line("a", 2, 3)], bids: vec![line("b", 1, 4)] };
    let s = book.toSummary();
    assert_eq!(s.spread, 1);
    assert_eq!(s.asks.len(), 1);
    assert_eq!((s.asks[0].exchange.as_str(), s.asks[0].price, s.asks[0].amount), ("a", 2, 3));
    assert_eq!(s.bids.len(), 1);
    assert_eq!((s.bids[0].exchange.as_str(), s.bids[0].price, s.bids[0].amount), ("b", 1, 4));
}

#[test]
fn from_summary_keeps_both_sides() {
    let s = Summary {
        spread: -2,
        bids: vec![Level { exchange: "x".to_string(), price: 5, amount: 1 }],
        asks: vec![
            Level { exchange: "y".to_string(), price: 3, amount: 2 },
            Level { exchange: "z".to_string(), price: 4, amount: 9 },
        ],
    };
    let b = OrderBook::from_summary(s);
    assert_eq!(b.spread, -2);
    assert_eq!(b.bids.len(), 1);
    assert_eq!(b.bids[0].exchange, "x");
    assert_eq!(b.asks.len(), 2);
    assert_eq!(b.asks[1].price, 4);
    assert_eq!(b.asks[1].amount, 9);
}

#[test]
fn book_zero_is_empty() {
    let b = book_zero();
    assert_eq!(b.spread, 0);
    assert!(b.asks.is_empty());
    assert!(b.bids.is_empty());
}
