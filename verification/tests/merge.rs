use obmerge::merge::{merge_books, on_update, MergeOutcome};
use obmerge::orderbook::{OrderBook, OrderLine};

fn line(exchange: &str, price: i64, amount: i64) -> OrderLine {
    OrderLine { exchange: exchange.to_string(), price, amount }
}

fn side(exchange: &str, prices: &[i64], amount: i64) -> Vec<OrderLine> {
    prices.iter().map(|p| line(exchange, *p, amount)).collect()
}

fn book(exchange: &str, asks: &[i64], bids: &[i64], amount: i64) -> OrderBook {
    OrderBook { spread: 0, asks: side(exchange, asks, amount), bids: side(exchange, bids, amount) }
}

fn merged(books: &Vec<OrderBook>) -> OrderBook {
    match merge_books(books) {
        MergeOutcome::Merged(o) => o,
        other => panic!("unexpected {:?}", other),
    }
}

fn prices(v: &[OrderLine]) -> Vec<i64> {
    v.iter().map(|l| l.price).collect()
}

#[test]
fn merges_two_books_into_the_ten_best() {
    let a = book(
        "a",
        &[101, 103, 105, 107, 109, 111, 113, 115, 117, 119],
        &[100, 98, 96, 94, 92, 90, 88, 86, 84, 82],
        1,
    );
    let b = book(
        "b",
        &[102, 104, 106, 108, 110, 112, 114, 116, 118, 120],
        &[99, 97, 95, 93, 91, 89, 87, 85, 83, 81],
        2,
    );
    let o = merged(&vec![a, b]);
    assert_eq!(prices(&o.bids), vec![100, 99, 98, 97, 96, 95, 94, 93, 92, 91]);
    assert_eq!(prices(&o.asks), vec![101, 102, 103, 104, 105, 106, 107, 108, 109, 110]);
    assert_eq!(o.bids[0].exchange, "a");
    assert_eq!(o.bids[1].exchange, "b");
    assert_eq!(o.asks[1].exchange, "b");
    assert_eq!(o.spread, 1);
}

#[test]
fn equal_prices_prefer_the_larger_amount_then_the_first_book() {
    let a = book("a", &[10; 10], &[5; 10], 1);
    let b = book("b", &[10; 10], &[5; 10], 3);
    let c = book("c", &[10; 10], &[5; 10], 3);
    let o = merged(&vec![a, b, c]);
    // b and c offer more than a at the same price; b comes before c
    let ex: Vec<&str> = o.bids.iter().map(|l| l.exchange.as_str()).collect();
    assert_eq!(ex, vec!["b", "b", "b", "b", "b", "b", "b", "b", "b", "b"]);
    assert_eq!(o.spread, 5);
}

#[test]
fn a_line_without_amount_gives_way_to_any_other() {
    let mut a = book("a", &[1, 2, 3, 4, 5, 6, 7, 8, 9, 10], &[90, 80, 70, 60, 50, 40, 30, 20, 10, 5], 1);
    a.bids[0].amount = 0;
    let b = book("b", &[1, 2, 3, 4, 5, 6, 7, 8, 9, 10], &[45, 44, 43, 42, 41, 40, 39, 38, 37, 36], 1);
    let o = merged(&vec![a, b]);
    // the bid at 90 has no amount: the bid at 45 of b wins the first round
    assert_eq!(o.bids[0].price, 45);
    assert_eq!(o.bids[0].exchange, "b");
}

#[test]
fn one_book_is_copied() {
    let a = book("a", &[1, 2, 3, 4, 5, 6, 7, 8, 9, 10, 11], &[9, 8, 7, 6, 5, 4, 3, 2, 1, 0], 4);
    let o = merged(&vec![a]);
    assert_eq!(prices(&o.asks), vec![1, 2, 3, 4, 5, 6, 7, 8, 9, 10]);
    assert_eq!(prices(&o.bids), vec![9, 8, 7, 6, 5, 4, 3, 2, 1, 0]);
    assert_eq!(o.spread, -8);
}

#[test]
fn needs_books_and_ten_bids() {
    assert!(matches!(merge_books(&Vec::new()), MergeOutcome::NoBooks));
    let a = book("a", &[1, 2, 3], &[1, 2, 3], 1);
    let b = book("b", &[1, 2, 3, 4, 5, 6], &[1, 2, 3, 4, 5, 6], 1);
    assert!(matches!(merge_books(&vec![a, b]), MergeOutcome::NotEnoughBids));
}

#[test]
fn bids_spread_over_books_are_enough() {
    let a = book("a", &[1, 2, 3, 4, 5], &[5, 4, 3, 2, 1], 1);
    let b = book("b", &[6, 7, 8, 9, 10], &[10, 9, 8, 7, 6], 1);
    let o = merged(&vec![a, b]);
    assert_eq!(prices(&o.bids), vec![10, 9, 8, 7, 6, 5, 4, 3, 2, 1]);
    assert_eq!(prices(&o.asks), vec![1, 2, 3, 4, 5, 6, 7, 8, 9, 10]);
}

#[test]
fn only_signal_zero_merges() {
    let a = book("a", &[1; 10], &[1; 10], 1);
    assert!(matches!(on_update(1, &vec![a.clone()]), MergeOutcome::Ignored));
    assert!(matches!(on_update(0, &vec![a]), MergeOutcome::Merged(_)));
    assert!(matches!(on_update(0, &Vec::new()), MergeOutcome::NoBooks));
}

#[test]
fn streamed_summary_holds_the_ten_best_of_each_side() {
    let a = book("a", &[11, 13, 15, 17, 19], &[10, 8, 6, 4, 2], 1);
    let b = book("b", &[12, 14, 16, 18, 20], &[9, 7, 5, 3, 1], 1);
    let s = match on_update(0, &vec![a, b]) {
        MergeOutcome::Merged(o) => o.toSummary(),
        other => panic!("unexpected {:?}", other),
    };
    assert_eq!(s.spread, 1);
    let bids: Vec<(i64, &str)> = s.bids.iter().map(|l| (l.price, l.exchange.as_str())).collect();
    assert_eq!(
        bids,
        vec![(10, "a"), (9, "b"), (8, "a"), (7, "b"), (6, "a"), (5, "b"), (4, "a"), (3, "b"), (2, "a"), (1, "b")]
    );
    let asks: Vec<(i64, &str)> = s.asks.iter().map(|l| (l.price, l.exchange.as_str())).collect();
    assert_eq!(
        asks,
        vec![(11, "a"), (12, "b"), (13, "a"), (14, "b"), (15, "a"), (16, "b"), (17, "a"), (18, "b"), (19, "a"), (20, "b")]
    );
}

#[test]
fn streamed_summary_prefers_the_larger_amount() {
    let a = book("a", &[6; 10], &[5; 10], 1);
    let b = book("b", &[6; 10], &[5; 10], 2);
    let s = match on_update(0, &vec![a, b]) {
        MergeOutcome::Merged(o) => o.toSummary(),
        other => panic!("unexpected {:?}", other),
    };
    assert_eq!(s.spread, 1);
    assert!(s.bids.len() == 10 && s.bids.iter().all(|l| l.exchange == "b" && l.price == 5 && l.amount == 2));
    assert!(s.asks.len() == 10 && s.asks.iter().all(|l| l.exchange == "b" && l.price == 6 && l.amount == 2));
}
