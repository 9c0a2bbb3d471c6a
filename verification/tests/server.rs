use obmerge::orderbook::Summary;
use obmerge::server::{relay_step, RelayAction, RelayEvent};

#[test]
fn relay_forwards_summaries() {
    let s = Summary { spread: 4, bids: Vec::new(), asks: Vec::new() };
    match relay_step(RelayEvent::Received(Some(s))) {
        RelayAction::Forward(t) => assert_eq!(t.spread, 4),
        other => panic!("unexpected {:?}", other),
    }
}

#[test]
fn relay_stops_lags_and_fails() {
    assert!(matches!(relay_step(RelayEvent::Received(None)), RelayAction::Finish));
    assert!(matches!(relay_step(RelayEvent::Lagged), RelayAction::ReportLag));
    assert!(matches!(relay_step(RelayEvent::Closed), RelayAction::Fail));
}

#[test]
fn relay_sends_books_in_order_and_stops_at_the_end() {
    let book = |spread: i128| Summary { spread, bids: Vec::new(), asks: Vec::new() };
    let events = vec![
        RelayEvent::Received(Some(book(1))),
        RelayEvent::Lagged,
        RelayEvent::Received(Some(book(2))),
        RelayEvent::Received(Some(book(3))),
        RelayEvent::Received(None),
        RelayEvent::Received(Some(book(4))),
    ];
    let mut sent: Vec<i128> = Vec::new();
    for e in events {
        match relay_step(e) {
            RelayAction::Forward(s) => sent.push(s.spread),
            RelayAction::ReportLag => {}
            RelayAction::Finish | RelayAction::Fail => break,
        }
    }
    assert_eq!(sent, vec![1, 2, 3]);
}
