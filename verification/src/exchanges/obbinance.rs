//! The Binance depth feed.
use vstd::prelude::*;
use crate::orderbook::OrderBook;
use super::{
    BookError, EndpointError, FeedAction, FeedError, book_from_sides, endpoint, entry_texts,
    read_book, side_readable, side_view, url_parse, url_parse_accepts,
};

verus! {

/// A depth snapshot as the Binance feed sends it: entries are
/// `[price, amount]` texts, best first.
#[allow(non_snake_case)]
#[derive(Debug)]
pub struct BinanceBook {
    pub lastUpdateId: u64,
    pub bids: Vec<[String; 2]>,
    pub asks: Vec<[String; 2]>,
}

/// A message of the Binance feed, its text already read as a book where it
/// is one.
pub enum BinanceMessage {
    Ping(Vec<u8>),
    Text(Option<BinanceBook>),
    Other,
}

/// The address of the depth feed of `pair`.
pub open spec fn binance_stream_url(pair: Seq<char>) -> Seq<char> {
    "wss://stream.binance.com:9443/ws/"@ + pair + "@depth20@100ms/ws"@
}

/// The book that the Binance snapshot `b` describes.
pub open spec fn binance_book_view(b: BinanceBook) -> crate::orderbook::BookView {
    book_from_sides(
        side_view(entry_texts(b.asks@), "binance"@),
        side_view(entry_texts(b.bids@), "binance"@),
    )
}

pub open spec fn binance_readable(b: BinanceBook) -> bool {
    side_readable(entry_texts(b.asks@)) && side_readable(entry_texts(b.bids@))
}

/// The address of the depth feed of `pair`.
pub fn binance_url(pair: &str) -> (r: String)
    ensures
        r@ == binance_stream_url(pair@),
{
    let mut s = String::from_str("wss://stream.binance.com:9443/ws/");
    s.append(pair);
    s.append("@depth20@100ms/ws");
    s
}

/// The depth feed of `pair` as a URL.
pub fn binance_endpoint(pair: &str) -> (r: Result<url::Url, EndpointError>)
    ensures
        r is Ok <==> url_parse_accepts(binance_stream_url(pair@)),
        r matches Ok(u) ==> url_parse(binance_stream_url(pair@)) == Ok::<url::Url, url::ParseError>(u),
{
    let address = binance_url(pair);
    endpoint(address.as_str())
}

impl BinanceBook {
    /// The snapshot with no entries.
    pub fn empty() -> (r: BinanceBook)
        ensures
            r.lastUpdateId == 0,
            r.bids@.len() == 0,
            r.asks@.len() == 0,
    {
        BinanceBook { lastUpdateId: 0, bids: Vec::new(), asks: Vec::new() }
    }

    /// The book of the snapshot's first ten asks and bids, or `Unreadable`.
    pub fn to_order_book(&self) -> (r: Result<OrderBook, BookError>)
        ensures
            r is Ok <==> binance_readable(*self),
            r matches Ok(o) ==> o@ == binance_book_view(*self),
    {
        read_book(&self.asks, &self.bids, "binance")
    }
}

/// What the Binance feed keeps between messages: the last snapshot that was
/// read, and the payload of a ping still to be answered.
pub struct BinanceFeed {
    pub fallback: BinanceBook,
    pub pong: Vec<u8>,
}

impl BinanceFeed {
    pub fn new() -> (r: BinanceFeed)
        ensures
            r.fallback.lastUpdateId == 0,
            r.fallback.bids@.len() == 0,
            r.fallback.asks@.len() == 0,
            r.pong@.len() == 0,
    {
        BinanceFeed { fallback: BinanceBook::empty(), pong: Vec::new() }
    }

    /// The ping payload to answer with a pong before the next read, if there
    /// is one; it is answered once.
    pub fn take_pong(&mut self) -> (r: Option<Vec<u8>>)
        ensures
            old(self).pong@.len() == 0 ==> r is None && final(self).pong@ == old(self).pong@,
            old(self).pong@.len() > 0 ==> (r matches Some(f) && f@ == old(self).pong@),
            old(self).pong@.len() > 0 ==> final(self).pong@.len() == 0,
            final(self).fallback == old(self).fallback,
    {
        if self.pong.is_empty() {
            None
        } else {
            let mut frame: Vec<u8> = Vec::new();
            std::mem::swap(&mut frame, &mut self.pong);
            Some(frame)
        }
    }

    /// Handles one message: a ping is kept to be answered; a text replaces
    /// the snapshot in hand where it is one, and the snapshot in hand is
    /// published; any other message ends the feed.
    pub fn on_message(&mut self, msg: BinanceMessage) -> (r: FeedAction)
        ensures
            match msg {
                BinanceMessage::Ping(x) => final(self).pong@ == x@ && final(self).fallback
                    == old(self).fallback && r is Wait,
                BinanceMessage::Text(parsed) => {
                    let b = match parsed {
                        Some(b) => b,
                        None => old(self).fallback,
                    };
                    &&& final(self).fallback == b
                    &&& final(self).pong@ == old(self).pong@
                    &&& binance_readable(b) ==> (r matches FeedAction::Publish(o) && o@
                        == binance_book_view(b))
                    &&& !binance_readable(b) ==> r == FeedAction::Fail(FeedError::UnreadableBook)
                },
                BinanceMessage::Other => *final(self) == *old(self) && r == FeedAction::Fail(
                    FeedError::UnexpectedMessage,
                ),
            },
    {
        match msg {
            BinanceMessage::Ping(x) => {
                self.pong = x;
                FeedAction::Wait
            },
            BinanceMessage::Text(parsed) => {
                if let Some(b) = parsed {
                    self.fallback = b;
                }
                match self.fallback.to_order_book() {
                    Ok(o) => FeedAction::Publish(o),
                    Err(_) => FeedAction::Fail(FeedError::UnreadableBook),
                }
            },
            BinanceMessage::Other => FeedAction::Fail(FeedError::UnexpectedMessage),
        }
    }
}

} // verus!
