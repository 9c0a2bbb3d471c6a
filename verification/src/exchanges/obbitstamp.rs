//! The Bitstamp order book feed.
use vstd::prelude::*;
use crate::orderbook::{BookView, OrderBook};
use super::{
    BookError, EndpointError, FeedAction, FeedError, book_from_sides, endpoint, entry_texts,
    read_book, side_readable, side_view, url_parse, url_parse_accepts,
};

verus! {

/// The book part of a Bitstamp message: entries are
/// `[price, amount, order id]` texts, best first.
#[derive(Debug)]
pub struct BitstampData {
    pub timestamp: String,
    pub microtimestamp: String,
    pub bids: Vec<[String; 3]>,
    pub asks: Vec<[String; 3]>,
}

/// A message of the Bitstamp order book channel.
#[derive(Debug)]
pub struct BitstampBook {
    pub data: BitstampData,
    pub channel: String,
    pub event: String,
}

/// The channel part of a subscription request.
pub struct Channel {
    pub channel: String,
}

/// The request that subscribes to a channel of the Bitstamp feed.
pub struct Subscribe {
    pub event: String,
    pub data: Channel,
}

/// The address of the Bitstamp feed.
pub open spec fn bitstamp_stream_url() -> Seq<char> {
    "wss://ws.bitstamp.net"@
}

/// The channel that carries the detailed order book of `pair`.
pub open spec fn bitstamp_channel(pair: Seq<char>) -> Seq<char> {
    "detail_order_book_"@ + pair
}

pub open spec fn bitstamp_readable(b: BitstampBook) -> bool {
    side_readable(entry_texts(b.data.asks@)) && side_readable(entry_texts(b.data.bids@))
}

/// The book that the Bitstamp message `b` describes.
pub open spec fn bitstamp_book_view(b: BitstampBook) -> BookView {
    book_from_sides(
        side_view(entry_texts(b.data.asks@), "bitstamp"@),
        side_view(entry_texts(b.data.bids@), "bitstamp"@),
    )
}

/// The request that subscribes to the detailed order book of `pair`.
pub fn subscribe_request(pair: &str) -> (r: Subscribe)
    ensures
        r.event@ == "bts:subscribe"@,
        r.data.channel@ == bitstamp_channel(pair@),
{
    let mut channel = String::from_str("detail_order_book_");
    channel.append(pair);
    Subscribe { event: String::from_str("bts:subscribe"), data: Channel { channel } }
}

/// The Bitstamp feed as a URL.
pub fn bitstamp_endpoint() -> (r: Result<url::Url, EndpointError>)
    ensures
        r is Ok <==> url_parse_accepts(bitstamp_stream_url()),
        r matches Ok(u) ==> url_parse(bitstamp_stream_url()) == Ok::<url::Url, url::ParseError>(u),
{
    endpoint("wss://ws.bitstamp.net")
}

impl BitstampBook {
    /// The message with no entries and empty texts.
    pub fn empty() -> (r: BitstampBook)
        ensures
            r.data.bids@.len() == 0,
            r.data.asks@.len() == 0,
            r.data.timestamp@.len() == 0,
            r.data.microtimestamp@.len() == 0,
            r.channel@.len() == 0,
            r.event@.len() == 0,
    {
        BitstampBook {
            data: BitstampData {
                timestamp: String::new(),
                microtimestamp: String::new(),
                bids: Vec::new(),
                asks: Vec::new(),
            },
            channel: String::new(),
            event: String::new(),
        }
    }

    /// The book of the message's first ten asks and bids, or `Unreadable`.
    pub fn to_order_book(&self) -> (r: Result<OrderBook, BookError>)
        ensures
            r is Ok <==> bitstamp_readable(*self),
            r matches Ok(o) ==> o@ == bitstamp_book_view(*self),
    {
        read_book(&self.data.asks, &self.data.bids, "bitstamp")
    }
}

/// What the Bitstamp feed keeps between messages: the last message that was
/// read as a book.
pub struct BitstampFeed {
    pub fallback: BitstampBook,
}

impl BitstampFeed {
    pub fn new() -> (r: BitstampFeed)
        ensures
            r.fallback.data.bids@.len() == 0,
            r.fallback.data.asks@.len() == 0,
            r.fallback.data.timestamp@.len() == 0,
            r.fallback.data.microtimestamp@.len() == 0,
            r.fallback.channel@.len() == 0,
            r.fallback.event@.len() == 0,
    {
        BitstampFeed { fallback: BitstampBook::empty() }
    }

    /// Handles the text of one message, already read as a book where it is
    /// one: it replaces the book in hand, and the book in hand is published.
    pub fn on_text(&mut self, parsed: Option<BitstampBook>) -> (r: FeedAction)
        ensures
            ({
                let b = match parsed {
                    Some(b) => b,
                    None => old(self).fallback,
                };
                &&& final(self).fallback == b
                &&& bitstamp_readable(b) ==> (r matches FeedAction::Publish(o) && o@
                    == bitstamp_book_view(b))
                &&& !bitstamp_readable(b) ==> r == FeedAction::Fail(FeedError::UnreadableBook)
            }),
    {
        if let Some(b) = parsed {
            self.fallback = b;
        }
        match self.fallback.to_order_book() {
            Ok(o) => FeedAction::Publish(o),
            Err(_) => FeedAction::Fail(FeedError::UnreadableBook),
        }
    }
}

} // verus!
