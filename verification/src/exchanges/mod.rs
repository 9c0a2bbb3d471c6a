//! Reading the books that exchange feeds send, and where the feeds are.
pub mod obbinance;
pub mod obbitstamp;

use vstd::prelude::*;
use crate::decimal::{parse_units, parse_units_spec};
use crate::orderbook::{BookView, LineView, OrderBook, OrderLine, lines_view};

verus! {

/// Number of lines that a feed's book contributes on each side.
pub const FEED_DEPTH: usize = 10;

#[verifier::external_type_specification]
#[verifier::external_body]
pub struct ExUrl(url::Url);

#[verifier::external_type_specification]
#[verifier::external_body]
pub struct ExUrlParseError(url::ParseError);

/// What `url::Url::parse` gives for `input`: the URL it parses, or why it
/// does not parse.
pub uninterp spec fn url_parse(input: Seq<char>) -> Result<url::Url, url::ParseError>;

/// Whether `url::Url::parse` accepts `input` as an absolute URL.
pub open spec fn url_parse_accepts(input: Seq<char>) -> bool {
    url_parse(input) is Ok
}

/// Calls `url::Url::parse`. Its result depends on the input alone; the
/// contract names it by `url_parse`. What the parsed URL holds, and which
/// inputs parse, the URL grammar says, and the contract does not.
#[verifier::external_body]
fn parse_url(input: &str) -> (r: Result<url::Url, url::ParseError>)
    ensures
        r == url_parse(input@),
{
    url::Url::parse(input)
}

/// A feed address that does not parse as a URL.
#[derive(Debug, PartialEq, Eq, Structural)]
pub enum EndpointError {
    InvalidUrl,
}

/// The URL that `address` names, or `InvalidUrl`.
pub fn endpoint(address: &str) -> (r: Result<url::Url, EndpointError>)
    ensures
        r is Ok <==> url_parse_accepts(address@),
        r matches Ok(u) ==> url_parse(address@) == Ok::<url::Url, url::ParseError>(u),
{
    match parse_url(address) {
        Ok(u) => Ok(u),
        Err(_) => Err(EndpointError::InvalidUrl),
    }
}

/// A book that a feed sent lacks ten asks or ten bids, or one of its first
/// ten prices or amounts is no finite numeral (infinity and not-a-number have
/// no fixed-point value) or has a magnitude beyond what an `i64` holds in
/// 10^-8 units.
#[derive(Debug, PartialEq, Eq, Structural)]
pub enum BookError {
    Unreadable,
}

/// What a feed does with a message.
#[derive(Debug)]
pub enum FeedAction {
    /// Nothing to publish: wait for the next message.
    Wait,
    /// Publish this book.
    Publish(OrderBook),
    /// The feed cannot go on.
    Fail(FeedError),
}

#[derive(Debug, PartialEq, Eq, Structural)]
pub enum FeedError {
    /// The book in hand cannot be read.
    UnreadableBook,
    /// A message of a kind that the feed does not expect.
    UnexpectedMessage,
}

/// The price and amount texts of each entry of a side.
pub open spec fn entry_texts<const N: usize>(v: Seq<[String; N]>) -> Seq<(Seq<char>, Seq<char>)> {
    v.map_values(|e: [String; N]| (e@[0]@, e@[1]@))
}

/// A side has ten entries whose price and amount are readable.
pub open spec fn side_readable(p: Seq<(Seq<char>, Seq<char>)>) -> bool {
    &&& p.len() >= FEED_DEPTH
    &&& forall|i: int|
        0 <= i < FEED_DEPTH ==> parse_units_spec(#[trigger] p[i].0) is Some && parse_units_spec(
            p[i].1,
        ) is Some
}

/// The first ten entries of a side, as lines of `exchange`.
pub open spec fn side_view(p: Seq<(Seq<char>, Seq<char>)>, exchange: Seq<char>) -> Seq<LineView> {
    Seq::new(
        FEED_DEPTH as nat,
        |i: int|
            LineView {
                exchange: exchange,
                price: parse_units_spec(p[i].0).unwrap(),
                amount: parse_units_spec(p[i].1).unwrap(),
            },
    )
}

/// The book of ten asks and ten bids, with the spread between the first ask
/// and the first bid.
pub open spec fn book_from_sides(asks: Seq<LineView>, bids: Seq<LineView>) -> BookView {
    BookView { spread: (asks[0].price - bids[0].price) as i128, asks: asks, bids: bids }
}

/// The first ten entries of a side as lines of `exchange`, or `None` where
/// the side has fewer or one of them is unreadable.
fn read_side<const N: usize>(entries: &Vec<[String; N]>, exchange: &str) -> (r: Option<
    Vec<OrderLine>,
>)
    requires
        N >= 2,
    ensures
        r is Some <==> side_readable(entry_texts(entries@)),
        r matches Some(v) ==> lines_view(v@) == side_view(entry_texts(entries@), exchange@),
{
    let ghost p = entry_texts(entries@);
    if entries.len() < FEED_DEPTH {
        return None;
    }
    let mut out: Vec<OrderLine> = Vec::new();
    let mut i: usize = 0;
    while i < FEED_DEPTH
        invariant
            N >= 2,
            p == entry_texts(entries@),
            entries@.len() >= FEED_DEPTH,
            i <= FEED_DEPTH,
            forall|j: int|
                0 <= j < i ==> parse_units_spec(#[trigger] p[j].0) is Some && parse_units_spec(
                    p[j].1,
                ) is Some,
            lines_view(out@) =~= side_view(p, exchange@).take(i as int),
        decreases FEED_DEPTH - i,
    {
        let entry: &[String; N] = &entries[i];
        assert(p[i as int] == (entry@[0]@, entry@[1]@));
        let price = parse_units(entry[0].as_str());
        let amount = parse_units(entry[1].as_str());
        match (price, amount) {
            (Some(pr), Some(am)) => {
                let line = OrderLine { exchange: String::from_str(exchange), price: pr, amount: am };
                let ghost before = out@;
                out.push(line);
                assert(lines_view(out@) =~= lines_view(before).push(line@));
                assert(side_view(p, exchange@).take(i + 1) =~= side_view(p, exchange@).take(
                    i as int,
                ).push(line@));
            },
            _ => {
                assert(!(parse_units_spec(p[i as int].0) is Some && parse_units_spec(p[i as int].1) is Some));
                return None;
            },
        }
        i = i + 1;
    }
    assert(side_view(p, exchange@).take(FEED_DEPTH as int) =~= side_view(p, exchange@));
    Some(out)
}

/// The book of an exchange whose feed sent `asks` and `bids`.
fn read_book<const N: usize>(asks: &Vec<[String; N]>, bids: &Vec<[String; N]>, exchange: &str) -> (r:
    Result<OrderBook, BookError>)
    requires
        N >= 2,
    ensures
        r is Ok <==> side_readable(entry_texts(asks@)) && side_readable(entry_texts(bids@)),
        r matches Ok(o) ==> o@ == book_from_sides(
            side_view(entry_texts(asks@), exchange@),
            side_view(entry_texts(bids@), exchange@),
        ),
{
    let a = match read_side(asks, exchange) {
        Some(a) => a,
        None => {
            return Err(BookError::Unreadable);
        },
    };
    let b = match read_side(bids, exchange) {
        Some(b) => b,
        None => {
            return Err(BookError::Unreadable);
        },
    };
    assert(lines_view(a@).len() == FEED_DEPTH);
    assert(lines_view(b@).len() == FEED_DEPTH);
    assert(lines_view(a@)[0] == a@[0]@);
    assert(lines_view(b@)[0] == b@[0]@);
    let spread: i128 = (a[0].price as i128) - (b[0].price as i128);
    Ok(OrderBook { spread, asks: a, bids: b })
}

} // verus!
