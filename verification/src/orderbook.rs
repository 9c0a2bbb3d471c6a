//! Order lines, order books and the summary that is streamed to clients.
use vstd::prelude::*;

verus! {

/// An order line as a mathematical value.
pub struct LineView {
    pub exchange: Seq<char>,
    pub price: i64,
    pub amount: i64,
}

/// An order book as a mathematical value.
pub struct BookView {
    pub spread: i128,
    pub asks: Seq<LineView>,
    pub bids: Seq<LineView>,
}

/// One price level offered by one exchange; price and amount in 10^-8 units.
#[derive(Debug)]
pub struct OrderLine {
    pub exchange: String,
    pub price: i64,
    pub amount: i64,
}

/// A book of asks and bids, best first, with the spread between the best ask
/// and the best bid.
#[derive(Clone, Debug)]
pub struct OrderBook {
    pub spread: i128,
    pub asks: Vec<OrderLine>,
    pub bids: Vec<OrderLine>,
}

/// A price level as streamed to clients.
#[derive(Clone, Debug)]
pub struct Level {
    pub exchange: String,
    pub price: i64,
    pub amount: i64,
}

/// The combined book as streamed to clients.
#[derive(Clone, Debug)]
pub struct Summary {
    pub spread: i128,
    pub bids: Vec<Level>,
    pub asks: Vec<Level>,
}

impl View for OrderLine {
    type V = LineView;

    open spec fn view(&self) -> LineView {
        LineView { exchange: self.exchange@, price: self.price, amount: self.amount }
    }
}

impl View for Level {
    type V = LineView;

    open spec fn view(&self) -> LineView {
        LineView { exchange: self.exchange@, price: self.price, amount: self.amount }
    }
}

pub open spec fn lines_view(v: Seq<OrderLine>) -> Seq<LineView> {
    v.map_values(|l: OrderLine| l@)
}

pub open spec fn levels_view(v: Seq<Level>) -> Seq<LineView> {
    v.map_values(|l: Level| l@)
}

impl View for OrderBook {
    type V = BookView;

    open spec fn view(&self) -> BookView {
        BookView { spread: self.spread, asks: lines_view(self.asks@), bids: lines_view(self.bids@) }
    }
}

impl View for Summary {
    type V = BookView;

    open spec fn view(&self) -> BookView {
        BookView { spread: self.spread, asks: levels_view(self.asks@), bids: levels_view(self.bids@) }
    }
}

/// `a` gives way to bid `b`: `a` has no amount, or `b` pays more, or pays the
/// same for a larger amount.
pub open spec fn line_smaller(a: LineView, b: LineView) -> bool {
    ||| a.amount == 0
    ||| a.price < b.price
    ||| (a.price == b.price && a.amount < b.amount)
}

/// `a` gives way to ask `b`: `a` has no amount, or `b` asks less, or asks the
/// same for a larger amount.
pub open spec fn line_greater(a: LineView, b: LineView) -> bool {
    ||| a.amount == 0
    ||| a.price > b.price
    ||| (a.price == b.price && a.amount < b.amount)
}

impl Clone for OrderLine {
    fn clone(&self) -> (r: Self)
        ensures
            r == *self,
    {
        OrderLine { exchange: self.exchange.clone(), price: self.price, amount: self.amount }
    }
}

impl OrderLine {
    /// Whether this line gives way to the bid `x` when the best bid is chosen.
    pub fn smaller(&self, x: &OrderLine) -> (r: bool)
        ensures
            r == line_smaller(self@, x@),
    {
        if self.amount == 0 {
            return true;
        }
        if self.price < x.price {
            return true;
        }
        if self.price > x.price {
            return false;
        }
        if self.amount < x.amount {
            return true;
        }
        return false;
    }

    /// Whether this line gives way to the ask `x` when the best ask is chosen.
    pub fn greater(&self, x: &OrderLine) -> (r: bool)
        ensures
            r == line_greater(self@, x@),
    {
        if self.amount == 0 {
            return true;
        }
        if self.price > x.price {
            return true;
        }
        if self.price < x.price {
            return false;
        }
        if self.amount < x.amount {
            return true;
        }
        return false;
    }

    /// The line as a streamed price level.
    #[allow(non_snake_case)]
    pub fn toLevel(self) -> (r: Level)
        ensures
            r@ == self@,
    {
        Level { exchange: self.exchange, price: self.price, amount: self.amount }
    }
}

impl Level {
    pub fn to_line(self) -> (r: OrderLine)
        ensures
            r@ == self@,
    {
        OrderLine { exchange: self.exchange, price: self.price, amount: self.amount }
    }
}

impl OrderBook {
    /// The book as a streamed summary: the same spread, asks and bids.
    #[allow(non_snake_case)]
    pub fn toSummary(self) -> (r: Summary)
        ensures
            r@ == self@,
    {
        let OrderBook { spread, asks, bids } = self;
        Summary { spread, bids: levels_from_lines(bids), asks: levels_from_lines(asks) }
    }

    /// The book that a streamed summary describes.
    pub fn from_summary(s: Summary) -> (r: OrderBook)
        ensures
            r@ == s@,
    {
        let Summary { spread, bids, asks } = s;
        OrderBook { spread, asks: lines_from_levels(asks), bids: lines_from_levels(bids) }
    }
}

fn levels_from_lines(v: Vec<OrderLine>) -> (r: Vec<Level>)
    ensures
        levels_view(r@) == lines_view(v@),
{
    let mut r: Vec<Level> = Vec::new();
    let mut i: usize = 0;
    while i < v.len()
        invariant
            i <= v.len(),
            levels_view(r@) =~= lines_view(v@).take(i as int),
        decreases v.len() - i,
    {
        let ghost before = r@;
        let l: Level = v[i].clone().toLevel();
        r.push(l);
        assert(levels_view(r@) =~= levels_view(before).push(l@));
        assert(lines_view(v@).take(i + 1) =~= lines_view(v@).take(i as int).push(v@[i as int]@));
        i = i + 1;
    }
    assert(lines_view(v@).take(v@.len() as int) =~= lines_view(v@));
    r
}

fn lines_from_levels(v: Vec<Level>) -> (r: Vec<OrderLine>)
    ensures
        lines_view(r@) == levels_view(v@),
{
    let mut r: Vec<OrderLine> = Vec::new();
    let mut i: usize = 0;
    while i < v.len()
        invariant
            i <= v.len(),
            lines_view(r@) =~= levels_view(v@).take(i as int),
        decreases v.len() - i,
    {
        let ghost before = r@;
        let l = OrderLine { exchange: v[i].exchange.clone(), price: v[i].price, amount: v[i].amount };
        r.push(l);
        assert(lines_view(r@) =~= lines_view(before).push(l@));
        assert(levels_view(v@).take(i + 1) =~= levels_view(v@).take(i as int).push(v@[i as int]@));
        i = i + 1;
    }
    assert(levels_view(v@).take(v@.len() as int) =~= levels_view(v@));
    r
}

/// The empty book that every exchange feed starts from.
pub fn book_zero() -> (r: OrderBook)
    ensures
        r@.spread == 0,
        r@.asks.len() == 0,
        r@.bids.len() == 0,
{
    OrderBook { spread: 0, asks: Vec::new(), bids: Vec::new() }
}

} // verus!
