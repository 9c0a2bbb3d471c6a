//! Combining the books of several exchanges into one book of the ten best
//! bids and the ten best asks.
use vstd::prelude::*;
use crate::orderbook::{
    BookView, LineView, OrderBook, OrderLine, line_greater, line_smaller, lines_view,
};

verus! {

/// Number of lines that a combined book holds on each side.
pub const DEPTH: usize = 10;

/// The side of a book.
#[derive(Clone, Copy, Debug, PartialEq, Eq, Structural)]
pub enum Side {
    Bid,
    Ask,
}

/// What one update signal from an exchange feed leads to.
#[derive(Debug)]
pub enum MergeOutcome {
    /// The signal does not ask for a new combined book.
    Ignored,
    /// No exchange book is registered.
    NoBooks,
    /// The exchange books hold fewer than ten bids together.
    NotEnoughBids,
    /// The combined book.
    Merged(OrderBook),
}

/// The line that `best` gives way to when the best line of `side` is chosen.
pub open spec fn gives_way(side: Side, best: LineView, x: LineView) -> bool {
    match side {
        Side::Bid => line_smaller(best, x),
        Side::Ask => line_greater(best, x),
    }
}

/// `a` is at least as good as `b` on `side`: a bid that pays no less, an ask
/// that asks no more.
pub open spec fn ranks_before(side: Side, a: LineView, b: LineView) -> bool {
    match side {
        Side::Bid => a.price >= b.price,
        Side::Ask => a.price <= b.price,
    }
}

/// The line that the choice of a best line starts from.
pub open spec fn empty_line() -> LineView {
    LineView { exchange: Seq::empty(), price: 0, amount: 0 }
}

pub open spec fn side_lines(b: BookView, side: Side) -> Seq<LineView> {
    match side {
        Side::Bid => b.bids,
        Side::Ask => b.asks,
    }
}

pub open spec fn book_views(books: Seq<OrderBook>) -> Seq<BookView> {
    books.map_values(|b: OrderBook| b@)
}

pub open spec fn side_lists(books: Seq<BookView>, side: Side) -> Seq<Seq<LineView>> {
    books.map_values(|b: BookView| side_lines(b, side))
}

pub open spec fn positions(p: Seq<usize>) -> Seq<int> {
    p.map_values(|x: usize| x as int)
}

/// Number of lines in all lists together.
pub open spec fn total_len(lists: Seq<Seq<LineView>>) -> nat
    decreases lists.len(),
{
    if lists.len() == 0 {
        0
    } else {
        total_len(lists.drop_last()) + lists.last().len()
    }
}

pub open spec fn sum_of(pos: Seq<int>) -> int
    decreases pos.len(),
{
    if pos.len() == 0 {
        0
    } else {
        sum_of(pos.drop_last()) + pos.last()
    }
}

/// List `i` has a line at its position.
pub open spec fn available(lists: Seq<Seq<LineView>>, pos: Seq<int>, i: int) -> bool {
    0 <= pos[i] < lists[i].len()
}

/// Going through the heads of the first `k` lists, in order, the line kept as
/// best and the list it came from: a head replaces the line kept so far when
/// that line gives way to it.
pub open spec fn pick(lists: Seq<Seq<LineView>>, pos: Seq<int>, side: Side, k: nat) -> (
    LineView,
    int,
)
    decreases k,
{
    if k == 0 {
        (empty_line(), 0)
    } else {
        let prev = pick(lists, pos, side, (k - 1) as nat);
        let i = k - 1;
        if available(lists, pos, i) && gives_way(side, prev.0, lists[i][pos[i]]) {
            (lists[i][pos[i]], i)
        } else {
            prev
        }
    }
}

/// After `r` rounds, the lines taken so far and, for each list, how many of
/// its lines were taken. Each round takes the head that `pick` chooses.
pub open spec fn merge_rounds(lists: Seq<Seq<LineView>>, side: Side, r: nat) -> (
    Seq<LineView>,
    Seq<int>,
)
    decreases r,
{
    if r == 0 {
        (Seq::empty(), Seq::new(lists.len(), |i: int| 0int))
    } else {
        let prev = merge_rounds(lists, side, (r - 1) as nat);
        let bp = pick(lists, prev.1, side, lists.len()).1;
        (prev.0.push(lists[bp][prev.1[bp]]), prev.1.update(bp, prev.1[bp] + 1))
    }
}

/// The ten lines of `side` that the combined book holds.
pub open spec fn merged_side(books: Seq<BookView>, side: Side) -> Seq<LineView> {
    merge_rounds(side_lists(books, side), side, DEPTH as nat).0
}

/// The combined book of `books`.
pub open spec fn merged_book(books: Seq<BookView>) -> BookView {
    let asks = merged_side(books, Side::Ask);
    let bids = merged_side(books, Side::Bid);
    BookView { spread: (asks[0].price - bids[0].price) as i128, asks: asks, bids: bids }
}

/// `merge_books` panics nowhere on `books`: where they hold ten bids they hold
/// ten asks.
pub open spec fn mergeable(books: Seq<BookView>) -> bool {
    books.len() > 0 && total_len(side_lists(books, Side::Bid)) >= DEPTH ==> total_len(
        side_lists(books, Side::Ask),
    ) >= DEPTH
}

// ---------------------------------------------------------------------------
// Lemmas
proof fn lemma_total_len_prefix(lists: Seq<Seq<LineView>>, i: int)
    requires
        0 <= i <= lists.len(),
    ensures
        total_len(lists.take(i)) <= total_len(lists),
    decreases lists.len() - i,
{
    if i < lists.len() {
        lemma_total_len_prefix(lists, i + 1);
        assert(lists.take(i + 1).drop_last() =~= lists.take(i));
    } else {
        assert(lists.take(i) =~= lists);
    }
}

proof fn lemma_sum_update(pos: Seq<int>, j: int, v: int)
    requires
        0 <= j < pos.len(),
    ensures
        sum_of(pos.update(j, v)) == sum_of(pos) - pos[j] + v,
    decreases pos.len(),
{
    if j < pos.len() - 1 {
        assert(pos.update(j, v).drop_last() =~= pos.drop_last().update(j, v));
        lemma_sum_update(pos.drop_last(), j, v);
    } else {
        assert(pos.update(j, v).drop_last() =~= pos.drop_last());
    }
}

proof fn lemma_sum_zeros(n: nat)
    ensures
        sum_of(Seq::new(n, |i: int| 0int)) == 0,
    decreases n,
{
    if n > 0 {
        assert(Seq::new(n, |i: int| 0int).drop_last() =~= Seq::new((n - 1) as nat, |i: int| 0int));
        lemma_sum_zeros((n - 1) as nat);
    }
}

/// Where fewer lines were taken than there are, some list has a line left.
proof fn lemma_some_available(lists: Seq<Seq<LineView>>, pos: Seq<int>)
    requires
        pos.len() == lists.len(),
        forall|i: int| 0 <= i < pos.len() ==> 0 <= #[trigger] pos[i] <= lists[i].len(),
        sum_of(pos) < total_len(lists),
    ensures
        exists|i: int| 0 <= i < lists.len() && #[trigger] available(lists, pos, i),
    decreases lists.len(),
{
    let n = lists.len();
    if n > 0 {
        if pos[n - 1] < lists[n - 1].len() {
            assert(available(lists, pos, n - 1));
        } else {
            let l2 = lists.drop_last();
            let p2 = pos.drop_last();
            assert forall|i: int| 0 <= i < p2.len() implies 0 <= #[trigger] p2[i] <= l2[i].len() by {
                assert(p2[i] == pos[i]);
            }
            lemma_some_available(l2, p2);
            let i = choose|i: int| 0 <= i < l2.len() && #[trigger] available(l2, p2, i);
            assert(available(lists, pos, i));
        }
    }
}

/// The choice among the first `k` heads falls on a head that has a line,
/// where there is one.
proof fn lemma_pick(lists: Seq<Seq<LineView>>, pos: Seq<int>, side: Side, k: nat)
    requires
        pos.len() == lists.len(),
        k <= lists.len(),
    ensures
        (exists|i: int| 0 <= i < k && #[trigger] available(lists, pos, i)) ==> {
            let (best, bp) = pick(lists, pos, side, k);
            &&& 0 <= bp < k
            &&& available(lists, pos, bp)
            &&& best == lists[bp][pos[bp]]
        },
        !(exists|i: int| 0 <= i < k && #[trigger] available(lists, pos, i)) ==> pick(
            lists,
            pos,
            side,
            k,
        ) == (empty_line(), 0int),
    decreases k,
{
    if k > 0 {
        lemma_pick(lists, pos, side, (k - 1) as nat);
        let i = k - 1;
        if !(exists|j: int| 0 <= j < k - 1 && #[trigger] available(lists, pos, j)) {
            if available(lists, pos, i) {
                assert(gives_way(side, empty_line(), lists[i][pos[i]]));
            } else {
                assert forall|j: int| 0 <= j < k implies !#[trigger] available(lists, pos, j) by {
                }
            }
        } else {
            let j = choose|j: int| 0 <= j < k - 1 && #[trigger] available(lists, pos, j);
            assert(0 <= j < k && available(lists, pos, j));
        }
    }
}

/// The state after `r` rounds, where every round found a line.
proof fn lemma_rounds(lists: Seq<Seq<LineView>>, side: Side, r: nat)
    requires
        r <= total_len(lists),
    ensures
        ({
            let (out, pos) = merge_rounds(lists, side, r);
            &&& out.len() == r
            &&& pos.len() == lists.len()
            &&& forall|i: int| 0 <= i < pos.len() ==> 0 <= #[trigger] pos[i] <= lists[i].len()
            &&& sum_of(pos) == r
        }),
    decreases r,
{
    if r == 0 {
        lemma_sum_zeros(lists.len());
    } else {
        lemma_rounds(lists, side, (r - 1) as nat);
        let (out, pos) = merge_rounds(lists, side, (r - 1) as nat);
        lemma_some_available(lists, pos);
        lemma_pick(lists, pos, side, lists.len());
        let bp = pick(lists, pos, side, lists.len()).1;
        lemma_sum_update(pos, bp, pos[bp] + 1);
        let pos2 = pos.update(bp, pos[bp] + 1);
        assert forall|i: int| 0 <= i < pos2.len() implies 0 <= #[trigger] pos2[i] <= lists[i].len() by {
            if i != bp {
                assert(pos2[i] == pos[i]);
            }
        }
    }
}

// ---------------------------------------------------------------------------
// Executable code
fn side_of(b: &OrderBook, side: Side) -> (r: &Vec<OrderLine>)
    ensures
        lines_view(r@) == side_lines(b@, side),
{
    match side {
        Side::Bid => &b.bids,
        Side::Ask => &b.asks,
    }
}

fn gives_way_exec(side: Side, best: &OrderLine, x: &OrderLine) -> (r: bool)
    ensures
        r == gives_way(side, best@, x@),
{
    match side {
        Side::Bid => best.smaller(x),
        Side::Ask => best.greater(x),
    }
}

proof fn lemma_lists_index(books: Seq<OrderBook>, side: Side, i: int)
    requires
        0 <= i < books.len(),
    ensures
        side_lists(book_views(books), side).len() == books.len(),
        side_lists(book_views(books), side)[i] == side_lines(books[i]@, side),
{
}

/// Whether the books hold at least ten lines of `side` together.
fn has_depth(books: &Vec<OrderBook>, side: Side) -> (r: bool)
    ensures
        r == (total_len(side_lists(book_views(books@), side)) >= DEPTH),
{
    let ghost lists = side_lists(book_views(books@), side);
    let mut tot: usize = 0;
    let mut i: usize = 0;
    assert(lists.take(0) =~= Seq::<Seq<LineView>>::empty());
    while i < books.len()
        invariant
            i <= books.len(),
            lists == side_lists(book_views(books@), side),
            lists.len() == books.len(),
            tot == total_len(lists.take(i as int)),
            tot < DEPTH,
        decreases books.len() - i,
    {
        proof {
            lemma_lists_index(books@, side, i as int);
            assert(lists.take(i + 1).drop_last() =~= lists.take(i as int));
        }
        let len: usize = side_of(&books[i], side).len();
        if len >= DEPTH - tot {
            proof {
                lemma_total_len_prefix(lists, i + 1);
            }
            return true;
        }
        tot = tot + len;
        i = i + 1;
    }
    assert(lists.take(i as int) =~= lists);
    false
}

/// The ten best lines of `side`, taken from the heads of the books' lists in
/// turn.
fn merge_side(books: &Vec<OrderBook>, side: Side) -> (r: Vec<OrderLine>)
    requires
        total_len(side_lists(book_views(books@), side)) >= DEPTH,
    ensures
        lines_view(r@) == merged_side(book_views(books@), side),
{
    let ghost lists = side_lists(book_views(books@), side);
    let n: usize = books.len();
    let mut p: Vec<usize> = Vec::new();
    let mut k: usize = 0;
    while k < n
        invariant
            k <= n,
            p@.len() == k,
            forall|j: int| 0 <= j < k ==> p@[j] == 0,
        decreases n - k,
    {
        p.push(0);
        k = k + 1;
    }
    assert(positions(p@) =~= merge_rounds(lists, side, 0).1);
    let mut out: Vec<OrderLine> = Vec::new();
    let mut r: usize = 0;
    while r < DEPTH
        invariant
            n == books.len(),
            lists == side_lists(book_views(books@), side),
            lists.len() == n,
            total_len(lists) >= DEPTH,
            r <= DEPTH,
            p@.len() == n,
            lines_view(out@) == merge_rounds(lists, side, r as nat).0,
            positions(p@) == merge_rounds(lists, side, r as nat).1,
        decreases DEPTH - r,
    {
        let ghost pos = merge_rounds(lists, side, r as nat).1;
        proof {
            lemma_rounds(lists, side, r as nat);
            lemma_some_available(lists, pos);
            lemma_pick(lists, pos, side, n as nat);
        }
        let mut best = OrderLine { exchange: String::new(), price: 0, amount: 0 };
        let mut bp: usize = 0;
        let mut i: usize = 0;
        while i < n
            invariant
                n == books.len(),
                lists == side_lists(book_views(books@), side),
                lists.len() == n,
                p@.len() == n,
                pos == positions(p@),
                i <= n,
                bp < n,
                (best@, bp as int) == pick(lists, pos, side, i as nat),
            decreases n - i,
        {
            proof {
                lemma_lists_index(books@, side, i as int);
            }
            let lines = side_of(&books[i], side);
            if p[i] < lines.len() {
                if gives_way_exec(side, &best, &lines[p[i]]) {
                    best = lines[p[i]].clone();
                    bp = i;
                }
            }
            i = i + 1;
        }
        proof {
            lemma_lists_index(books@, side, bp as int);
        }
        let chosen = side_of(&books[bp], side);
        let pb: usize = p[bp];
        let clen: usize = chosen.len();
        assert(pb < clen);
        let line: OrderLine = chosen[pb].clone();
        let ghost before = out@;
        out.push(line);
        assert(lines_view(out@) =~= lines_view(before).push(line@));
        let np: usize = pb + 1;
        p[bp] = np;
        assert(positions(p@) =~= pos.update(bp as int, pos[bp as int] + 1));
        r = r + 1;
    }
    out
}

/// Combines the books into the ten best bids and the ten best asks.
pub fn merge_books(books: &Vec<OrderBook>) -> (r: MergeOutcome)
    requires
        mergeable(book_views(books@)),
    ensures
        match r {
            MergeOutcome::Ignored => false,
            MergeOutcome::NoBooks => books.len() == 0,
            MergeOutcome::NotEnoughBids => books.len() > 0 && total_len(
                side_lists(book_views(books@), Side::Bid),
            ) < DEPTH,
            MergeOutcome::Merged(o) => books.len() > 0 && total_len(
                side_lists(book_views(books@), Side::Bid),
            ) >= DEPTH && o@ == merged_book(book_views(books@)),
        },
{
    if books.len() == 0 {
        return MergeOutcome::NoBooks;
    }
    if !has_depth(books, Side::Bid) {
        return MergeOutcome::NotEnoughBids;
    }
    let bids = merge_side(books, Side::Bid);
    let asks = merge_side(books, Side::Ask);
    proof {
        lemma_rounds(side_lists(book_views(books@), Side::Bid), Side::Bid, DEPTH as nat);
        lemma_rounds(side_lists(book_views(books@), Side::Ask), Side::Ask, DEPTH as nat);
    }
    let spread: i128 = (asks[0].price as i128) - (bids[0].price as i128);
    let o = OrderBook { spread, asks, bids };
    assert(o@.asks == merged_side(book_views(books@), Side::Ask));
    MergeOutcome::Merged(o)
}

/// What an update signal from an exchange feed leads to: only signal 0 asks
/// for a combined book.
pub fn on_update(signal: usize, books: &Vec<OrderBook>) -> (r: MergeOutcome)
    requires
        signal == 0 ==> mergeable(book_views(books@)),
    ensures
        signal != 0 ==> r is Ignored,
        signal == 0 ==> match r {
            MergeOutcome::Ignored => false,
            MergeOutcome::NoBooks => books.len() == 0,
            MergeOutcome::NotEnoughBids => books.len() > 0 && total_len(
                side_lists(book_views(books@), Side::Bid),
            ) < DEPTH,
            MergeOutcome::Merged(o) => books.len() > 0 && total_len(
                side_lists(book_views(books@), Side::Bid),
            ) >= DEPTH && o@ == merged_book(book_views(books@)),
        },
{
    if signal != 0 {
        return MergeOutcome::Ignored;
    }
    merge_books(books)
}


// ---------------------------------------------------------------------------
// Laws of the combined book

/// `l` lists its lines best first.
pub open spec fn sorted_best_first(side: Side, l: Seq<LineView>) -> bool {
    forall|a: int, b: int| 0 <= a <= b < l.len() ==> ranks_before(side, #[trigger] l[a], #[trigger] l[b])
}

/// Every line of `l` offers some amount.
pub open spec fn all_amounts_positive(l: Seq<LineView>) -> bool {
    forall|k: int| 0 <= k < l.len() ==> #[trigger] l[k].amount > 0
}

/// `x` is a line that list `i` gave up: one of its first `pos[i]` lines.
pub open spec fn taken_from(lists: Seq<Seq<LineView>>, pos: Seq<int>, x: LineView) -> bool {
    exists|i: int, k: int|
        0 <= i < lists.len() && 0 <= k < pos[i] && #[trigger] lists[i][k] == x
}

/// Line `k` of list `i` was not taken.
pub open spec fn left_over(lists: Seq<Seq<LineView>>, pos: Seq<int>, i: int, k: int) -> bool {
    0 <= i < lists.len() && pos[i] <= k < lists[i].len()
}

proof fn lemma_pick_best(lists: Seq<Seq<LineView>>, pos: Seq<int>, side: Side, k: nat)
    requires
        pos.len() == lists.len(),
        k <= lists.len(),
        forall|i: int| 0 <= i < k && available(lists, pos, i) ==> lists[i][pos[i]].amount > 0,
        exists|i: int| 0 <= i < k && #[trigger] available(lists, pos, i),
    ensures
        forall|i: int|
            0 <= i < k && #[trigger] available(lists, pos, i) ==> ranks_before(
                side,
                pick(lists, pos, side, k).0,
                lists[i][pos[i]],
            ),
    decreases k,
{
    lemma_pick(lists, pos, side, k);
    let i0 = k - 1;
    if exists|j: int| 0 <= j < k - 1 && #[trigger] available(lists, pos, j) {
        lemma_pick_best(lists, pos, side, (k - 1) as nat);
        lemma_pick(lists, pos, side, (k - 1) as nat);
    } else {
        lemma_pick(lists, pos, side, (k - 1) as nat);
        assert forall|i: int| 0 <= i < k && #[trigger] available(lists, pos, i) implies i == i0 by {
            if i < i0 {
                assert(0 <= i < k - 1 && available(lists, pos, i));
            }
        }
    }
}

/// After `r` rounds over lists that are sorted best first and offer some
/// amount on every line, the lines taken are sorted best first, and the last
/// one ranks before every line not taken.
proof fn lemma_rounds_best(lists: Seq<Seq<LineView>>, side: Side, r: nat)
    requires
        1 <= r <= total_len(lists),
        forall|i: int| 0 <= i < lists.len() ==> sorted_best_first(side, #[trigger] lists[i]),
        forall|i: int| 0 <= i < lists.len() ==> all_amounts_positive(#[trigger] lists[i]),
    ensures
        ({
            let (out, pos) = merge_rounds(lists, side, r);
            &&& forall|a: int, b: int|
                0 <= a <= b < r ==> ranks_before(side, #[trigger] out[a], #[trigger] out[b])
            &&& forall|i: int, k: int|
                #[trigger] left_over(lists, pos, i, k) ==> ranks_before(side, out[r - 1], lists[i][k])
        }),
    decreases r,
{
    let (out0, pos) = merge_rounds(lists, side, (r - 1) as nat);
    lemma_rounds(lists, side, (r - 1) as nat);
    lemma_rounds(lists, side, r);
    lemma_some_available(lists, pos);
    lemma_pick(lists, pos, side, lists.len());
    assert forall|i: int| 0 <= i < lists.len() && available(lists, pos, i) implies lists[i][pos[i]].amount
        > 0 by {
        assert(all_amounts_positive(lists[i]));
    }
    lemma_pick_best(lists, pos, side, lists.len());
    let bp = pick(lists, pos, side, lists.len()).1;
    let x = lists[bp][pos[bp]];
    let (out, pos2) = merge_rounds(lists, side, r);
    assert(out == out0.push(x));
    assert(pos2 == pos.update(bp, pos[bp] + 1));
    // x ranks before every line left over before this round
    assert forall|i: int, k: int| #[trigger] left_over(lists, pos, i, k) implies ranks_before(
        side,
        x,
        lists[i][k],
    ) by {
        assert(available(lists, pos, i));
        assert(sorted_best_first(side, lists[i]));
        assert(ranks_before(side, lists[i][pos[i]], lists[i][k]));
    }
    assert forall|i: int, k: int| #[trigger] left_over(lists, pos2, i, k) implies ranks_before(
        side,
        out[r - 1],
        lists[i][k],
    ) by {
        assert(left_over(lists, pos, i, k));
    }
    if r >= 2 {
        lemma_rounds_best(lists, side, (r - 1) as nat);
        assert(left_over(lists, pos, bp, pos[bp]));
        assert forall|a: int, b: int| 0 <= a <= b < r implies ranks_before(
            side,
            #[trigger] out[a],
            #[trigger] out[b],
        ) by {
            if b < r - 1 {
                assert(out[a] == out0[a] && out[b] == out0[b]);
            } else if a < r - 1 {
                assert(out[a] == out0[a]);
                assert(ranks_before(side, out0[a], out0[r - 2]));
            }
        }
    }
}

/// `a` comes no later than `b` on `side` when prices tie by amount: a bid
/// that pays more, or the same for at least the amount; an ask that asks
/// less, or the same for at least the amount.
pub open spec fn ranks_before_by_amount(side: Side, a: LineView, b: LineView) -> bool {
    match side {
        Side::Bid => a.price > b.price || (a.price == b.price && a.amount >= b.amount),
        Side::Ask => a.price < b.price || (a.price == b.price && a.amount >= b.amount),
    }
}

/// `l` lists its lines best first, and at equal prices larger amounts first.
pub open spec fn sorted_by_price_then_amount(side: Side, l: Seq<LineView>) -> bool {
    forall|a: int, b: int|
        0 <= a <= b < l.len() ==> ranks_before_by_amount(side, #[trigger] l[a], #[trigger] l[b])
}

proof fn lemma_pick_best_by_amount(lists: Seq<Seq<LineView>>, pos: Seq<int>, side: Side, k: nat)
    requires
        pos.len() == lists.len(),
        k <= lists.len(),
        forall|i: int| 0 <= i < k && available(lists, pos, i) ==> lists[i][pos[i]].amount > 0,
        exists|i: int| 0 <= i < k && #[trigger] available(lists, pos, i),
    ensures
        forall|i: int|
            0 <= i < k && #[trigger] available(lists, pos, i) ==> ranks_before_by_amount(
                side,
                pick(lists, pos, side, k).0,
                lists[i][pos[i]],
            ),
    decreases k,
{
    lemma_pick(lists, pos, side, k);
    let i0 = k - 1;
    if exists|j: int| 0 <= j < k - 1 && #[trigger] available(lists, pos, j) {
        lemma_pick_best_by_amount(lists, pos, side, (k - 1) as nat);
        lemma_pick(lists, pos, side, (k - 1) as nat);
    } else {
        lemma_pick(lists, pos, side, (k - 1) as nat);
        assert forall|i: int| 0 <= i < k && #[trigger] available(lists, pos, i) implies i == i0 by {
            if i < i0 {
                assert(0 <= i < k - 1 && available(lists, pos, i));
            }
        }
    }
}

proof fn lemma_rounds_best_by_amount(lists: Seq<Seq<LineView>>, side: Side, r: nat)
    requires
        1 <= r <= total_len(lists),
        forall|i: int| 0 <= i < lists.len() ==> sorted_by_price_then_amount(side, #[trigger] lists[i]),
        forall|i: int| 0 <= i < lists.len() ==> all_amounts_positive(#[trigger] lists[i]),
    ensures
        ({
            let (out, pos) = merge_rounds(lists, side, r);
            &&& forall|a: int, b: int|
                0 <= a <= b < r ==> ranks_before_by_amount(side, #[trigger] out[a], #[trigger] out[b])
            &&& forall|i: int, k: int|
                #[trigger] left_over(lists, pos, i, k) ==> ranks_before_by_amount(side, out[r - 1], lists[i][k])
        }),
    decreases r,
{
    let (out0, pos) = merge_rounds(lists, side, (r - 1) as nat);
    lemma_rounds(lists, side, (r - 1) as nat);
    lemma_rounds(lists, side, r);
    lemma_some_available(lists, pos);
    lemma_pick(lists, pos, side, lists.len());
    assert forall|i: int| 0 <= i < lists.len() && available(lists, pos, i) implies lists[i][pos[i]].amount
        > 0 by {
        assert(all_amounts_positive(lists[i]));
    }
    lemma_pick_best_by_amount(lists, pos, side, lists.len());
    let bp = pick(lists, pos, side, lists.len()).1;
    let x = lists[bp][pos[bp]];
    let (out, pos2) = merge_rounds(lists, side, r);
    assert(out == out0.push(x));
    assert(pos2 == pos.update(bp, pos[bp] + 1));
    // x ranks before every line left over before this round
    assert forall|i: int, k: int| #[trigger] left_over(lists, pos, i, k) implies ranks_before_by_amount(
        side,
        x,
        lists[i][k],
    ) by {
        assert(available(lists, pos, i));
        assert(sorted_by_price_then_amount(side, lists[i]));
        assert(ranks_before_by_amount(side, lists[i][pos[i]], lists[i][k]));
    }
    assert forall|i: int, k: int| #[trigger] left_over(lists, pos2, i, k) implies ranks_before_by_amount(
        side,
        out[r - 1],
        lists[i][k],
    ) by {
        assert(left_over(lists, pos, i, k));
    }
    if r >= 2 {
        lemma_rounds_best_by_amount(lists, side, (r - 1) as nat);
        assert(left_over(lists, pos, bp, pos[bp]));
        assert forall|a: int, b: int| 0 <= a <= b < r implies ranks_before_by_amount(
            side,
            #[trigger] out[a],
            #[trigger] out[b],
        ) by {
            if b < r - 1 {
                assert(out[a] == out0[a] && out[b] == out0[b]);
            } else if a < r - 1 {
                assert(out[a] == out0[a]);
                assert(ranks_before_by_amount(side, out0[a], out0[r - 2]));
            }
        }
    }
}

/// The lines that the lists gave up, list by list: the first `pos[i]` lines
/// of each list `i`.
pub open spec fn taken_lines(lists: Seq<Seq<LineView>>, pos: Seq<int>) -> Seq<LineView>
    decreases lists.len(),
{
    if lists.len() == 0 || pos.len() == 0 {
        Seq::empty()
    } else {
        taken_lines(lists.drop_last(), pos.drop_last()) + lists.last().take(pos.last())
    }
}

proof fn lemma_taken_none(lists: Seq<Seq<LineView>>)
    ensures
        taken_lines(lists, Seq::new(lists.len(), |i: int| 0int)) =~= Seq::<LineView>::empty(),
    decreases lists.len(),
{
    if lists.len() > 0 {
        let z = Seq::new(lists.len(), |i: int| 0int);
        assert(z.drop_last() =~= Seq::new(lists.drop_last().len(), |i: int| 0int));
        lemma_taken_none(lists.drop_last());
        assert(lists.last().take(0) =~= Seq::<LineView>::empty());
    }
}

/// Giving up one more line of list `j` adds that line to what was taken.
proof fn lemma_taken_step(lists: Seq<Seq<LineView>>, pos: Seq<int>, j: int)
    requires
        pos.len() == lists.len(),
        0 <= j < lists.len(),
        0 <= pos[j] < lists[j].len(),
    ensures
        taken_lines(lists, pos.update(j, pos[j] + 1)).to_multiset() =~= taken_lines(
            lists,
            pos,
        ).to_multiset().insert(lists[j][pos[j]]),
    decreases lists.len(),
{
    broadcast use vstd::seq_lib::group_to_multiset_ensures, vstd::multiset::group_multiset_axioms;
    let n = lists.len();
    let pos2 = pos.update(j, pos[j] + 1);
    let x = lists[j][pos[j]];
    let t = taken_lines(lists.drop_last(), pos.drop_last());
    if j == n - 1 {
        assert(pos2.drop_last() =~= pos.drop_last());
        assert(lists.last().take(pos2.last()) =~= lists.last().take(pos.last()).push(x));
        assert(taken_lines(lists, pos2) =~= (t + lists.last().take(pos.last())).push(x));
        vstd::seq_lib::to_multiset_build(t + lists.last().take(pos.last()), x);
    } else {
        assert(pos2.drop_last() =~= pos.drop_last().update(j, pos[j] + 1));
        lemma_taken_step(lists.drop_last(), pos.drop_last(), j);
        let t2 = taken_lines(lists.drop_last(), pos2.drop_last());
        let tail = lists.last().take(pos.last());
        assert(pos2.last() == pos.last());
        vstd::seq_lib::lemma_multiset_commutative(t2, tail);
        vstd::seq_lib::lemma_multiset_commutative(t, tail);
    }
}

/// After `r` rounds the lines taken are, counted with multiplicity, the first
/// lines of each list, as many as the positions say.
proof fn lemma_rounds_taken(lists: Seq<Seq<LineView>>, side: Side, r: nat)
    requires
        r <= total_len(lists),
    ensures
        ({
            let (out, pos) = merge_rounds(lists, side, r);
            out.to_multiset() =~= taken_lines(lists, pos).to_multiset()
        }),
    decreases r,
{
    broadcast use vstd::seq_lib::group_to_multiset_ensures, vstd::multiset::group_multiset_axioms;
    if r == 0 {
        lemma_taken_none(lists);
        assert(Seq::<LineView>::empty().to_multiset() =~= vstd::multiset::Multiset::empty());
    } else {
        lemma_rounds_taken(lists, side, (r - 1) as nat);
        lemma_rounds(lists, side, (r - 1) as nat);
        let (out0, pos) = merge_rounds(lists, side, (r - 1) as nat);
        lemma_some_available(lists, pos);
        lemma_pick(lists, pos, side, lists.len());
        let bp = pick(lists, pos, side, lists.len()).1;
        lemma_taken_step(lists, pos, bp);
        vstd::seq_lib::to_multiset_build(out0, lists[bp][pos[bp]]);
    }
}

/// After `r` rounds every line taken is one that some list gave up.
proof fn lemma_rounds_from(lists: Seq<Seq<LineView>>, side: Side, r: nat)
    requires
        r <= total_len(lists),
    ensures
        ({
            let (out, pos) = merge_rounds(lists, side, r);
            forall|j: int| 0 <= j < r ==> taken_from(lists, pos, #[trigger] out[j])
        }),
    decreases r,
{
    if r > 0 {
        lemma_rounds_from(lists, side, (r - 1) as nat);
        lemma_rounds(lists, side, (r - 1) as nat);
        let (out0, pos) = merge_rounds(lists, side, (r - 1) as nat);
        lemma_some_available(lists, pos);
        lemma_pick(lists, pos, side, lists.len());
        let bp = pick(lists, pos, side, lists.len()).1;
        let (out, pos2) = merge_rounds(lists, side, r);
        assert forall|j: int| 0 <= j < r implies taken_from(lists, pos2, #[trigger] out[j]) by {
            if j < r - 1 {
                assert(out[j] == out0[j]);
                assert(taken_from(lists, pos, out0[j]));
                let (i, k) = choose|i: int, k: int|
                    0 <= i < lists.len() && 0 <= k < pos[i] && #[trigger] lists[i][k] == out0[j];
                assert(0 <= k < pos2[i] && lists[i][k] == out[j]);
            } else {
                assert(out[j] == lists[bp][pos[bp]]);
                assert(0 <= pos[bp] < pos2[bp]);
            }
        }
    }
}

/// Each side of the combined book holds ten lines, each of them a line that
/// one of the books gave up; the books gave up ten lines in all, and no book
/// more lines than it has; and the side holds, counted with multiplicity,
/// exactly the first lines of each book that it gave up.
pub proof fn law_merged_lines_come_from_books(books: Seq<BookView>, side: Side)
    requires
        total_len(side_lists(books, side)) >= DEPTH,
    ensures
        ({
            let lists = side_lists(books, side);
            let (out, pos) = merge_rounds(lists, side, DEPTH as nat);
            &&& out == merged_side(books, side)
            &&& out.len() == DEPTH
            &&& pos.len() == books.len()
            &&& forall|i: int| 0 <= i < books.len() ==> 0 <= #[trigger] pos[i] <= lists[i].len()
            &&& sum_of(pos) == DEPTH
            &&& forall|j: int| 0 <= j < DEPTH ==> taken_from(lists, pos, #[trigger] out[j])
            &&& out.to_multiset() == taken_lines(lists, pos).to_multiset()
        }),
{
    lemma_rounds(side_lists(books, side), side, DEPTH as nat);
    lemma_rounds_from(side_lists(books, side), side, DEPTH as nat);
    lemma_rounds_taken(side_lists(books, side), side, DEPTH as nat);
}

/// Where every book lists each side best first and offers some amount on
/// every line, each side of the combined book is sorted best first and every
/// line it holds ranks before every line that it left out.
pub proof fn law_merged_side_is_best(books: Seq<BookView>, side: Side)
    requires
        total_len(side_lists(books, side)) >= DEPTH,
        forall|i: int| 0 <= i < books.len() ==> sorted_best_first(side, #[trigger] side_lines(books[i], side)),
        forall|i: int| 0 <= i < books.len() ==> all_amounts_positive(#[trigger] side_lines(books[i], side)),
    ensures
        ({
            let lists = side_lists(books, side);
            let (out, pos) = merge_rounds(lists, side, DEPTH as nat);
            &&& sorted_best_first(side, out)
            &&& forall|j: int, i: int, k: int|
                0 <= j < DEPTH && #[trigger] left_over(lists, pos, i, k) ==> ranks_before(
                    side,
                    #[trigger] out[j],
                    lists[i][k],
                )
        }),
{
    let lists = side_lists(books, side);
    assert forall|i: int| 0 <= i < lists.len() implies sorted_best_first(side, #[trigger] lists[i]) by {
        assert(lists[i] == side_lines(books[i], side));
    }
    assert forall|i: int| 0 <= i < lists.len() implies all_amounts_positive(#[trigger] lists[i]) by {
        assert(lists[i] == side_lines(books[i], side));
    }
    lemma_rounds(lists, side, DEPTH as nat);
    lemma_rounds_best(lists, side, DEPTH as nat);
    let (out, pos) = merge_rounds(lists, side, DEPTH as nat);
    assert forall|j: int, i: int, k: int|
        0 <= j < DEPTH && #[trigger] left_over(lists, pos, i, k) implies ranks_before(
        side,
        #[trigger] out[j],
        lists[i][k],
    ) by {
        assert(ranks_before(side, out[j], out[DEPTH - 1]));
        assert(ranks_before(side, out[DEPTH - 1], lists[i][k]));
    }
}


/// Where every book lists each side best first, at equal prices larger
/// amounts first, and offers some amount on every line, each side of the
/// combined book is sorted the same way, and every line it holds ranks before
/// every line that it left out: at an equal price, no line it takes has a
/// smaller amount than a line it takes later or leaves out.
pub proof fn law_merged_side_is_best_by_price_then_amount(books: Seq<BookView>, side: Side)
    requires
        total_len(side_lists(books, side)) >= DEPTH,
        forall|i: int| 0 <= i < books.len() ==> sorted_by_price_then_amount(side, #[trigger] side_lines(books[i], side)),
        forall|i: int| 0 <= i < books.len() ==> all_amounts_positive(#[trigger] side_lines(books[i], side)),
    ensures
        ({
            let lists = side_lists(books, side);
            let (out, pos) = merge_rounds(lists, side, DEPTH as nat);
            &&& sorted_by_price_then_amount(side, out)
            &&& forall|j: int, i: int, k: int|
                0 <= j < DEPTH && #[trigger] left_over(lists, pos, i, k) ==> ranks_before_by_amount(
                    side,
                    #[trigger] out[j],
                    lists[i][k],
                )
        }),
{
    let lists = side_lists(books, side);
    assert forall|i: int| 0 <= i < lists.len() implies sorted_by_price_then_amount(side, #[trigger] lists[i]) by {
        assert(lists[i] == side_lines(books[i], side));
    }
    assert forall|i: int| 0 <= i < lists.len() implies all_amounts_positive(#[trigger] lists[i]) by {
        assert(lists[i] == side_lines(books[i], side));
    }
    lemma_rounds(lists, side, DEPTH as nat);
    lemma_rounds_best_by_amount(lists, side, DEPTH as nat);
    let (out, pos) = merge_rounds(lists, side, DEPTH as nat);
    assert forall|j: int, i: int, k: int|
        0 <= j < DEPTH && #[trigger] left_over(lists, pos, i, k) implies ranks_before_by_amount(
        side,
        #[trigger] out[j],
        lists[i][k],
    ) by {
        assert(ranks_before_by_amount(side, out[j], out[DEPTH - 1]));
        assert(ranks_before_by_amount(side, out[DEPTH - 1], lists[i][k]));
    }
}

/// Line `k` of list `i`, one of the first `pos[i]`, is among the lines taken.
proof fn lemma_taken_contains(lists: Seq<Seq<LineView>>, pos: Seq<int>, i: int, k: int)
    requires
        pos.len() == lists.len(),
        0 <= i < lists.len(),
        0 <= k < pos[i] <= lists[i].len(),
    ensures
        taken_lines(lists, pos).contains(lists[i][k]),
    decreases lists.len(),
{
    let n = lists.len();
    let t = taken_lines(lists.drop_last(), pos.drop_last());
    let tail = lists.last().take(pos.last());
    if i == n - 1 {
        assert((t + tail)[t.len() + k] == lists[i][k]);
    } else {
        lemma_taken_contains(lists.drop_last(), pos.drop_last(), i, k);
        let j = choose|j: int| 0 <= j < t.len() && t[j] == lists[i][k];
        assert((t + tail)[j] == lists[i][k]);
    }
}

/// The first line of a combined side, for books that list it best first with
/// some amount on every line, is a line of one of the books and ranks before
/// every line of every book.
proof fn lemma_first_is_best(books: Seq<BookView>, side: Side)
    requires
        total_len(side_lists(books, side)) >= DEPTH,
        forall|i: int| 0 <= i < books.len() ==> sorted_best_first(side, #[trigger] side_lines(books[i], side)),
        forall|i: int| 0 <= i < books.len() ==> all_amounts_positive(#[trigger] side_lines(books[i], side)),
    ensures
        ({
            let first = merged_side(books, side)[0];
            &&& exists|i: int, k: int|
                0 <= i < books.len() && 0 <= k < side_lines(books[i], side).len()
                    && #[trigger] side_lines(books[i], side)[k] == first
            &&& forall|i: int, k: int|
                0 <= i < books.len() && 0 <= k < side_lines(books[i], side).len() ==> ranks_before(
                    side,
                    first,
                    #[trigger] side_lines(books[i], side)[k],
                )
        }),
{
    broadcast use vstd::seq_lib::group_to_multiset_ensures;
    let lists = side_lists(books, side);
    law_merged_lines_come_from_books(books, side);
    law_merged_side_is_best(books, side);
    let (out, pos) = merge_rounds(lists, side, DEPTH as nat);
    let first = out[0];
    assert(taken_from(lists, pos, out[0]));
    let (i0, k0) = choose|i: int, k: int|
        0 <= i < lists.len() && 0 <= k < pos[i] && #[trigger] lists[i][k] == out[0];
    assert(lists[i0] == side_lines(books[i0], side));
    assert forall|i: int, k: int|
        0 <= i < books.len() && 0 <= k < side_lines(books[i], side).len() implies ranks_before(
        side,
        first,
        #[trigger] side_lines(books[i], side)[k],
    ) by {
        assert(lists[i] == side_lines(books[i], side));
        if k >= pos[i] {
            assert(left_over(lists, pos, i, k));
        } else {
            lemma_taken_contains(lists, pos, i, k);
            let x = lists[i][k];
            assert(taken_lines(lists, pos).to_multiset().count(x) > 0);
            assert(out.to_multiset().count(x) > 0);
            assert(out.contains(x));
            let j = choose|j: int| 0 <= j < out.len() && out[j] == x;
            assert(ranks_before(side, out[0], out[j]));
        }
    }
}

/// For books that list each side best first with some amount on every line,
/// the spread of the combined book is the lowest ask of all the books less
/// the highest bid of all the books: its first ask is an ask of some book
/// that no ask undercuts, and its first bid a bid of some book that no bid
/// outbids.
pub proof fn law_spread_is_best_ask_minus_best_bid(books: Seq<BookView>)
    requires
        total_len(side_lists(books, Side::Ask)) >= DEPTH,
        total_len(side_lists(books, Side::Bid)) >= DEPTH,
        forall|i: int| 0 <= i < books.len() ==> sorted_best_first(Side::Ask, #[trigger] books[i].asks),
        forall|i: int| 0 <= i < books.len() ==> sorted_best_first(Side::Bid, #[trigger] books[i].bids),
        forall|i: int| 0 <= i < books.len() ==> all_amounts_positive(#[trigger] books[i].asks),
        forall|i: int| 0 <= i < books.len() ==> all_amounts_positive(#[trigger] books[i].bids),
    ensures
        ({
            let m = merged_book(books);
            &&& m.spread == m.asks[0].price - m.bids[0].price
            &&& exists|i: int, k: int|
                0 <= i < books.len() && 0 <= k < books[i].asks.len() && #[trigger] books[i].asks[k]
                    == m.asks[0]
            &&& exists|i: int, k: int|
                0 <= i < books.len() && 0 <= k < books[i].bids.len() && #[trigger] books[i].bids[k]
                    == m.bids[0]
            &&& forall|i: int, k: int|
                0 <= i < books.len() && 0 <= k < books[i].asks.len() ==> m.asks[0].price
                    <= #[trigger] books[i].asks[k].price
            &&& forall|i: int, k: int|
                0 <= i < books.len() && 0 <= k < books[i].bids.len() ==> m.bids[0].price
                    >= #[trigger] books[i].bids[k].price
        }),
{
    assert forall|i: int| 0 <= i < books.len() implies sorted_best_first(
        Side::Ask,
        #[trigger] side_lines(books[i], Side::Ask),
    ) && all_amounts_positive(side_lines(books[i], Side::Ask)) by {
        assert(sorted_best_first(Side::Ask, books[i].asks));
        assert(all_amounts_positive(books[i].asks));
    }
    assert forall|i: int| 0 <= i < books.len() implies sorted_best_first(
        Side::Bid,
        #[trigger] side_lines(books[i], Side::Bid),
    ) && all_amounts_positive(side_lines(books[i], Side::Bid)) by {
        assert(sorted_best_first(Side::Bid, books[i].bids));
        assert(all_amounts_positive(books[i].bids));
    }
    lemma_first_is_best(books, Side::Ask);
    lemma_first_is_best(books, Side::Bid);
    law_merged_lines_come_from_books(books, Side::Ask);
    law_merged_lines_come_from_books(books, Side::Bid);
    let m = merged_book(books);
    let ia = choose|i: int, k: int|
        0 <= i < books.len() && 0 <= k < side_lines(books[i], Side::Ask).len()
            && #[trigger] side_lines(books[i], Side::Ask)[k] == m.asks[0];
    assert(books[ia.0].asks[ia.1] == m.asks[0]);
    let ib = choose|i: int, k: int|
        0 <= i < books.len() && 0 <= k < side_lines(books[i], Side::Bid).len()
            && #[trigger] side_lines(books[i], Side::Bid)[k] == m.bids[0];
    assert(books[ib.0].bids[ib.1] == m.bids[0]);
    assert forall|i: int, k: int|
        0 <= i < books.len() && 0 <= k < books[i].asks.len() implies m.asks[0].price
        <= #[trigger] books[i].asks[k].price by {
        assert(ranks_before(Side::Ask, m.asks[0], side_lines(books[i], Side::Ask)[k]));
    }
    assert forall|i: int, k: int|
        0 <= i < books.len() && 0 <= k < books[i].bids.len() implies m.bids[0].price
        >= #[trigger] books[i].bids[k].price by {
        assert(ranks_before(Side::Bid, m.bids[0], side_lines(books[i], Side::Bid)[k]));
    }
}

} // verus!
