use vstd::prelude::*;
use crate::exchanges::DepthLevel;
use crate::trading::book::{
    book_matched_alone, book_with_asset, book_with_order, BookView, OrderBook,
};
use crate::trading::instrument::{Instrument, InstrumentView};
use crate::trading::tools::{Order, OrderStatus, OrderView, TradeRequest};

verus! {

/// The order that is made of one level of a snapshot.
pub open spec fn level_order(level: DepthLevel, request: TradeRequest, id: u128) -> OrderView {
    OrderView {
        id,
        is_arbitrage: false,
        status: OrderStatus::Pending,
        price: level.0,
        request,
        quantity: level.1,
        remaining_qty: 0,
        filled_with: Seq::empty(),
    }
}

/// The book after the levels of one side of a snapshot were handed to it as
/// orders, first level first, each under the id of its place.
pub open spec fn book_with_levels(
    book: BookView,
    key: InstrumentView,
    levels: Seq<DepthLevel>,
    request: TradeRequest,
    ids: Seq<u128>,
) -> BookView
    decreases levels.len(),
{
    if levels.len() == 0 {
        book
    } else {
        book_with_order(
            book_with_levels(book, key, levels.drop_last(), request, ids),
            key,
            level_order(levels.last(), request, ids[levels.len() - 1]),
        )
    }
}

/// The book after a snapshot was put into it: the instrument is registered,
/// then the asks and then the bids are handed to the book as orders, the asks
/// under the first ids and the bids under those that follow.
pub open spec fn book_with_snapshot(
    book: BookView,
    key: InstrumentView,
    asks: Seq<DepthLevel>,
    bids: Seq<DepthLevel>,
    ids: Seq<u128>,
) -> BookView {
    book_with_levels(
        book_with_levels(book_with_asset(book, key), key, asks, TradeRequest::Ask, ids),
        key,
        bids,
        TradeRequest::Bid,
        ids.skip(asks.len() as int),
    )
}

/// Hands the levels of one side to the book as orders, each with the clock's
/// reading as its id, and appends the ids to `ids`.
fn insert_side(
    order_book: &mut OrderBook,
    levels: &Vec<DepthLevel>,
    request: TradeRequest,
    instrument: &Instrument,
    ids: &mut Vec<u128>,
)
    requires
        old(order_book).wf(),
    ensures
        final(order_book).wf(),
        final(ids)@.len() == old(ids)@.len() + levels@.len(),
        final(ids)@.take(old(ids)@.len() as int) == old(ids)@,
        final(order_book)@ == book_with_levels(
            old(order_book)@,
            instrument@,
            levels@,
            request,
            final(ids)@.skip(old(ids)@.len() as int),
        ),
{
    let ghost start = order_book@;
    let ghost ids0 = ids@;
    let mut i: usize = 0;
    proof {
        assert(ids@.take(ids0.len() as int) =~= ids0);
    }
    while i < levels.len()
        invariant
            i <= levels.len(),
            order_book.wf(),
            ids@.len() == ids0.len() + i,
            ids@.take(ids0.len() as int) == ids0,
            order_book@ == book_with_levels(
                start,
                instrument@,
                levels@.take(i as int),
                request,
                ids@.skip(ids0.len() as int),
            ),
        decreases levels.len() - i,
    {
        let (price, quantity) = levels[i];
        let order = Order::new(price, quantity, request);
        let ghost before = ids@;
        let ghost taken = order@;
        ids.push(order.id);
        proof {
            assert(taken.filled_with =~= Seq::empty());
            assert(taken == level_order(levels@[i as int], request, order.id));
            assert(levels@.take(i + 1).drop_last() =~= levels@.take(i as int));
            assert(levels@.take(i + 1).last() == levels@[i as int]);
            assert(ids@.skip(ids0.len() as int)[i as int] == order.id);
            lemma_levels_ids(
                start,
                instrument@,
                levels@.take(i as int),
                request,
                before.skip(ids0.len() as int),
                ids@.skip(ids0.len() as int),
            );
            assert(ids@.take(ids0.len() as int) =~= before.take(ids0.len() as int));
        }
        let _ = order_book.add_order(order, instrument);
        i = i + 1;
    }
    proof {
        assert(levels@.take(levels@.len() as int) =~= levels@);
    }
}

/// Only the ids of the levels' places matter.
proof fn lemma_levels_ids(
    book: BookView,
    key: InstrumentView,
    levels: Seq<DepthLevel>,
    request: TradeRequest,
    a: Seq<u128>,
    b: Seq<u128>,
)
    requires
        levels.len() <= a.len(),
        levels.len() <= b.len(),
        forall|i: int| 0 <= i < levels.len() ==> a[i] == b[i],
    ensures
        book_with_levels(book, key, levels, request, a) == book_with_levels(
            book,
            key,
            levels,
            request,
            b,
        ),
    decreases levels.len(),
{
    if levels.len() > 0 {
        lemma_levels_ids(book, key, levels.drop_last(), request, a, b);
    }
}

/// Puts one snapshot into the book: registers the instrument, then hands the
/// asks and then the bids to the book as orders. Each order gets the clock's
/// reading as its id; the ids are returned in the order in which they were
/// given out. A level that the book does not take as an order, such as one
/// without quantity, gets an id all the same and leaves the book as it was.
pub fn insert_snapshot(
    order_book: &mut OrderBook,
    asks: &Vec<DepthLevel>,
    bids: &Vec<DepthLevel>,
    instrument: &Instrument,
) -> (ids: Vec<u128>)
    requires
        old(order_book).wf(),
    ensures
        final(order_book).wf(),
        ids@.len() == asks@.len() + bids@.len(),
        final(order_book)@ == book_with_snapshot(
            old(order_book)@,
            instrument@,
            asks@,
            bids@,
            ids@,
        ),
{
    let ghost start = order_book@;
    let mut ids: Vec<u128> = Vec::new();
    order_book.add_asset(instrument.clone());
    let ghost registered = order_book@;
    insert_side(order_book, asks, TradeRequest::Ask, instrument, &mut ids);
    let ghost ask_ids = ids@;
    proof {
        assert(ask_ids.skip(0) =~= ask_ids);
    }
    insert_side(order_book, bids, TradeRequest::Bid, instrument, &mut ids);
    proof {
        lemma_levels_ids(registered, instrument@, asks@, TradeRequest::Ask, ask_ids, ids@);
    }
    ids
}

/// Puts one snapshot into the book and then runs a matching pass for its
/// instrument against the book's own ladder.
pub fn run_snapshot(
    order_book: &mut OrderBook,
    asks: &Vec<DepthLevel>,
    bids: &Vec<DepthLevel>,
    instrument: &Instrument,
) -> (ids: Vec<u128>)
    requires
        old(order_book).wf(),
    ensures
        final(order_book).wf(),
        ids@.len() == asks@.len() + bids@.len(),
        final(order_book)@ == book_matched_alone(
            book_with_snapshot(old(order_book)@, instrument@, asks@, bids@, ids@),
            instrument@,
        ),
{
    let ids = insert_snapshot(order_book, asks, bids, instrument);
    order_book.match_orders(instrument, None);
    ids
}

} // verus!
