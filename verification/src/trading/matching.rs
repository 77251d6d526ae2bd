use vstd::prelude::*;
use std::collections::VecDeque;
use crate::trading::columns::{history_wf, queue_wf};
use crate::trading::ladder::{row_consistent, LevelView, PriceRow};
use crate::trading::price::Price;
use crate::trading::tools::{
    filled_total, fills_positive, fills_view, has_foreign_fill, lemma_filled_concat,
    lemma_total_positive, orders_view, total_of, HoldingView, MatchedOrders, MatchedView, Order,
    OrderStatus, OrderView, TradeRequest,
};
use crate::utils::helpers::{
    drained, drained_ids, lemma_drained_sources, lemma_drained_total, match_at_price_level,
    matched_quantity,
};

verus! {

/// What a walk along one side of a ladder leaves behind: the levels after the
/// walk, the fills it produced in the order of the walk, what the taker still
/// wants, and the ids of the contributors it consumed in full.
pub struct Walk {
    pub levels: Seq<LevelView>,
    pub fills: Seq<MatchedView>,
    pub remaining: int,
    pub removed: Seq<u128>,
}

/// A level after an incoming quantity was taken out of it.
pub open spec fn level_after(level: LevelView, incoming: int) -> LevelView {
    let kept = drained(level.holding.orders, incoming);
    LevelView {
        price: level.price,
        holding: HoldingView { total_quantity: total_of(kept), orders: kept },
    }
}

/// The fill that taking an incoming quantity out of a level records: one fill
/// at the level's price, or none where nothing was taken.
pub open spec fn fill_at(level: LevelView, incoming: int, venue: Seq<char>) -> Seq<MatchedView> {
    let done = matched_quantity(level.holding.orders, incoming);
    if done > 0 {
        seq![MatchedView { price: level.price, quantity: done as i32, exchange: venue }]
    } else {
        Seq::empty()
    }
}

/// An ask walks the bids from the highest price down, for as long as the bid
/// is at or above the ask's own price.
pub open spec fn walk_bids(levels: Seq<LevelView>, limit: int, incoming: int, venue: Seq<char>) -> Walk
    decreases levels.len(),
{
    if levels.len() == 0 || levels.last().price.rank() < limit {
        Walk { levels, fills: Seq::empty(), remaining: incoming, removed: Seq::empty() }
    } else {
        let best = levels.last();
        let done = matched_quantity(best.holding.orders, incoming);
        let rest = walk_bids(levels.drop_last(), limit, incoming - done, venue);
        Walk {
            levels: rest.levels.push(level_after(best, incoming)),
            fills: fill_at(best, incoming, venue) + rest.fills,
            remaining: rest.remaining,
            removed: drained_ids(best.holding.orders, incoming) + rest.removed,
        }
    }
}

/// A bid walks the asks from the lowest price up, for as long as the ask is at
/// or below the bid's own price.
pub open spec fn walk_asks(levels: Seq<LevelView>, limit: int, incoming: int, venue: Seq<char>) -> Walk
    decreases levels.len(),
{
    if levels.len() == 0 || levels.first().price.rank() > limit {
        Walk { levels, fills: Seq::empty(), remaining: incoming, removed: Seq::empty() }
    } else {
        let best = levels.first();
        let done = matched_quantity(best.holding.orders, incoming);
        let rest = walk_asks(levels.skip(1), limit, incoming - done, venue);
        Walk {
            levels: seq![level_after(best, incoming)] + rest.levels,
            fills: fill_at(best, incoming, venue) + rest.fills,
            remaining: rest.remaining,
            removed: drained_ids(best.holding.orders, incoming) + rest.removed,
        }
    }
}

/// Moves the ids of a deque to the end of a list, first id first.
pub fn append_ids(list: &mut Vec<u128>, ids: &mut VecDeque<u128>)
    ensures
        final(list)@ == old(list)@ + old(ids)@,
        final(ids)@.len() == 0,
{
    let ghost start = list@;
    let ghost all = ids@;
    let ghost mut moved: int = 0;
    proof {
        assert(all.skip(0) =~= all);
        assert(start + all.take(0) =~= start);
    }
    while ids.len() > 0
        invariant
            0 <= moved <= all.len(),
            ids@ == all.skip(moved),
            list@ == start + all.take(moved),
        decreases ids@.len(),
    {
        let id = ids.pop_front().unwrap();
        list.push(id);
        proof {
            assert(id == all[moved]);
            assert(ids@ =~= all.skip(moved + 1));
            assert(list@ =~= start + all.take(moved + 1));
            moved = moved + 1;
        }
    }
    proof {
        assert(all.take(all.len() as int) =~= all);
    }
}

/// Walks the bids for an ask priced at `limit` that still wants `remaining`.
/// The fills and the consumed ids are appended to `fills` and `removed`.
pub fn take_from_bids(
    row: &mut PriceRow,
    limit: &Price,
    remaining: &mut i32,
    venue: &str,
    fills: &mut VecDeque<MatchedOrders>,
    removed: &mut Vec<u128>,
)
    requires
        row_consistent(old(row)@),
        *old(remaining) >= 0,
    ensures
        final(row)@ == walk_bids(
            old(row)@,
            limit.rank(),
            *old(remaining) as int,
            venue@,
        ).levels,
        fills_view(final(fills)@) == fills_view(old(fills)@) + walk_bids(
            old(row)@,
            limit.rank(),
            *old(remaining) as int,
            venue@,
        ).fills,
        *final(remaining) == walk_bids(
            old(row)@,
            limit.rank(),
            *old(remaining) as int,
            venue@,
        ).remaining,
        final(removed)@ == old(removed)@ + walk_bids(
            old(row)@,
            limit.rank(),
            *old(remaining) as int,
            venue@,
        ).removed,
        row_consistent(final(row)@),
        0 <= *final(remaining) <= *old(remaining),
{
    let ghost before = row@;
    let ghost wanted = *remaining as int;
    let ghost fills0 = fills_view(fills@);
    let ghost removed0 = removed@;
    let ghost target = walk_bids(before, limit.rank(), wanted, venue@);
    let ghost mut got: Seq<MatchedView> = Seq::empty();
    let ghost mut gone: Seq<u128> = Seq::empty();
    let mut j: usize = row.levels.len();
    proof {
        assert(before.take(j as int) =~= before);
        assert(row@.skip(j as int) =~= Seq::<LevelView>::empty());
        assert(fills0 + got =~= fills0);
        assert(removed0 + gone =~= removed0);
    }
    while j > 0 && limit.le(&row.levels[j - 1].price)
        invariant
            j <= row.levels.len(),
            row@.len() == before.len(),
            row_consistent(row@),
            row_consistent(before),
            forall|i: int| 0 <= i < j ==> (#[trigger] row@[i]) == before[i],
            0 <= *remaining <= wanted,
            fills_view(fills@) == fills0 + got,
            removed@ == removed0 + gone,
            target == walk_bids(before, limit.rank(), wanted, venue@),
            ({
                let w = walk_bids(before.take(j as int), limit.rank(), *remaining as int, venue@);
                &&& target.levels == w.levels + row@.skip(j as int)
                &&& target.fills == got + w.fills
                &&& target.remaining == w.remaining
                &&& target.removed == gone + w.removed
            }),
        decreases j,
    {
        let ghost row_before = row@;
        let ghost raw_before = row.levels@;
        let ghost rem = *remaining as int;
        let ghost best = before[j - 1];
        proof {
            assert(before.take(j as int).last() == best);
            assert(before.take(j as int).drop_last() =~= before.take(j - 1));
            assert(row@[j - 1] == best);
            assert(row.levels@[j - 1]@ == best);
            assert(best.wf());
            lemma_drained_total(best.holding.orders, rem);
        }
        let price = row.levels[j - 1].price;
        let (done, mut ids) = match_at_price_level(&mut row.levels[j - 1].holding, remaining);
        let ghost taken = ids@;
        append_ids(removed, &mut ids);
        if done > 0 {
            let ghost so_far = fills@;
            let fill = MatchedOrders::new(price, done, venue);
            fills.push_back(fill);
            assert(fills_view(fills@) =~= fills_view(so_far).push(fill@));
        }
        proof {
            let w = walk_bids(before.take(j as int), limit.rank(), rem, venue@);
            let w2 = walk_bids(before.take(j - 1), limit.rank(), *remaining as int, venue@);
            assert(row.levels@.len() == raw_before.len());
            assert(row.levels@[j - 1].price == raw_before[j - 1].price);
            assert(row@[j - 1] == level_after(best, rem));
            assert forall|i: int| 0 <= i < row@.len() && i != j - 1 implies #[trigger] row@[i]
                == row_before[i] by {
                assert(row.levels@[i] == raw_before[i]);
                assert(row_before[i] == raw_before[i]@);
            }
            assert(row@.skip(j - 1) =~= seq![level_after(best, rem)] + row_before.skip(j as int));
            assert(w.levels + row_before.skip(j as int) =~= w2.levels + row@.skip(j - 1));
            assert(fills_view(fills@) =~= fills0 + (got + fill_at(best, rem, venue@)));
            assert(got + w.fills =~= (got + fill_at(best, rem, venue@)) + w2.fills);
            assert(gone + w.removed =~= (gone + taken) + w2.removed);
            assert(removed@ =~= removed0 + (gone + taken));
            got = got + fill_at(best, rem, venue@);
            gone = gone + taken;
        }
        j = j - 1;
    }
    proof {
        let w = walk_bids(before.take(j as int), limit.rank(), *remaining as int, venue@);
        if j > 0 {
            assert(before.take(j as int).last() == before[j - 1]);
            assert(row@[j - 1] == before[j - 1]);
            assert(row.levels@[j - 1]@ == row@[j - 1]);
        }
        assert(w.levels == before.take(j as int));
        assert(row@ =~= before.take(j as int) + row@.skip(j as int));
        assert(got + w.fills =~= got);
        assert(gone + w.removed =~= gone);
    }
}

/// Walks the asks for a bid priced at `limit` that still wants `remaining`.
/// The fills and the consumed ids are appended to `fills` and `removed`.
pub fn take_from_asks(
    row: &mut PriceRow,
    limit: &Price,
    remaining: &mut i32,
    venue: &str,
    fills: &mut VecDeque<MatchedOrders>,
    removed: &mut Vec<u128>,
)
    requires
        row_consistent(old(row)@),
        *old(remaining) >= 0,
    ensures
        final(row)@ == walk_asks(
            old(row)@,
            limit.rank(),
            *old(remaining) as int,
            venue@,
        ).levels,
        fills_view(final(fills)@) == fills_view(old(fills)@) + walk_asks(
            old(row)@,
            limit.rank(),
            *old(remaining) as int,
            venue@,
        ).fills,
        *final(remaining) == walk_asks(
            old(row)@,
            limit.rank(),
            *old(remaining) as int,
            venue@,
        ).remaining,
        final(removed)@ == old(removed)@ + walk_asks(
            old(row)@,
            limit.rank(),
            *old(remaining) as int,
            venue@,
        ).removed,
        row_consistent(final(row)@),
        0 <= *final(remaining) <= *old(remaining),
{
    let ghost before = row@;
    let ghost wanted = *remaining as int;
    let ghost fills0 = fills_view(fills@);
    let ghost removed0 = removed@;
    let ghost target = walk_asks(before, limit.rank(), wanted, venue@);
    let ghost mut got: Seq<MatchedView> = Seq::empty();
    let ghost mut gone: Seq<u128> = Seq::empty();
    let n: usize = row.levels.len();
    let mut j: usize = 0;
    proof {
        assert(before.skip(0) =~= before);
        assert(row@.take(0) + target.levels =~= target.levels);
        assert(fills0 + got =~= fills0);
        assert(removed0 + gone =~= removed0);
    }
    while j < n && row.levels[j].price.le(limit)
        invariant
            j <= n,
            n == row.levels.len(),
            row@.len() == before.len(),
            row_consistent(row@),
            row_consistent(before),
            forall|i: int| j <= i < n ==> (#[trigger] row@[i]) == before[i],
            0 <= *remaining <= wanted,
            fills_view(fills@) == fills0 + got,
            removed@ == removed0 + gone,
            target == walk_asks(before, limit.rank(), wanted, venue@),
            ({
                let w = walk_asks(before.skip(j as int), limit.rank(), *remaining as int, venue@);
                &&& target.levels == row@.take(j as int) + w.levels
                &&& target.fills == got + w.fills
                &&& target.remaining == w.remaining
                &&& target.removed == gone + w.removed
            }),
        decreases n - j,
    {
        let ghost row_before = row@;
        let ghost raw_before = row.levels@;
        let ghost rem = *remaining as int;
        let ghost best = before[j as int];
        proof {
            assert(before.skip(j as int).first() == best);
            assert(before.skip(j as int).skip(1) =~= before.skip(j + 1));
            assert(row@[j as int] == best);
            assert(row.levels@[j as int]@ == best);
            assert(best.wf());
            lemma_drained_total(best.holding.orders, rem);
        }
        let price = row.levels[j].price;
        let (done, mut ids) = match_at_price_level(&mut row.levels[j].holding, remaining);
        let ghost taken = ids@;
        append_ids(removed, &mut ids);
        if done > 0 {
            let ghost so_far = fills@;
            let fill = MatchedOrders::new(price, done, venue);
            fills.push_back(fill);
            assert(fills_view(fills@) =~= fills_view(so_far).push(fill@));
        }
        proof {
            let w = walk_asks(before.skip(j as int), limit.rank(), rem, venue@);
            let w2 = walk_asks(before.skip(j + 1), limit.rank(), *remaining as int, venue@);
            assert(row.levels@.len() == raw_before.len());
            assert(row.levels@[j as int].price == raw_before[j as int].price);
            assert(row@[j as int] == level_after(best, rem));
            assert forall|i: int| 0 <= i < row@.len() && i != j implies #[trigger] row@[i]
                == row_before[i] by {
                assert(row.levels@[i] == raw_before[i]);
                assert(row_before[i] == raw_before[i]@);
            }
            assert(row@.take(j + 1) =~= row_before.take(j as int).push(level_after(best, rem)));
            assert(row_before.take(j as int) + w.levels =~= row@.take(j + 1) + w2.levels);
            assert(fills_view(fills@) =~= fills0 + (got + fill_at(best, rem, venue@)));
            assert(got + w.fills =~= (got + fill_at(best, rem, venue@)) + w2.fills);
            assert(gone + w.removed =~= (gone + taken) + w2.removed);
            assert(removed@ =~= removed0 + (gone + taken));
            got = got + fill_at(best, rem, venue@);
            gone = gone + taken;
        }
        j = j + 1;
    }
    proof {
        let w = walk_asks(before.skip(j as int), limit.rank(), *remaining as int, venue@);
        if j < n {
            assert(before.skip(j as int).first() == before[j as int]);
            assert(row@[j as int] == before[j as int]);
            assert(row.levels@[j as int]@ == row@[j as int]);
        }
        assert(w.levels == before.skip(j as int));
        assert(row@.skip(j as int) =~= before.skip(j as int));
        assert(row@ =~= row@.take(j as int) + row@.skip(j as int));
        assert(got + w.fills =~= got);
        assert(gone + w.removed =~= gone);
    }
}

/// Every fill of the run was taken from `venue`.
pub open spec fn fills_from(fills: Seq<MatchedView>, venue: Seq<char>) -> bool {
    forall|i: int| 0 <= i < fills.len() ==> (#[trigger] fills[i]).exchange == venue
}

/// What holds of every walk over a consistent row: the row stays consistent
/// and keeps its prices, and the fills account for what the taker no longer
/// wants.
pub open spec fn walk_sound(levels: Seq<LevelView>, incoming: int, venue: Seq<char>, w: Walk) -> bool {
    &&& row_consistent(w.levels)
    &&& w.levels.len() == levels.len()
    &&& forall|i: int| 0 <= i < levels.len() ==> (#[trigger] w.levels[i]).price == levels[i].price
    &&& 0 <= w.remaining <= incoming
    &&& filled_total(w.fills) == incoming - w.remaining
    &&& fills_positive(w.fills)
    &&& fills_from(w.fills, venue)
}

/// A run of fills that are none of them empty adds up to at least its length.
pub proof fn lemma_filled_positive(fills: Seq<MatchedView>)
    requires
        fills_positive(fills),
    ensures
        filled_total(fills) >= fills.len(),
    decreases fills.len(),
{
    if fills.len() > 0 {
        lemma_filled_positive(fills.drop_last());
    }
}

/// What taking an incoming quantity out of one level in order leaves and
/// records.
proof fn lemma_level_step(best: LevelView, incoming: int, venue: Seq<char>)
    requires
        best.wf(),
        incoming >= 0,
    ensures
        level_after(best, incoming).wf(),
        level_after(best, incoming).price == best.price,
        0 <= matched_quantity(best.holding.orders, incoming) <= incoming,
        filled_total(fill_at(best, incoming, venue)) == matched_quantity(
            best.holding.orders,
            incoming,
        ),
        fills_positive(fill_at(best, incoming, venue)),
        fills_from(fill_at(best, incoming, venue), venue),
{
    lemma_drained_total(best.holding.orders, incoming);
    lemma_drained_sources(best.holding.orders, incoming);
    lemma_total_positive(best.holding.orders);
    lemma_total_positive(drained(best.holding.orders, incoming));
    let f = fill_at(best, incoming, venue);
    if f.len() > 0 {
        assert(f.drop_last() =~= Seq::<MatchedView>::empty());
        assert(filled_total(f.drop_last()) == 0);
    }
}

/// Every walk down the bids of a consistent row is sound.
pub proof fn lemma_walk_bids(levels: Seq<LevelView>, limit: int, incoming: int, venue: Seq<char>)
    requires
        row_consistent(levels),
        incoming >= 0,
    ensures
        walk_sound(levels, incoming, venue, walk_bids(levels, limit, incoming, venue)),
    decreases levels.len(),
{
    let w = walk_bids(levels, limit, incoming, venue);
    if levels.len() == 0 || levels.last().price.rank() < limit {
    } else {
        let best = levels.last();
        let done = matched_quantity(best.holding.orders, incoming);
        let head = levels.drop_last();
        lemma_level_step(best, incoming, venue);
        assert forall|a: int, b: int| 0 <= a < b < head.len() implies (#[trigger] head[a]).price.rank()
            < (#[trigger] head[b]).price.rank() by {
            assert(head[a] == levels[a]);
            assert(head[b] == levels[b]);
        }
        assert forall|i: int| 0 <= i < head.len() implies (#[trigger] head[i]).wf() by {
            assert(head[i] == levels[i]);
        }
        lemma_walk_bids(head, limit, incoming - done, venue);
        let rest = walk_bids(head, limit, incoming - done, venue);
        lemma_filled_concat(fill_at(best, incoming, venue), rest.fills);
        assert forall|i: int| 0 <= i < levels.len() implies (#[trigger] w.levels[i]).price
            == levels[i].price by {
            if i < head.len() {
                assert(w.levels[i] == rest.levels[i]);
                assert(head[i] == levels[i]);
            }
        }
        assert forall|a: int, b: int| 0 <= a < b < w.levels.len() implies (
        #[trigger] w.levels[a]).price.rank() < (#[trigger] w.levels[b]).price.rank() by {
            assert(w.levels[a].price == levels[a].price);
            assert(w.levels[b].price == levels[b].price);
        }
        assert forall|i: int| 0 <= i < w.levels.len() implies (#[trigger] w.levels[i]).wf() by {
            if i < head.len() {
                assert(w.levels[i] == rest.levels[i]);
            }
        }
        assert forall|i: int| 0 <= i < w.fills.len() implies (#[trigger] w.fills[i]).quantity > 0
            && w.fills[i].exchange == venue by {
            let f = fill_at(best, incoming, venue);
            if i < f.len() {
                assert(w.fills[i] == f[i]);
            } else {
                assert(w.fills[i] == rest.fills[i - f.len()]);
            }
        }
    }
}

/// Every walk up the asks of a consistent row is sound.
pub proof fn lemma_walk_asks(levels: Seq<LevelView>, limit: int, incoming: int, venue: Seq<char>)
    requires
        row_consistent(levels),
        incoming >= 0,
    ensures
        walk_sound(levels, incoming, venue, walk_asks(levels, limit, incoming, venue)),
    decreases levels.len(),
{
    let w = walk_asks(levels, limit, incoming, venue);
    if levels.len() == 0 || levels.first().price.rank() > limit {
    } else {
        let best = levels.first();
        let done = matched_quantity(best.holding.orders, incoming);
        let tail = levels.skip(1);
        lemma_level_step(best, incoming, venue);
        assert forall|a: int, b: int| 0 <= a < b < tail.len() implies (#[trigger] tail[a]).price.rank()
            < (#[trigger] tail[b]).price.rank() by {
            assert(tail[a] == levels[a + 1]);
            assert(tail[b] == levels[b + 1]);
        }
        assert forall|i: int| 0 <= i < tail.len() implies (#[trigger] tail[i]).wf() by {
            assert(tail[i] == levels[i + 1]);
        }
        lemma_walk_asks(tail, limit, incoming - done, venue);
        let rest = walk_asks(tail, limit, incoming - done, venue);
        lemma_filled_concat(fill_at(best, incoming, venue), rest.fills);
        assert forall|i: int| 0 <= i < levels.len() implies (#[trigger] w.levels[i]).price
            == levels[i].price by {
            if i > 0 {
                assert(w.levels[i] == rest.levels[i - 1]);
                assert(tail[i - 1] == levels[i]);
            }
        }
        assert forall|a: int, b: int| 0 <= a < b < w.levels.len() implies (
        #[trigger] w.levels[a]).price.rank() < (#[trigger] w.levels[b]).price.rank() by {
            assert(w.levels[a].price == levels[a].price);
            assert(w.levels[b].price == levels[b].price);
        }
        assert forall|i: int| 0 <= i < w.levels.len() implies (#[trigger] w.levels[i]).wf() by {
            if i > 0 {
                assert(w.levels[i] == rest.levels[i - 1]);
            }
        }
        assert forall|i: int| 0 <= i < w.fills.len() implies (#[trigger] w.fills[i]).quantity > 0
            && w.fills[i].exchange == venue by {
            let f = fill_at(best, incoming, venue);
            if i < f.len() {
                assert(w.fills[i] == f[i]);
            } else {
                assert(w.fills[i] == rest.fills[i - f.len()]);
            }
        }
    }
}

/// The walk that an order makes: an ask along the bids, a bid along the asks,
/// each for what the order still wants.
pub open spec fn walk_for(
    order: OrderView,
    bids: Seq<LevelView>,
    asks: Seq<LevelView>,
    venue: Seq<char>,
) -> Walk {
    match order.request {
        TradeRequest::Ask => walk_bids(bids, order.price.rank(), order.wanted(), venue),
        TradeRequest::Bid => walk_asks(asks, order.price.rank(), order.wanted(), venue),
    }
}

/// The order after its walk: it has the walk's fills, is flagged as arbitrage
/// when a fill came from another venue than `home`, and is completed with
/// nothing left to want, partial with what is left, or as it was.
pub open spec fn settled(order: OrderView, w: Walk, home: Seq<char>) -> OrderView {
    let filled = order.filled_with + w.fills;
    let acc = filled_total(filled);
    let flagged = OrderView {
        is_arbitrage: has_foreign_fill(filled, home),
        filled_with: filled,
        ..order
    };
    if w.remaining == 0 && acc == order.quantity && filled.len() > 0 {
        OrderView { status: OrderStatus::Completed, remaining_qty: 0, ..flagged }
    } else if w.remaining < order.quantity {
        OrderView {
            status: OrderStatus::Partial,
            remaining_qty: (order.quantity - acc) as i32,
            ..flagged
        }
    } else {
        flagged
    }
}

/// What one pass over the queue leaves behind.
pub struct Pass {
    /// The orders that stay active, in the order of the queue.
    pub queue: Seq<OrderView>,
    /// The orders that the pass completed, in the order of the queue.
    pub completed: Seq<OrderView>,
    pub bids: Seq<LevelView>,
    pub asks: Seq<LevelView>,
    /// The ids of the contributors that were consumed in full.
    pub removed: Seq<u128>,
}

/// One pass over the queue, first order first: each order that is not yet
/// completed walks the ladder as the orders before it left it.
pub open spec fn run_pass(
    orders: Seq<OrderView>,
    bids: Seq<LevelView>,
    asks: Seq<LevelView>,
    venue: Seq<char>,
    home: Seq<char>,
) -> Pass
    decreases orders.len(),
{
    if orders.len() == 0 {
        Pass { queue: Seq::empty(), completed: Seq::empty(), bids, asks, removed: Seq::empty() }
    } else if orders.first().status == OrderStatus::Completed {
        let rest = run_pass(orders.skip(1), bids, asks, venue, home);
        Pass { queue: seq![orders.first()] + rest.queue, ..rest }
    } else {
        let order = orders.first();
        let w = walk_for(order, bids, asks, venue);
        let after = settled(order, w, home);
        let rest = match order.request {
            TradeRequest::Ask => run_pass(orders.skip(1), w.levels, asks, venue, home),
            TradeRequest::Bid => run_pass(orders.skip(1), bids, w.levels, venue, home),
        };
        if after.status == OrderStatus::Completed {
            Pass {
                completed: seq![after] + rest.completed,
                removed: w.removed + rest.removed,
                ..rest
            }
        } else {
            Pass { queue: seq![after] + rest.queue, removed: w.removed + rest.removed, ..rest }
        }
    }
}

/// A run of fills from `venue` holds a fill from another venue than `home`
/// exactly when it is not empty and `venue` is not `home`.
pub proof fn lemma_foreign_concat(
    a: Seq<MatchedView>,
    b: Seq<MatchedView>,
    venue: Seq<char>,
    home: Seq<char>,
)
    requires
        fills_from(b, venue),
    ensures
        has_foreign_fill(a + b, home) == (has_foreign_fill(a, home) || (b.len() > 0 && venue
            != home)),
{
    let ab = a + b;
    if has_foreign_fill(a, home) {
        let i = choose|i: int| 0 <= i < a.len() && (#[trigger] a[i]).exchange != home;
        assert(ab[i] == a[i]);
    }
    if b.len() > 0 && venue != home {
        assert(ab[a.len() as int] == b[0]);
    }
    if has_foreign_fill(ab, home) {
        let i = choose|i: int| 0 <= i < ab.len() && (#[trigger] ab[i]).exchange != home;
        if i < a.len() {
            assert(ab[i] == a[i]);
        } else {
            assert(ab[i] == b[i - a.len()]);
        }
    }
}

/// How an active order comes out of a sound walk: completed when nothing is
/// left to want, partial when something was taken, untouched otherwise.
pub proof fn lemma_settled(order: OrderView, w: Walk, venue: Seq<char>, home: Seq<char>)
    requires
        order.wf_active(),
        order.is_arbitrage == has_foreign_fill(order.filled_with, home),
        0 <= w.remaining <= order.wanted(),
        filled_total(w.fills) == order.wanted() - w.remaining,
        fills_positive(w.fills),
        fills_from(w.fills, venue),
    ensures
        settled(order, w, home) == (OrderView {
            is_arbitrage: order.is_arbitrage || (w.fills.len() > 0 && venue != home),
            filled_with: order.filled_with + w.fills,
            status: if w.remaining == 0 {
                OrderStatus::Completed
            } else if w.remaining < order.quantity {
                OrderStatus::Partial
            } else {
                order.status
            },
            remaining_qty: if w.remaining < order.quantity {
                w.remaining as i32
            } else {
                order.remaining_qty
            },
            ..order
        }),
        w.remaining == 0 ==> settled(order, w, home).wf_completed(),
        w.remaining != 0 ==> settled(order, w, home).wf_active(),
        settled(order, w, home).is_arbitrage == has_foreign_fill(
            settled(order, w, home).filled_with,
            home,
        ),
{
    let filled = order.filled_with + w.fills;
    lemma_filled_concat(order.filled_with, w.fills);
    lemma_foreign_concat(order.filled_with, w.fills, venue, home);
    lemma_filled_positive(w.fills);
    lemma_filled_positive(filled);
    assert(fills_positive(filled)) by {
        assert forall|i: int| 0 <= i < filled.len() implies (#[trigger] filled[i]).quantity
            > 0 by {
            if i < order.filled_with.len() {
                assert(filled[i] == order.filled_with[i]);
            } else {
                assert(filled[i] == w.fills[i - order.filled_with.len()]);
            }
        }
    }
    assert(filled_total(order.filled_with) + order.wanted() == order.quantity) by {
        if order.status == OrderStatus::Pending {
            assert(filled_total(order.filled_with) == 0);
        }
    }
    if w.remaining == order.quantity {
        assert(w.fills.len() == 0);
        assert(filled =~= order.filled_with);
    }
}

/// What holds of every pass over an active queue and two consistent rows.
pub open spec fn pass_sound(bids: Seq<LevelView>, asks: Seq<LevelView>, home: Seq<char>, p: Pass) -> bool {
    &&& queue_wf(p.queue, home)
    &&& history_wf(p.completed)
    &&& row_consistent(p.bids)
    &&& row_consistent(p.asks)
    &&& p.bids.len() == bids.len()
    &&& p.asks.len() == asks.len()
}

/// Every pass over an active queue and two consistent rows is sound.
pub proof fn lemma_run_pass(
    orders: Seq<OrderView>,
    bids: Seq<LevelView>,
    asks: Seq<LevelView>,
    venue: Seq<char>,
    home: Seq<char>,
)
    requires
        queue_wf(orders, home),
        row_consistent(bids),
        row_consistent(asks),
    ensures
        pass_sound(bids, asks, home, run_pass(orders, bids, asks, venue, home)),
    decreases orders.len(),
{
    let p = run_pass(orders, bids, asks, venue, home);
    if orders.len() > 0 {
        let order = orders.first();
        let tail = orders.skip(1);
        assert(order.wf_active());
        assert forall|i: int| 0 <= i < tail.len() implies (#[trigger] tail[i]).wf_active()
            && tail[i].is_arbitrage == has_foreign_fill(tail[i].filled_with, home) by {
            assert(tail[i] == orders[i + 1]);
        }
        let w = walk_for(order, bids, asks, venue);
        match order.request {
            TradeRequest::Ask => {
                lemma_walk_bids(bids, order.price.rank(), order.wanted(), venue);
                lemma_run_pass(tail, w.levels, asks, venue, home);
            },
            TradeRequest::Bid => {
                lemma_walk_asks(asks, order.price.rank(), order.wanted(), venue);
                lemma_run_pass(tail, bids, w.levels, venue, home);
            },
        }
        lemma_settled(order, w, venue, home);
        let after = settled(order, w, home);
        let rest = match order.request {
            TradeRequest::Ask => run_pass(tail, w.levels, asks, venue, home),
            TradeRequest::Bid => run_pass(tail, bids, w.levels, venue, home),
        };
        if after.status == OrderStatus::Completed {
            assert forall|i: int| 0 <= i < p.completed.len() implies (
            #[trigger] p.completed[i]).wf_completed() by {
                if i > 0 {
                    assert(p.completed[i] == rest.completed[i - 1]);
                }
            }
        } else {
            assert forall|i: int| 0 <= i < p.queue.len() implies (#[trigger] p.queue[i]).wf_active()
                && p.queue[i].is_arbitrage == has_foreign_fill(p.queue[i].filled_with, home) by {
                if i > 0 {
                    assert(p.queue[i] == rest.queue[i - 1]);
                }
            }
        }
    }
}

/// Whether two texts are the same.
fn same_text(a: &String, b: &String) -> (r: bool)
    ensures
        r == (a@ == b@),
{
    *a == *b
}

/// Runs one pass over `queue` against the two rows. Completed orders are
/// appended to `history`; the orders that stay active are returned with the
/// ids of the contributors that were consumed in full.
pub fn match_queue(
    queue: VecDeque<Order>,
    bids: &mut PriceRow,
    asks: &mut PriceRow,
    history: &mut VecDeque<Order>,
    venue: &String,
    home: &String,
) -> (r: (VecDeque<Order>, Vec<u128>))
    requires
        queue_wf(orders_view(queue@), home@),
        row_consistent(old(bids)@),
        row_consistent(old(asks)@),
    ensures
        ({
            let p = run_pass(orders_view(queue@), old(bids)@, old(asks)@, venue@, home@);
            &&& orders_view(r.0@) == p.queue
            &&& r.1@ == p.removed
            &&& final(bids)@ == p.bids
            &&& final(asks)@ == p.asks
            &&& orders_view(final(history)@) == orders_view(old(history)@) + p.completed
            &&& pass_sound(old(bids)@, old(asks)@, home@, p)
        }),
{
    let ghost all = orders_view(queue@);
    let ghost source = queue@;
    let ghost bids0 = bids@;
    let ghost asks0 = asks@;
    let ghost history0 = orders_view(history@);
    let ghost target = run_pass(all, bids0, asks0, venue@, home@);
    let ghost mut completed: Seq<OrderView> = Seq::empty();
    let foreign: bool = !same_text(venue, home);
    let mut kept: VecDeque<Order> = VecDeque::new();
    let mut queue = queue;
    let ghost mut i: int = 0;
    let mut removed: Vec<u128> = Vec::new();
    proof {
        lemma_run_pass(all, bids0, asks0, venue@, home@);
        assert(all.skip(0) =~= all);
        assert(orders_view(kept@) + target.queue =~= target.queue);
        assert(completed + target.completed =~= target.completed);
        assert(removed@ + target.removed =~= target.removed);
        assert(history0 + completed =~= history0);
    }
    while queue.len() > 0
        invariant
            0 <= i <= source.len(),
            queue@ == source.skip(i),
            all == orders_view(source),
            queue_wf(all, home@),
            row_consistent(bids@),
            row_consistent(asks@),
            foreign == (venue@ != home@),
            orders_view(history@) == history0 + completed,
            target == run_pass(all, bids0, asks0, venue@, home@),
            ({
                let p = run_pass(all.skip(i), bids@, asks@, venue@, home@);
                &&& target.queue == orders_view(kept@) + p.queue
                &&& target.completed == completed + p.completed
                &&& target.removed == removed@ + p.removed
                &&& target.bids == p.bids
                &&& target.asks == p.asks
            }),
        decreases queue@.len(),
    {
        let order = queue.pop_front().unwrap();
        assert(order == source[i]);
        assert(queue@ =~= source.skip(i + 1));
        let ghost before = order@;
        let ghost bids1 = bids@;
        let ghost asks1 = asks@;
        let ghost kept1 = orders_view(kept@);
        let ghost removed1 = removed@;
        let ghost hist1 = orders_view(history@);
        let ghost w = walk_for(before, bids1, asks1, venue@);
        proof {
            assert(all[i] == before);
            assert(all.skip(i).first() == before);
            assert(all.skip(i).skip(1) =~= all.skip(i + 1));
            assert(before.wf_active());
            match before.request {
                TradeRequest::Ask => lemma_walk_bids(
                    bids1,
                    before.price.rank(),
                    before.wanted(),
                    venue@,
                ),
                TradeRequest::Bid => lemma_walk_asks(
                    asks1,
                    before.price.rank(),
                    before.wanted(),
                    venue@,
                ),
            }
            lemma_settled(before, w, venue@, home@);
        }
        let mut order = order;
        let mut remaining: i32 = if order.remaining_qty > 0 {
            order.remaining_qty
        } else {
            order.quantity
        };
        let filled_before: usize = order.filled_with.len();
        match order.request {
            TradeRequest::Ask => {
                take_from_bids(
                    bids,
                    &order.price,
                    &mut remaining,
                    venue.as_str(),
                    &mut order.filled_with,
                    &mut removed,
                );
            },
            TradeRequest::Bid => {
                take_from_asks(
                    asks,
                    &order.price,
                    &mut remaining,
                    venue.as_str(),
                    &mut order.filled_with,
                    &mut removed,
                );
            },
        }
        assert(fills_view(order.filled_with@) == before.filled_with + w.fills);
        assert(fills_view(order.filled_with@).len() == order.filled_with@.len());
        if order.filled_with.len() > filled_before && foreign {
            order.is_arbitrage = true;
        }
        if remaining == 0 {
            order.status = OrderStatus::Completed;
            order.remaining_qty = 0;
            assert(order@ == settled(before, w, home@));
            let ghost so_far = history@;
            history.push_back(order);
            proof {
                assert(orders_view(history@) =~= orders_view(so_far).push(
                    settled(before, w, home@),
                ));
                assert(orders_view(history@) =~= history0 + (completed + seq![
                    settled(before, w, home@),
                ]));
                let p = run_pass(all.skip(i), bids1, asks1, venue@, home@);
                let rest = run_pass(all.skip(i + 1), bids@, asks@, venue@, home@);
                assert(completed + p.completed =~= (completed + seq![settled(before, w, home@)])
                    + rest.completed);
                assert(removed1 + p.removed =~= removed@ + rest.removed);
                completed = completed + seq![settled(before, w, home@)];
            }
        } else {
            if remaining < order.quantity {
                order.status = OrderStatus::Partial;
                order.remaining_qty = remaining;
            }
            assert(order@ == settled(before, w, home@));
            let ghost so_far = kept@;
            kept.push_back(order);
            proof {
                assert(orders_view(kept@) =~= orders_view(so_far).push(settled(before, w, home@)));
                let p = run_pass(all.skip(i), bids1, asks1, venue@, home@);
                let rest = run_pass(all.skip(i + 1), bids@, asks@, venue@, home@);
                assert(kept1 + p.queue =~= orders_view(kept@) + rest.queue);
                assert(removed1 + p.removed =~= removed@ + rest.removed);
            }
        }
        proof {
            i = i + 1;
        }
    }
    proof {
        assert(all.skip(source.len() as int) =~= Seq::<OrderView>::empty());
        assert(orders_view(kept@) + Seq::<OrderView>::empty() =~= orders_view(kept@));
        assert(completed + Seq::<OrderView>::empty() =~= completed);
        assert(removed@ + Seq::<u128>::empty() =~= removed@);
    }
    (kept, removed)
}

/// The queue without the first order that carries `id`.
pub open spec fn without_first(queue: Seq<OrderView>, id: u128) -> Seq<OrderView>
    decreases queue.len(),
{
    if queue.len() == 0 {
        queue
    } else if queue.first().id == id {
        queue.skip(1)
    } else {
        seq![queue.first()] + without_first(queue.skip(1), id)
    }
}

/// The queue after each id of the list, in turn, has taken out the first order
/// that carries it.
pub open spec fn without_ids(queue: Seq<OrderView>, ids: Seq<u128>) -> Seq<OrderView>
    decreases ids.len(),
{
    if ids.len() == 0 {
        queue
    } else {
        without_ids(without_first(queue, ids.first()), ids.skip(1))
    }
}

/// Taking out the first order with an id takes out the order at the first
/// place where the id stands, and nothing where it stands nowhere.
pub proof fn lemma_without_first(queue: Seq<OrderView>, id: u128, at: int)
    requires
        0 <= at <= queue.len(),
        forall|i: int| 0 <= i < at ==> (#[trigger] queue[i]).id != id,
        at < queue.len() ==> queue[at].id == id,
    ensures
        without_first(queue, id) == if at < queue.len() {
            queue.remove(at)
        } else {
            queue
        },
    decreases queue.len(),
{
    if queue.len() == 0 {
    } else if at == 0 {
        assert(queue.skip(1) =~= queue.remove(0));
    } else {
        let tail = queue.skip(1);
        assert forall|i: int| 0 <= i < at - 1 implies (#[trigger] tail[i]).id != id by {
            assert(tail[i] == queue[i + 1]);
        }
        lemma_without_first(tail, id, at - 1);
        if at < queue.len() {
            assert(seq![queue.first()] + tail.remove(at - 1) =~= queue.remove(at));
        } else {
            assert(seq![queue.first()] + tail =~= queue);
        }
    }
}

/// Leaving orders out of an active queue leaves an active queue.
pub proof fn lemma_without_ids_wf(queue: Seq<OrderView>, ids: Seq<u128>, home: Seq<char>)
    requires
        queue_wf(queue, home),
    ensures
        queue_wf(without_ids(queue, ids), home),
        without_ids(queue, ids).len() <= queue.len(),
    decreases ids.len(),
{
    if ids.len() > 0 {
        lemma_without_first_wf(queue, ids.first(), home);
        lemma_without_ids_wf(without_first(queue, ids.first()), ids.skip(1), home);
    }
}

/// Leaving one order out of an active queue leaves an active queue.
proof fn lemma_without_first_wf(queue: Seq<OrderView>, id: u128, home: Seq<char>)
    requires
        queue_wf(queue, home),
    ensures
        queue_wf(without_first(queue, id), home),
        without_first(queue, id).len() <= queue.len(),
    decreases queue.len(),
{
    let out = without_first(queue, id);
    if queue.len() == 0 {
    } else {
        let tail = queue.skip(1);
        assert forall|i: int| 0 <= i < tail.len() implies (#[trigger] tail[i]).wf_active()
            && tail[i].is_arbitrage == has_foreign_fill(tail[i].filled_with, home) by {
            assert(tail[i] == queue[i + 1]);
        }
        if queue.first().id != id {
            lemma_without_first_wf(tail, id, home);
            assert forall|i: int| 0 <= i < out.len() implies (#[trigger] out[i]).wf_active()
                && out[i].is_arbitrage == has_foreign_fill(out[i].filled_with, home) by {
                if i > 0 {
                    assert(out[i] == without_first(tail, id)[i - 1]);
                } else {
                    assert(out[0] == queue[0]);
                }
            }
        }
    }
}

/// For each id of the list in turn, takes the first order that carries it out
/// of the queue.
pub fn drop_ids(queue: &mut VecDeque<Order>, ids: &Vec<u128>)
    ensures
        orders_view(final(queue)@) == without_ids(orders_view(old(queue)@), ids@),
{
    let ghost start = orders_view(queue@);
    let mut k: usize = 0;
    proof {
        assert(ids@.skip(0) =~= ids@);
    }
    while k < ids.len()
        invariant
            k <= ids.len(),
            without_ids(start, ids@) == without_ids(orders_view(queue@), ids@.skip(k as int)),
        decreases ids.len() - k,
    {
        let id: u128 = ids[k];
        let ghost now = orders_view(queue@);
        let mut at: usize = 0;
        while at < queue.len() && queue[at].id != id
            invariant
                at <= queue.len(),
                now == orders_view(queue@),
                forall|i: int| 0 <= i < at ==> (#[trigger] now[i]).id != id,
            decreases queue.len() - at,
        {
            assert(now[at as int] == queue@[at as int]@);
            at = at + 1;
        }
        proof {
            if at < queue.len() {
                assert(now[at as int] == queue@[at as int]@);
            }
            lemma_without_first(now, id, at as int);
            assert(ids@.skip(k as int).first() == id);
            assert(ids@.skip(k as int).skip(1) =~= ids@.skip(k + 1));
        }
        if at < queue.len() {
            let _ = queue.remove(at);
            assert(orders_view(queue@) =~= now.remove(at as int));
        }
        k = k + 1;
    }
}

/// Every fill of the run was taken above the limit.
pub open spec fn fills_above(fills: Seq<MatchedView>, limit: int) -> bool {
    forall|i: int| 0 <= i < fills.len() ==> (#[trigger] fills[i]).price.rank() > limit
}

/// Every fill of the run was taken below the limit.
pub open spec fn fills_below(fills: Seq<MatchedView>, limit: int) -> bool {
    forall|i: int| 0 <= i < fills.len() ==> (#[trigger] fills[i]).price.rank() < limit
}

/// Where a bid level stands exactly at an ask's price, the ask's walk first
/// takes from the higher bids, and then makes one fill at that price, for all
/// it still wants or all the level has, unless it wants nothing any more. No
/// other fill is made at that price, and no lower level is touched.
pub proof fn lemma_fill_at_equal_price(
    levels: Seq<LevelView>,
    at: int,
    ask: Price,
    incoming: int,
    venue: Seq<char>,
)
    requires
        row_consistent(levels),
        0 <= at < levels.len(),
        levels[at].price.rank() == ask.rank(),
        levels[at].holding.total_quantity > 0,
        incoming >= 0,
    ensures
        ({
            let w = walk_bids(levels, ask.rank(), incoming, venue);
            let above = walk_bids(levels.skip(at + 1), ask.rank(), incoming, venue);
            &&& fills_above(above.fills, ask.rank())
            &&& w.fills == above.fills + fill_at(levels[at], above.remaining, venue)
            &&& above.remaining > 0 ==> fill_at(levels[at], above.remaining, venue) == seq![
                MatchedView {
                    price: levels[at].price,
                    quantity: matched_quantity(levels[at].holding.orders, above.remaining) as i32,
                    exchange: venue,
                },
            ] && matched_quantity(levels[at].holding.orders, above.remaining) > 0
            &&& above.remaining == 0 ==> fill_at(levels[at], above.remaining, venue).len() == 0
            &&& w.levels.take(at) == levels.take(at)
        }),
    decreases levels.len(),
{
    let limit = ask.rank();
    let w = walk_bids(levels, limit, incoming, venue);
    let higher = levels.skip(at + 1);
    let above = walk_bids(higher, limit, incoming, venue);
    let top = levels.last();
    let head = levels.drop_last();
    assert(levels[at].wf());
    lemma_total_positive(levels[at].holding.orders);
    assert(top == levels[levels.len() - 1]);
    if at == levels.len() - 1 {
        assert(higher =~= Seq::<LevelView>::empty());
        if head.len() > 0 {
            assert(head.last() == levels[levels.len() - 2]);
            assert(levels[levels.len() - 2].price.rank() < levels[levels.len() - 1].price.rank());
        }
        let done = matched_quantity(top.holding.orders, incoming);
        let rest = walk_bids(head, limit, incoming - done, venue);
        assert(rest.levels == head);
        assert(rest.fills =~= Seq::<MatchedView>::empty());
        assert(w.fills =~= above.fills + fill_at(levels[at], above.remaining, venue));
        assert(w.levels.take(at) =~= levels.take(at));
    } else {
        assert(levels[at].price.rank() < levels[levels.len() - 1].price.rank());
        assert(top.wf());
        lemma_level_step(top, incoming, venue);
        let done = matched_quantity(top.holding.orders, incoming);
        assert forall|a: int, b: int| 0 <= a < b < head.len() implies (#[trigger] head[a]).price.rank()
            < (#[trigger] head[b]).price.rank() by {
            assert(head[a] == levels[a]);
            assert(head[b] == levels[b]);
        }
        assert forall|i: int| 0 <= i < head.len() implies (#[trigger] head[i]).wf() by {
            assert(head[i] == levels[i]);
        }
        assert(head[at] == levels[at]);
        lemma_fill_at_equal_price(head, at, ask, incoming - done, venue);
        assert(higher.last() == top);
        assert(higher.drop_last() =~= head.skip(at + 1));
        let rest = walk_bids(head, limit, incoming - done, venue);
        let above_rest = walk_bids(head.skip(at + 1), limit, incoming - done, venue);
        assert(above.fills == fill_at(top, incoming, venue) + above_rest.fills);
        assert(above.remaining == above_rest.remaining);
        assert(w.fills =~= above.fills + fill_at(levels[at], above.remaining, venue));
        assert forall|i: int| 0 <= i < above.fills.len() implies (#[trigger] above.fills[i]).price.rank()
            > limit by {
            let first = fill_at(top, incoming, venue);
            if i < first.len() {
                assert(above.fills[i] == first[i]);
            } else {
                assert(above.fills[i] == above_rest.fills[i - first.len()]);
            }
        }
        lemma_walk_bids(head, limit, incoming - done, venue);
        assert(w.levels.take(at) =~= rest.levels.take(at));
        assert(head.take(at) =~= levels.take(at));
    }
}

/// Where an ask level stands exactly at a bid's price, the bid's walk first
/// takes from the lower asks, and then makes one fill at that price, for all
/// it still wants or all the level has, unless it wants nothing any more. No
/// other fill is made at that price, and no higher level is touched.
pub proof fn lemma_fill_at_equal_ask(
    levels: Seq<LevelView>,
    at: int,
    bid: Price,
    incoming: int,
    venue: Seq<char>,
)
    requires
        row_consistent(levels),
        0 <= at < levels.len(),
        levels[at].price.rank() == bid.rank(),
        levels[at].holding.total_quantity > 0,
        incoming >= 0,
    ensures
        ({
            let w = walk_asks(levels, bid.rank(), incoming, venue);
            let below = walk_asks(levels.take(at), bid.rank(), incoming, venue);
            &&& fills_below(below.fills, bid.rank())
            &&& w.fills == below.fills + fill_at(levels[at], below.remaining, venue)
            &&& below.remaining > 0 ==> fill_at(levels[at], below.remaining, venue) == seq![
                MatchedView {
                    price: levels[at].price,
                    quantity: matched_quantity(levels[at].holding.orders, below.remaining) as i32,
                    exchange: venue,
                },
            ] && matched_quantity(levels[at].holding.orders, below.remaining) > 0
            &&& below.remaining == 0 ==> fill_at(levels[at], below.remaining, venue).len() == 0
            &&& w.levels.skip(at + 1) == levels.skip(at + 1)
        }),
    decreases levels.len(),
{
    let limit = bid.rank();
    let w = walk_asks(levels, limit, incoming, venue);
    let lower = levels.take(at);
    let below = walk_asks(lower, limit, incoming, venue);
    let first = levels.first();
    let tail = levels.skip(1);
    assert(levels[at].wf());
    lemma_total_positive(levels[at].holding.orders);
    assert(first == levels[0]);
    if at == 0 {
        assert(lower =~= Seq::<LevelView>::empty());
        if tail.len() > 0 {
            assert(tail.first() == levels[1]);
            assert(levels[0].price.rank() < levels[1].price.rank());
        }
        let done = matched_quantity(first.holding.orders, incoming);
        let rest = walk_asks(tail, limit, incoming - done, venue);
        assert(rest.levels == tail);
        assert(rest.fills =~= Seq::<MatchedView>::empty());
        assert(w.fills =~= below.fills + fill_at(levels[at], below.remaining, venue));
        assert(w.levels.skip(at + 1) =~= levels.skip(at + 1));
    } else {
        assert(levels[0].price.rank() < levels[at].price.rank());
        assert(first.wf());
        lemma_level_step(first, incoming, venue);
        let done = matched_quantity(first.holding.orders, incoming);
        assert forall|a: int, b: int| 0 <= a < b < tail.len() implies (#[trigger] tail[a]).price.rank()
            < (#[trigger] tail[b]).price.rank() by {
            assert(tail[a] == levels[a + 1]);
            assert(tail[b] == levels[b + 1]);
        }
        assert forall|i: int| 0 <= i < tail.len() implies (#[trigger] tail[i]).wf() by {
            assert(tail[i] == levels[i + 1]);
        }
        assert(tail[at - 1] == levels[at]);
        lemma_fill_at_equal_ask(tail, at - 1, bid, incoming - done, venue);
        assert(lower.first() == first);
        assert(lower.skip(1) =~= tail.take(at - 1));
        let rest = walk_asks(tail, limit, incoming - done, venue);
        let below_rest = walk_asks(tail.take(at - 1), limit, incoming - done, venue);
        assert(below.fills == fill_at(first, incoming, venue) + below_rest.fills);
        assert(below.remaining == below_rest.remaining);
        assert(w.fills =~= below.fills + fill_at(levels[at], below.remaining, venue));
        assert forall|i: int| 0 <= i < below.fills.len() implies (#[trigger] below.fills[i]).price.rank()
            < limit by {
            let head = fill_at(first, incoming, venue);
            if i < head.len() {
                assert(below.fills[i] == head[i]);
            } else {
                assert(below.fills[i] == below_rest.fills[i - head.len()]);
            }
        }
        lemma_walk_asks(tail, limit, incoming - done, venue);
        assert(w.levels.skip(at + 1) =~= rest.levels.skip(at));
        assert(tail.skip(at) =~= levels.skip(at + 1));
    }
}

/// Every order of the run stands on the given side.
pub open spec fn all_on_side(orders: Seq<OrderView>, request: TradeRequest) -> bool {
    forall|i: int| 0 <= i < orders.len() ==> (#[trigger] orders[i]).request == request
}

/// A pass in which no order finds a level on the side it walks changes
/// nothing: asks against a ladder without bids, or bids against a ladder
/// without asks.
pub proof fn lemma_pass_without_liquidity(
    orders: Seq<OrderView>,
    bids: Seq<LevelView>,
    asks: Seq<LevelView>,
    venue: Seq<char>,
    home: Seq<char>,
)
    requires
        queue_wf(orders, home),
        (all_on_side(orders, TradeRequest::Ask) && bids.len() == 0) || (all_on_side(
            orders,
            TradeRequest::Bid,
        ) && asks.len() == 0),
    ensures
        run_pass(orders, bids, asks, venue, home) == (Pass {
            queue: orders,
            completed: Seq::empty(),
            bids,
            asks,
            removed: Seq::empty(),
        }),
    decreases orders.len(),
{
    let p = run_pass(orders, bids, asks, venue, home);
    if orders.len() == 0 {
        assert(p.queue =~= orders);
    } else {
        let order = orders.first();
        let tail = orders.skip(1);
        assert(order == orders[0]);
        assert(order.wf_active());
        assert forall|i: int| 0 <= i < tail.len() implies (#[trigger] tail[i]).wf_active()
            && tail[i].is_arbitrage == has_foreign_fill(tail[i].filled_with, home)
            && tail[i].request == orders[i + 1].request by {
            assert(tail[i] == orders[i + 1]);
        }
        let w = walk_for(order, bids, asks, venue);
        assert(w.fills =~= Seq::<MatchedView>::empty());
        assert(w.remaining == order.wanted());
        assert(w.removed =~= Seq::<u128>::empty());
        assert(order.filled_with + w.fills =~= order.filled_with);
        assert(filled_total(w.fills) == 0);
        lemma_settled(order, w, venue, home);
        assert(settled(order, w, home) == order);
        lemma_pass_without_liquidity(tail, bids, asks, venue, home);
        assert(seq![order] + tail =~= orders);
        assert(w.removed + Seq::<u128>::empty() =~= Seq::<u128>::empty());
    }
}

} // verus!
