use vstd::prelude::*;
use std::collections::VecDeque;
use std::time::{Duration, SystemTime, SystemTimeError, UNIX_EPOCH};
use crate::trading::columns::{ColumnsView, PriceColumns};
use crate::trading::ladder::{has_room, inserted, LevelView};
use crate::trading::tools::{
    all_positive, lemma_total_positive, lemma_total_single, lemma_total_split, total_of,
    CurrentHoldingPerPrice, MininalOrder, Order, OrderView, TradeRequest,
};

verus! {

#[verifier::external_type_specification]
#[verifier::external_body]
pub struct ExSystemTime(SystemTime);

#[verifier::external_type_specification]
#[verifier::external_body]
pub struct ExSystemTimeError(SystemTimeError);

/// `SystemTime::now` reads the wall clock; nothing is claimed of what it reads.
pub assume_specification[ SystemTime::now ]() -> SystemTime;

/// `Duration::as_millis` gives a span in whole milliseconds; nothing is claimed
/// of the number.
pub assume_specification[ Duration::as_millis ](span: &Duration) -> u128;

/// `SystemTime::duration_since` against `UNIX_EPOCH`: the span from the epoch to
/// `now`, or the error that std reports for a clock set before the epoch.
#[verifier::external_body]
fn since_unix_epoch(now: &SystemTime) -> Result<Duration, SystemTimeError> {
    now.duration_since(UNIX_EPOCH)
}

/// The wall clock in milliseconds since the Unix epoch, used as an order id.
/// Two calls within one millisecond give the same number. A clock set before
/// the epoch reads as zero.
pub fn get_timestamp_ms() -> u128 {
    let now = SystemTime::now();
    match since_unix_epoch(&now) {
        Ok(elapsed) => elapsed.as_millis(),
        Err(_) => 0,
    }
}

/// How many contributors at the head of a level an incoming quantity consumes
/// in full, taking them oldest first.
pub open spec fn drained_count(orders: Seq<MininalOrder>, incoming: int) -> nat
    decreases orders.len(),
{
    if orders.len() > 0 && orders[0].qty <= incoming {
        1 + drained_count(orders.skip(1), incoming - orders[0].qty)
    } else {
        0
    }
}

/// The quantity an incoming order takes out of a level: all it asks for, or
/// all the level has.
pub open spec fn matched_quantity(orders: Seq<MininalOrder>, incoming: int) -> int {
    if incoming <= total_of(orders) {
        incoming
    } else {
        total_of(orders)
    }
}

/// The contributors that a level keeps after an incoming quantity was taken
/// out of it: the consumed head is gone, and the first survivor has given
/// what the head could not.
pub open spec fn drained(orders: Seq<MininalOrder>, incoming: int) -> Seq<MininalOrder> {
    let k = drained_count(orders, incoming) as int;
    if k >= orders.len() {
        Seq::empty()
    } else {
        let given = incoming - total_of(orders.take(k));
        let first = MininalOrder {
            price: orders[k].price,
            id: orders[k].id,
            qty: (orders[k].qty - given) as i32,
        };
        seq![first] + orders.skip(k + 1)
    }
}

/// The ids of the contributors that an incoming quantity consumes in full.
pub open spec fn drained_ids(orders: Seq<MininalOrder>, incoming: int) -> Seq<u128> {
    orders.take(drained_count(orders, incoming) as int).map_values(|o: MininalOrder| o.id)
}

/// The consumed head is the longest head whose sum the incoming quantity covers.
pub proof fn lemma_drained_count(orders: Seq<MininalOrder>, incoming: int)
    requires
        all_positive(orders),
        incoming >= 0,
    ensures
        drained_count(orders, incoming) <= orders.len(),
        total_of(orders.take(drained_count(orders, incoming) as int)) <= incoming,
        drained_count(orders, incoming) < orders.len() ==> incoming < total_of(
            orders.take(drained_count(orders, incoming) as int + 1),
        ),
        drained_count(orders, incoming) == orders.len() <==> total_of(orders) <= incoming,
    decreases orders.len(),
{
    let k = drained_count(orders, incoming) as int;
    if orders.len() > 0 && orders[0].qty <= incoming {
        let rest = orders.skip(1);
        let left = incoming - orders[0].qty;
        lemma_drained_count(rest, left);
        let kr = drained_count(rest, left) as int;
        assert(k == kr + 1);
        lemma_total_split(orders.take(k), 1);
        assert(orders.take(k).take(1) =~= seq![orders[0]]);
        assert(orders.take(k).skip(1) =~= rest.take(kr));
        lemma_total_single(orders[0]);
        if kr < rest.len() {
            lemma_total_split(orders.take(k + 1), 1);
            assert(orders.take(k + 1).take(1) =~= seq![orders[0]]);
            assert(orders.take(k + 1).skip(1) =~= rest.take(kr + 1));
        }
        lemma_total_split(orders, 1);
        assert(orders.take(1) =~= seq![orders[0]]);
    } else {
        assert(orders.take(0) =~= Seq::<MininalOrder>::empty());
        if orders.len() > 0 {
            assert(orders.take(1) =~= seq![orders[0]]);
            lemma_total_single(orders[0]);
            lemma_total_split(orders, 1);
            lemma_total_positive(orders.skip(1));
        }
    }
}

/// What a level keeps is unspent, and sums to what it had less what was taken.
pub proof fn lemma_drained_total(orders: Seq<MininalOrder>, incoming: int)
    requires
        all_positive(orders),
        total_of(orders) <= i32::MAX,
        incoming >= 0,
    ensures
        all_positive(drained(orders, incoming)),
        total_of(drained(orders, incoming)) == total_of(orders) - matched_quantity(
            orders,
            incoming,
        ),
{
    lemma_drained_count(orders, incoming);
    let k = drained_count(orders, incoming) as int;
    if k < orders.len() {
        let given = incoming - total_of(orders.take(k));
        let kept = drained(orders, incoming);
        lemma_total_split(orders, k + 1);
        assert(orders.take(k + 1).drop_last() =~= orders.take(k));
        lemma_total_positive(orders.skip(k + 1));
        lemma_total_positive(orders.take(k));
        assert(0 < orders[k].qty - given <= i32::MAX);
        lemma_total_split(kept, 1);
        assert(kept.take(1) =~= seq![kept[0]]);
        assert(kept.skip(1) =~= orders.skip(k + 1));
        lemma_total_single(kept[0]);
        assert forall|i: int| 0 <= i < kept.len() implies (#[trigger] kept[i]).qty > 0 by {
            if i > 0 {
                assert(kept[i] == orders[k + i]);
            }
        }
    } else {
        assert(total_of(Seq::<MininalOrder>::empty()) == 0);
    }
}

/// Every contributor that a level keeps is one that it had, with its id and
/// its price.
pub proof fn lemma_drained_sources(orders: Seq<MininalOrder>, incoming: int)
    requires
        all_positive(orders),
        incoming >= 0,
    ensures
        drained(orders, incoming).len() == orders.len() - drained_count(orders, incoming),
        forall|j: int|
            0 <= j < drained(orders, incoming).len() ==> {
                let kept = #[trigger] drained(orders, incoming)[j];
                let source = orders[drained_count(orders, incoming) + j];
                kept.id == source.id && kept.price == source.price
            },
{
    lemma_drained_count(orders, incoming);
}

/// Takes an incoming quantity out of one price level, oldest contributor
/// first. Returns what was taken and the ids of the contributors that were
/// consumed in full; the incoming quantity is reduced by what was taken.
pub fn match_at_price_level(
    current_holding: &mut CurrentHoldingPerPrice,
    incoming_order_qty: &mut i32,
) -> (r: (i32, VecDeque<u128>))
    requires
        all_positive(old(current_holding).orders@),
        total_of(old(current_holding).orders@) <= i32::MAX,
        *old(incoming_order_qty) >= 0,
    ensures
        r.0 == matched_quantity(old(current_holding).orders@, *old(incoming_order_qty) as int),
        *final(incoming_order_qty) == *old(incoming_order_qty) - r.0,
        final(current_holding).orders@ == drained(
            old(current_holding).orders@,
            *old(incoming_order_qty) as int,
        ),
        r.1@ == drained_ids(old(current_holding).orders@, *old(incoming_order_qty) as int),
        final(current_holding)@.wf(),
        0 <= r.0 <= *old(incoming_order_qty),
{
    let ghost before = current_holding.orders@;
    let ghost incoming = *incoming_order_qty as int;
    let mut done_qty: i32 = 0;
    let mut orders_to_remove: VecDeque<u128> = VecDeque::new();
    let n: usize = current_holding.orders.len();
    let mut k: usize = 0;
    proof {
        lemma_drained_count(before, incoming);
        lemma_drained_total(before, incoming);
        lemma_total_positive(before);
        assert(before.take(0) =~= Seq::<MininalOrder>::empty());
        assert(before.skip(0) =~= before);
    }
    while k < n && current_holding.orders[k].qty <= *incoming_order_qty
        invariant
            current_holding.orders@ == before,
            n == before.len(),
            k <= n,
            all_positive(before),
            total_of(before) <= i32::MAX,
            done_qty == total_of(before.take(k as int)),
            *incoming_order_qty == incoming - done_qty,
            0 <= *incoming_order_qty,
            drained_count(before, incoming) == k + drained_count(
                before.skip(k as int),
                *incoming_order_qty as int,
            ),
            orders_to_remove@ == before.take(k as int).map_values(|o: MininalOrder| o.id),
        decreases n - k,
    {
        let order = current_holding.orders[k];
        proof {
            assert(before.take(k + 1).drop_last() =~= before.take(k as int));
            assert(before.skip(k as int).skip(1) =~= before.skip(k + 1));
            lemma_total_split(before, k + 1);
            lemma_total_positive(before.skip(k + 1));
            assert(before.take(k + 1).map_values(|o: MininalOrder| o.id) =~= before.take(
                k as int,
            ).map_values(|o: MininalOrder| o.id).push(order.id));
        }
        *incoming_order_qty = *incoming_order_qty - order.qty;
        done_qty = done_qty + order.qty;
        orders_to_remove.push_back(order.id);
        k = k + 1;
    }
    assert(drained_count(before, incoming) == k);
    let mut rest = current_holding.orders.split_off(k);
    assert(rest@ =~= before.skip(k as int));
    if rest.len() > 0 {
        let first = rest[0];
        let given: i32 = *incoming_order_qty;
        proof {
            lemma_total_split(before, k + 1);
            assert(before.take(k + 1).drop_last() =~= before.take(k as int));
            lemma_total_positive(before.skip(k + 1));
        }
        rest.set(0, MininalOrder { price: first.price, id: first.id, qty: first.qty - given });
        done_qty = done_qty + given;
        *incoming_order_qty = 0;
        assert(rest@ =~= drained(before, incoming));
    } else {
        assert(before.take(k as int) =~= before);
        assert(rest@ =~= drained(before, incoming));
    }
    current_holding.orders = rest;
    current_holding.update_qty_and_amount();
    (done_qty, orders_to_remove)
}

/// What a price level keeps of an order.
pub open spec fn stored(order: OrderView) -> MininalOrder {
    MininalOrder { price: order.price, id: order.id, qty: order.quantity }
}

/// The row of the ladder on which an order stands.
pub open spec fn side_of(cols: ColumnsView, request: TradeRequest) -> Seq<LevelView> {
    match request {
        TradeRequest::Ask => cols.asks,
        TradeRequest::Bid => cols.bids,
    }
}

/// Whether a ladder takes an order's quantity onto its rows: the price is a
/// number, the quantity is positive, and the level has room for it.
pub open spec fn admits(cols: ColumnsView, order: OrderView) -> bool {
    &&& order.price.wf()
    &&& order.quantity > 0
    &&& has_room(side_of(cols, order.request), stored(order))
}

/// The ladder with an order's quantity on its side.
pub open spec fn with_quantity(cols: ColumnsView, order: OrderView) -> ColumnsView {
    match order.request {
        TradeRequest::Ask => ColumnsView { asks: inserted(cols.asks, stored(order)), ..cols },
        TradeRequest::Bid => ColumnsView { bids: inserted(cols.bids, stored(order)), ..cols },
    }
}

/// Puts an order's quantity onto its side of the ladder, at the order's price:
/// into the level that is there, or into a new one. An order that the ladder
/// does not admit leaves it as it was; the result says which.
pub fn add_each(table: &mut PriceColumns, order: &Order) -> (r: bool)
    requires
        old(table)@.wf(),
    ensures
        r == admits(old(table)@, order@),
        final(table)@ == if r {
            with_quantity(old(table)@, order@)
        } else {
            old(table)@
        },
        final(table)@.wf(),
{
    if !order.price.is_number() || order.quantity <= 0 {
        return false;
    }
    let stored_order = MininalOrder::new(order.id, order.quantity, order.price);
    match order.request {
        TradeRequest::Ask => table.asks.insert(stored_order),
        TradeRequest::Bid => table.bids.insert(stored_order),
    }
}

/// The sum of a longer head of unspent contributors is the larger one.
pub proof fn lemma_heads_grow(orders: Seq<MininalOrder>, a: int, b: int)
    requires
        all_positive(orders),
        0 <= a < b <= orders.len(),
    ensures
        total_of(orders.take(a)) < total_of(orders.take(b)),
{
    let head = orders.take(b);
    lemma_total_split(head, a);
    assert(head.take(a) =~= orders.take(a));
    let rest = head.skip(a);
    assert forall|i: int| 0 <= i < rest.len() implies (#[trigger] rest[i]).qty > 0 by {
        assert(rest[i] == orders[a + i]);
    }
    lemma_total_positive(rest);
}

/// A contributor whose quantity is just what the incoming order still wants
/// when its turn comes is consumed in full and leaves the level: the level
/// keeps what stood behind it, untouched, and the incoming order is served in
/// full.
pub proof fn lemma_exact_drain(orders: Seq<MininalOrder>, incoming: int, k: int)
    requires
        all_positive(orders),
        0 <= k < orders.len(),
        total_of(orders.take(k)) + orders[k].qty == incoming,
    ensures
        drained_count(orders, incoming) == k + 1,
        drained(orders, incoming) == orders.skip(k + 1),
        matched_quantity(orders, incoming) == incoming,
        drained_ids(orders, incoming).len() == k + 1,
        drained_ids(orders, incoming).last() == orders[k].id,
{
    lemma_total_positive(orders.take(k));
    lemma_drained_count(orders, incoming);
    let found = drained_count(orders, incoming) as int;
    assert(orders.take(k + 1).drop_last() =~= orders.take(k));
    assert(total_of(orders.take(k + 1)) == incoming);
    if found < k + 1 {
        if found + 1 < k + 1 {
            lemma_heads_grow(orders, found + 1, k + 1);
        }
    } else if found > k + 1 {
        lemma_heads_grow(orders, k + 1, found);
    }
    lemma_total_split(orders, k + 1);
    lemma_total_positive(orders.skip(k + 1));
    if k + 1 < orders.len() {
        let kept = drained(orders, incoming);
        assert(kept[0] == orders[k + 1]);
        assert(kept =~= orders.skip(k + 1));
    } else {
        assert(orders.skip(k + 1) =~= Seq::<MininalOrder>::empty());
    }
}

} // verus!
