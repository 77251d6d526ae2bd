use vstd::prelude::*;
use std::collections::VecDeque;
use crate::trading::ladder::{merged, row_wf, LevelView, PriceRow};
use crate::trading::price::Price;
use crate::trading::tools::{has_foreign_fill, orders_view, Order, OrderView};

verus! {

/// The best ask and the best bid as they stood when both sides last had a
/// level: the two prices from which spread and mid-price are derived.
#[derive(PartialEq, Eq, Structural, Debug, Clone, Copy)]
pub struct Quote {
    pub ask: Price,
    pub bid: Price,
}

/// The model of one instrument's ladder on one venue.
pub struct ColumnsView {
    pub bids: Seq<LevelView>,
    pub asks: Seq<LevelView>,
    pub quote: Option<Quote>,
    pub orders: Seq<OrderView>,
    pub history: Seq<OrderView>,
    pub exchange_name: Seq<char>,
}

/// Every order of the queue is active, and is flagged as arbitrage exactly
/// when it holds a fill from another venue than `home`.
pub open spec fn queue_wf(orders: Seq<OrderView>, home: Seq<char>) -> bool {
    forall|i: int|
        0 <= i < orders.len() ==> (#[trigger] orders[i]).wf_active() && orders[i].is_arbitrage
            == has_foreign_fill(orders[i].filled_with, home)
}

/// Every order of the history is completed and filled in full.
pub open spec fn history_wf(history: Seq<OrderView>) -> bool {
    forall|i: int| 0 <= i < history.len() ==> (#[trigger] history[i]).wf_completed()
}

/// The quote after the derived values were brought up to date: the best ask
/// and best bid where both sides have a level, the former quote otherwise.
pub open spec fn quoted(bids: Seq<LevelView>, asks: Seq<LevelView>, former: Option<Quote>) -> Option<
    Quote,
> {
    if bids.len() > 0 && asks.len() > 0 {
        Some(Quote { ask: asks.first().price, bid: bids.last().price })
    } else {
        former
    }
}

impl ColumnsView {
    /// A ladder at rest: both rows at rest, the queue active, the history completed.
    pub open spec fn wf(&self) -> bool {
        &&& row_wf(self.bids)
        &&& row_wf(self.asks)
        &&& queue_wf(self.orders, self.exchange_name)
        &&& history_wf(self.history)
    }

    /// The ladder of a venue that has seen nothing yet.
    pub open spec fn empty(exchange_name: Seq<char>) -> ColumnsView {
        ColumnsView {
            bids: Seq::empty(),
            asks: Seq::empty(),
            quote: None,
            orders: Seq::empty(),
            history: Seq::empty(),
            exchange_name,
        }
    }
}

/// One instrument's ladder on one venue: bids and asks by price, the queue of
/// active orders, and the history of completed ones.
#[derive(PartialEq, Debug, Clone)]
pub struct PriceColumns {
    pub bids: PriceRow,
    pub asks: PriceRow,
    pub quote: Option<Quote>,
    pub orders: VecDeque<Order>,
    pub history: VecDeque<Order>,
    pub exchange_name: String,
}

impl View for PriceColumns {
    type V = ColumnsView;

    open spec fn view(&self) -> ColumnsView {
        ColumnsView {
            bids: self.bids@,
            asks: self.asks@,
            quote: self.quote,
            orders: orders_view(self.orders@),
            history: orders_view(self.history@),
            exchange_name: self.exchange_name@,
        }
    }
}

impl Default for PriceColumns {
    fn default() -> (r: Self)
        ensures
            r@ == ColumnsView::empty(Seq::empty()),
            r@.wf(),
    {
        let r = PriceColumns {
            bids: PriceRow::new(),
            asks: PriceRow::new(),
            quote: None,
            orders: VecDeque::new(),
            history: VecDeque::new(),
            exchange_name: String::new(),
        };
        assert(orders_view(r.orders@) =~= Seq::<OrderView>::empty());
        assert(orders_view(r.history@) =~= Seq::<OrderView>::empty());
        r
    }
}

impl PriceColumns {
    /// The empty ladder of the venue `exchange_name`.
    pub fn new(exchange_name: &str) -> (r: Self)
        ensures
            r@ == ColumnsView::empty(exchange_name@),
            r@.wf(),
    {
        let r = PriceColumns {
            bids: PriceRow::new(),
            asks: PriceRow::new(),
            quote: None,
            orders: VecDeque::new(),
            history: VecDeque::new(),
            exchange_name: exchange_name.to_owned(),
        };
        assert(orders_view(r.orders@) =~= Seq::<OrderView>::empty());
        assert(orders_view(r.history@) =~= Seq::<OrderView>::empty());
        r
    }

    /// Brings the quote up to date: where both sides have a level it becomes
    /// the lowest ask and the highest bid, otherwise it stays as it was.
    pub fn update_spread_and_mid_price(&mut self)
        ensures
            final(self)@ == (ColumnsView {
                quote: quoted(old(self)@.bids, old(self)@.asks, old(self)@.quote),
                ..old(self)@
            }),
    {
        let max_bid = self.bids.last_key();
        let min_ask = self.asks.first_key();
        match (min_ask, max_bid) {
            (Some(ask), Some(bid)) => {
                self.quote = Some(Quote { ask, bid });
            },
            _ => {},
        }
    }

    /// Merges another ladder's rows into this one, price by price: where both
    /// have a level at a price, the other ladder's holding stands. Then the
    /// quote is brought up to date. Queue and history stay as they are.
    pub fn extend(&mut self, other: &PriceColumns)
        requires
            old(self)@.wf(),
            other@.wf(),
        ensures
            final(self)@.wf(),
            final(self)@ == ({
                let bids = merged(old(self)@.bids, other@.bids);
                let asks = merged(old(self)@.asks, other@.asks);
                ColumnsView { bids, asks, quote: quoted(bids, asks, old(self)@.quote), ..old(self)@ }
            }),
    {
        self.bids.merge(&other.bids);
        self.asks.merge(&other.asks);
        self.update_spread_and_mid_price();
    }
}

impl PriceColumns {
    /// Whether the ladder is at rest.
    pub fn is_wf(&self) -> (r: bool)
        ensures
            r == self@.wf(),
    {
        if !self.bids.is_wf() || !self.asks.is_wf() {
            return false;
        }
        let mut i: usize = 0;
        while i < self.orders.len()
            invariant
                i <= self.orders.len(),
                forall|j: int|
                    0 <= j < i ==> (#[trigger] self@.orders[j]).wf_active()
                        && self@.orders[j].is_arbitrage == has_foreign_fill(
                        self@.orders[j].filled_with,
                        self@.exchange_name,
                    ),
            decreases self.orders.len() - i,
        {
            assert(self@.orders[i as int] == self.orders@[i as int]@);
            if !self.orders[i].is_active_at(&self.exchange_name) {
                return false;
            }
            i = i + 1;
        }
        let mut k: usize = 0;
        while k < self.history.len()
            invariant
                k <= self.history.len(),
                forall|j: int| 0 <= j < k ==> (#[trigger] self@.history[j]).wf_completed(),
            decreases self.history.len() - k,
        {
            assert(self@.history[k as int] == self.history@[k as int]@);
            if !self.history[k].is_settled() {
                return false;
            }
            k = k + 1;
        }
        true
    }
}

} // verus!
