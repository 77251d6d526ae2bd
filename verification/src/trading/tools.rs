use vstd::prelude::*;
use std::collections::VecDeque;
use crate::trading::price::Price;
use crate::utils::helpers::get_timestamp_ms;

verus! {

/// The side of the market an order stands on.
#[derive(PartialEq, Eq, Structural, Debug, Clone, Copy)]
pub enum TradeRequest {
    Ask,
    Bid,
}

impl Default for TradeRequest {
    fn default() -> (r: Self)
        ensures
            r == TradeRequest::Ask,
    {
        TradeRequest::Ask
    }
}

impl TradeRequest {
    pub fn is_ask(&self) -> (r: bool)
        ensures
            r == (*self == TradeRequest::Ask),
    {
        match self {
            TradeRequest::Ask => true,
            TradeRequest::Bid => false,
        }
    }
}

/// How far an order has come: untouched, partly filled, or filled in full.
#[derive(PartialEq, Eq, Structural, Debug, Clone, Copy)]
pub enum OrderStatus {
    Completed,
    Partial,
    Pending,
}

impl Default for OrderStatus {
    fn default() -> (r: Self)
        ensures
            r == OrderStatus::Pending,
    {
        OrderStatus::Pending
    }
}

impl OrderStatus {
    pub fn is_completed(&self) -> (r: bool)
        ensures
            r == (*self == OrderStatus::Completed),
    {
        match self {
            OrderStatus::Completed => true,
            _ => false,
        }
    }

    pub fn is_pending(&self) -> (r: bool)
        ensures
            r == (*self == OrderStatus::Pending),
    {
        match self {
            OrderStatus::Pending => true,
            _ => false,
        }
    }

    pub fn is_partial(&self) -> (r: bool)
        ensures
            r == (*self == OrderStatus::Partial),
    {
        match self {
            OrderStatus::Partial => true,
            _ => false,
        }
    }
}

/// What a price level keeps of an order that contributes to it.
#[derive(PartialEq, Eq, Structural, Debug, Clone, Copy)]
pub struct MininalOrder {
    pub price: Price,
    pub id: u128,
    pub qty: i32,
}

impl MininalOrder {
    pub fn new(id: u128, qty: i32, price: Price) -> (r: Self)
        ensures
            r.id == id,
            r.qty == qty,
            r.price == price,
    {
        Self { id, qty, price }
    }
}

/// The sum of the quantities of a run of contributors.
pub open spec fn total_of(orders: Seq<MininalOrder>) -> int
    decreases orders.len(),
{
    if orders.len() == 0 {
        0
    } else {
        total_of(orders.drop_last()) + orders.last().qty
    }
}

/// Every contributor still has something to give.
pub open spec fn all_positive(orders: Seq<MininalOrder>) -> bool {
    forall|i: int| 0 <= i < orders.len() ==> (#[trigger] orders[i]).qty > 0
}

/// The model of a price level's holding: its aggregate and its contributors,
/// oldest first.
pub struct HoldingView {
    pub total_quantity: int,
    pub orders: Seq<MininalOrder>,
}

impl HoldingView {
    /// The aggregate is the sum of the contributors, none of which is spent,
    /// and it fits the machine quantity.
    pub open spec fn wf(&self) -> bool {
        &&& self.total_quantity == total_of(self.orders)
        &&& all_positive(self.orders)
        &&& self.total_quantity <= i32::MAX
    }
}

/// The quantity left at one price, and the orders that make it up.
#[derive(PartialEq, Debug, Clone)]
pub struct CurrentHoldingPerPrice {
    pub total_quantity: i32,
    pub orders: Vec<MininalOrder>,
}

impl View for CurrentHoldingPerPrice {
    type V = HoldingView;

    open spec fn view(&self) -> HoldingView {
        HoldingView { total_quantity: self.total_quantity as int, orders: self.orders@ }
    }
}

/// Adding a contributor adds its quantity to the sum.
pub proof fn lemma_total_push(orders: Seq<MininalOrder>, order: MininalOrder)
    ensures
        total_of(orders.push(order)) == total_of(orders) + order.qty,
{
    assert(orders.push(order).drop_last() =~= orders);
}

/// A single contributor sums to its own quantity.
pub proof fn lemma_total_single(order: MininalOrder)
    ensures
        total_of(seq![order]) == order.qty,
{
    lemma_total_push(Seq::empty(), order);
    assert(Seq::<MininalOrder>::empty().push(order) =~= seq![order]);
}

/// The sum of a run that is split in two is the sum of the two parts.
pub proof fn lemma_total_split(orders: Seq<MininalOrder>, k: int)
    requires
        0 <= k <= orders.len(),
    ensures
        total_of(orders) == total_of(orders.take(k)) + total_of(orders.skip(k)),
    decreases orders.len(),
{
    if k == orders.len() {
        assert(orders.take(k) =~= orders);
        assert(orders.skip(k) =~= Seq::<MininalOrder>::empty());
    } else {
        lemma_total_split(orders.drop_last(), k);
        assert(orders.drop_last().take(k) =~= orders.take(k));
        assert(orders.skip(k).drop_last() =~= orders.drop_last().skip(k));
    }
}

/// A run of unspent contributors has a sum that is at least its length.
pub proof fn lemma_total_positive(orders: Seq<MininalOrder>)
    requires
        all_positive(orders),
    ensures
        total_of(orders) >= orders.len(),
    decreases orders.len(),
{
    if orders.len() > 0 {
        lemma_total_positive(orders.drop_last());
    }
}

impl CurrentHoldingPerPrice {
    /// Recomputes the aggregate from the contributors.
    pub fn update_qty_and_amount(&mut self)
        requires
            i32::MIN <= total_of(old(self).orders@) <= i32::MAX,
        ensures
            final(self).orders == old(self).orders,
            final(self).total_quantity == total_of(old(self).orders@),
    {
        let mut sum: i128 = 0;
        let mut i: usize = 0;
        let n: usize = self.orders.len();
        while i < n
            invariant
                n == self.orders.len(),
                i <= n,
                sum == total_of(self.orders@.take(i as int)),
                -(i as int) * 0x8000_0000 <= sum <= (i as int) * 0x8000_0000,
            decreases n - i,
        {
            proof {
                assert(self.orders@.take(i + 1).drop_last() =~= self.orders@.take(i as int));
                assert((i as int + 1) * 0x8000_0000 == (i as int) * 0x8000_0000 + 0x8000_0000)
                    by (nonlinear_arith);
                assert((i as int) * 0x8000_0000 <= 0x1_0000_0000_0000_0000 * 0x8000_0000)
                    by (nonlinear_arith)
                    requires
                        i <= 0x1_0000_0000_0000_0000,
                ;
            }
            sum = sum + (self.orders[i].qty as i128);
            i = i + 1;
        }
        proof {
            assert(self.orders@.take(n as int) =~= self.orders@);
        }
        self.total_quantity = sum as i32;
    }
}

/// The model of one fill: where it was taken, how much, and from which venue.
pub struct MatchedView {
    pub price: Price,
    pub quantity: i32,
    pub exchange: Seq<char>,
}

/// One fill that an order took out of a price level.
#[derive(PartialEq, Debug, Clone)]
pub struct MatchedOrders {
    pub price: Price,
    pub quantity: i32,
    pub exchange: String,
}

impl View for MatchedOrders {
    type V = MatchedView;

    open spec fn view(&self) -> MatchedView {
        MatchedView { price: self.price, quantity: self.quantity, exchange: self.exchange@ }
    }
}

impl MatchedOrders {
    pub fn new(price: Price, quantity: i32, exchange: &str) -> (r: Self)
        ensures
            r@ == (MatchedView { price, quantity, exchange: exchange@ }),
    {
        Self { price, quantity, exchange: exchange.to_owned() }
    }
}

/// The models of a run of fills.
pub open spec fn fills_view(fills: Seq<MatchedOrders>) -> Seq<MatchedView> {
    fills.map_values(|m: MatchedOrders| m@)
}

/// The quantity that a run of fills adds up to.
pub open spec fn filled_total(fills: Seq<MatchedView>) -> int
    decreases fills.len(),
{
    if fills.len() == 0 {
        0
    } else {
        filled_total(fills.drop_last()) + fills.last().quantity
    }
}

/// No fill is empty.
pub open spec fn fills_positive(fills: Seq<MatchedView>) -> bool {
    forall|i: int| 0 <= i < fills.len() ==> (#[trigger] fills[i]).quantity > 0
}

/// Some fill was taken from a venue other than `home`.
pub open spec fn has_foreign_fill(fills: Seq<MatchedView>, home: Seq<char>) -> bool {
    exists|i: int| 0 <= i < fills.len() && (#[trigger] fills[i]).exchange != home
}

/// The total of two runs of fills, one after the other.
pub proof fn lemma_filled_concat(a: Seq<MatchedView>, b: Seq<MatchedView>)
    ensures
        filled_total(a + b) == filled_total(a) + filled_total(b),
    decreases b.len(),
{
    if b.len() == 0 {
        assert(a + b =~= a);
    } else {
        lemma_filled_concat(a, b.drop_last());
        assert((a + b).drop_last() =~= a + b.drop_last());
    }
}

/// The model of an order.
pub struct OrderView {
    pub id: u128,
    pub is_arbitrage: bool,
    pub status: OrderStatus,
    pub price: Price,
    pub request: TradeRequest,
    pub quantity: i32,
    pub remaining_qty: i32,
    pub filled_with: Seq<MatchedView>,
}

impl OrderView {
    /// An order as it is when it is made: nothing filled, nothing decided.
    pub open spec fn is_fresh(&self) -> bool {
        &&& self.status == OrderStatus::Pending
        &&& !self.is_arbitrage
        &&& self.remaining_qty == 0
        &&& self.filled_with.len() == 0
    }

    /// The shape of an order in the active queue: it asks for something, it is
    /// not completed, and what it has taken plus what it still wants is what it
    /// asked for.
    pub open spec fn wf_active(&self) -> bool {
        &&& self.price.wf()
        &&& self.quantity > 0
        &&& fills_positive(self.filled_with)
        &&& match self.status {
            OrderStatus::Pending => self.filled_with.len() == 0 && self.remaining_qty == 0,
            OrderStatus::Partial => {
                &&& filled_total(self.filled_with) + self.remaining_qty == self.quantity
                &&& 0 < self.remaining_qty < self.quantity
            },
            OrderStatus::Completed => false,
        }
    }

    /// The shape of an order in the history: completed, filled to the last
    /// unit, and with nothing left to want.
    pub open spec fn wf_completed(&self) -> bool {
        &&& self.price.wf()
        &&& self.quantity > 0
        &&& fills_positive(self.filled_with)
        &&& self.status == OrderStatus::Completed
        &&& filled_total(self.filled_with) == self.quantity
        &&& self.remaining_qty == 0
    }

    /// What the order still wants when a matching pass reaches it.
    pub open spec fn wanted(&self) -> int {
        if self.remaining_qty > 0 {
            self.remaining_qty as int
        } else {
            self.quantity as int
        }
    }
}

/// An order tracked by a book.
#[derive(PartialEq, Debug, Clone)]
pub struct Order {
    pub id: u128,
    pub is_arbitrage: bool,
    pub status: OrderStatus,
    pub price: Price,
    pub request: TradeRequest,
    pub quantity: i32,
    pub remaining_qty: i32,
    pub filled_with: VecDeque<MatchedOrders>,
}

impl View for Order {
    type V = OrderView;

    open spec fn view(&self) -> OrderView {
        OrderView {
            id: self.id,
            is_arbitrage: self.is_arbitrage,
            status: self.status,
            price: self.price,
            request: self.request,
            quantity: self.quantity,
            remaining_qty: self.remaining_qty,
            filled_with: fills_view(self.filled_with@),
        }
    }
}

/// The models of a run of orders.
pub open spec fn orders_view(orders: Seq<Order>) -> Seq<OrderView> {
    orders.map_values(|o: Order| o@)
}

impl Default for Order {
    /// A fresh order for nothing, whose id is the wall clock in milliseconds.
    fn default() -> (r: Self)
        ensures
            r@.is_fresh(),
            r.price == (Price { bits: 0 }),
            r.quantity == 0,
            r.request == TradeRequest::Ask,
    {
        Order::with_id(get_timestamp_ms(), Price { bits: 0 }, 0, TradeRequest::Ask)
    }
}

impl Order {
    /// A fresh order with the given id.
    pub fn with_id(id: u128, price: Price, quantity: i32, request: TradeRequest) -> (r: Self)
        ensures
            r@.is_fresh(),
            r.id == id,
            r.price == price,
            r.quantity == quantity,
            r.request == request,
    {
        Self {
            id,
            is_arbitrage: false,
            status: OrderStatus::Pending,
            price,
            request,
            quantity,
            remaining_qty: 0,
            filled_with: VecDeque::new(),
        }
    }

    /// A fresh order whose id is the wall clock in milliseconds.
    pub fn new(price: Price, quantity: i32, request: TradeRequest) -> (r: Self)
        ensures
            r@.is_fresh(),
            r.price == price,
            r.quantity == quantity,
            r.request == request,
    {
        Order::with_id(get_timestamp_ms(), price, quantity, request)
    }

    pub fn is_completed(&self) -> (r: bool)
        ensures
            r == (self.status == OrderStatus::Completed),
    {
        self.status.is_completed()
    }

    pub fn is_partial_completed(&self) -> (r: bool)
        ensures
            r == (self.status == OrderStatus::Partial),
    {
        self.status.is_partial()
    }
}

impl CurrentHoldingPerPrice {
    /// Whether the holding is in order: its aggregate is the sum of its
    /// contributors, and none of them is spent.
    pub fn is_wf(&self) -> (r: bool)
        ensures
            r == self@.wf(),
    {
        let mut sum: i128 = 0;
        let mut i: usize = 0;
        let n: usize = self.orders.len();
        while i < n
            invariant
                n == self.orders.len(),
                i <= n,
                sum == total_of(self.orders@.take(i as int)),
                all_positive(self.orders@.take(i as int)),
                0 <= sum <= (i as int) * 0x8000_0000,
            decreases n - i,
        {
            proof {
                assert(self.orders@.take(i + 1).drop_last() =~= self.orders@.take(i as int));
                assert((i as int + 1) * 0x8000_0000 == (i as int) * 0x8000_0000 + 0x8000_0000)
                    by (nonlinear_arith);
                assert((i as int) * 0x8000_0000 <= 0x1_0000_0000_0000_0000 * 0x8000_0000)
                    by (nonlinear_arith)
                    requires
                        i <= 0x1_0000_0000_0000_0000,
                ;
            }
            if self.orders[i].qty <= 0 {
                assert(!(self.orders@[i as int].qty > 0));
                return false;
            }
            sum = sum + (self.orders[i].qty as i128);
            proof {
                let now = self.orders@.take(i + 1);
                assert forall|k: int| 0 <= k < now.len() implies (#[trigger] now[k]).qty > 0 by {
                    if k < i {
                        assert(now[k] == self.orders@.take(i as int)[k]);
                    }
                }
            }
            i = i + 1;
        }
        proof {
            assert(self.orders@.take(n as int) =~= self.orders@);
        }
        sum == self.total_quantity as i128
    }
}

/// One more fill is foreign, or the fills before it hold a foreign one.
pub proof fn lemma_foreign_push(fills: Seq<MatchedView>, fill: MatchedView, home: Seq<char>)
    ensures
        has_foreign_fill(fills.push(fill), home) == (has_foreign_fill(fills, home) || fill.exchange
            != home),
{
    let all = fills.push(fill);
    if has_foreign_fill(fills, home) {
        let i = choose|i: int| 0 <= i < fills.len() && (#[trigger] fills[i]).exchange != home;
        assert(all[i] == fills[i]);
    }
    if fill.exchange != home {
        assert(all[fills.len() as int] == fill);
    }
    if has_foreign_fill(all, home) {
        let i = choose|i: int| 0 <= i < all.len() && (#[trigger] all[i]).exchange != home;
        if i < fills.len() {
            assert(all[i] == fills[i]);
        }
    }
}

/// What a look through an order's fills finds.
pub struct FillSummary {
    /// Whether no fill is empty.
    pub positive: bool,
    /// Whether some fill was taken from another venue than the one asked about.
    pub foreign: bool,
    /// What the fills add up to.
    pub total: i128,
}

impl Order {
    /// Looks through the order's fills.
    pub fn summarize_fills(&self, home: &String) -> (r: FillSummary)
        ensures
            r.positive == fills_positive(self@.filled_with),
            r.foreign == has_foreign_fill(self@.filled_with, home@),
            r.total == filled_total(self@.filled_with),
    {
        let ghost fills = self@.filled_with;
        let mut positive: bool = true;
        let mut foreign: bool = false;
        let mut total: i128 = 0;
        let mut i: usize = 0;
        let n: usize = self.filled_with.len();
        while i < n
            invariant
                n == self.filled_with.len(),
                fills == self@.filled_with,
                i <= n,
                positive == fills_positive(fills.take(i as int)),
                foreign == has_foreign_fill(fills.take(i as int), home@),
                total == filled_total(fills.take(i as int)),
                -(i as int) * 0x8000_0000 <= total <= (i as int) * 0x8000_0000,
            decreases n - i,
        {
            let fill = &self.filled_with[i];
            proof {
                let head = fills.take(i as int);
                let now = fills.take(i + 1);
                assert(now.drop_last() =~= head);
                assert(now =~= head.push(fill@));
                lemma_foreign_push(head, fill@, home@);
                assert(fills_positive(now) == (fills_positive(head) && fill@.quantity > 0)) by {
                    if fills_positive(now) {
                        assert(now[i as int].quantity > 0);
                        assert forall|k: int| 0 <= k < head.len() implies (
                        #[trigger] head[k]).quantity > 0 by {
                            assert(head[k] == now[k]);
                        }
                    }
                    if fills_positive(head) && fill@.quantity > 0 {
                        assert forall|k: int| 0 <= k < now.len() implies (#[trigger] now[k]).quantity
                            > 0 by {
                            if k < i {
                                assert(now[k] == head[k]);
                            }
                        }
                    }
                }
                assert((i as int + 1) * 0x8000_0000 == (i as int) * 0x8000_0000 + 0x8000_0000)
                    by (nonlinear_arith);
                assert((i as int) * 0x8000_0000 <= 0x1_0000_0000_0000_0000 * 0x8000_0000)
                    by (nonlinear_arith)
                    requires
                        i <= 0x1_0000_0000_0000_0000,
                ;
            }
            if fill.quantity <= 0 {
                positive = false;
            }
            if fill.exchange != *home {
                foreign = true;
            }
            total = total + (fill.quantity as i128);
            i = i + 1;
        }
        proof {
            assert(fills.take(n as int) =~= fills);
        }
        FillSummary { positive, foreign, total }
    }

    /// Whether the order has the shape of an order in the active queue of the
    /// venue `home`, with its arbitrage flag as its fills say.
    pub fn is_active_at(&self, home: &String) -> (r: bool)
        ensures
            r == (self@.wf_active() && self@.is_arbitrage == has_foreign_fill(
                self@.filled_with,
                home@,
            )),
    {
        let found = self.summarize_fills(home);
        assert(self@.filled_with.len() == self.filled_with@.len());
        let shaped: bool = match self.status {
            OrderStatus::Pending => self.filled_with.len() == 0 && self.remaining_qty == 0,
            OrderStatus::Partial => found.total == (self.quantity as i128) - (
            self.remaining_qty as i128) && 0 < self.remaining_qty && self.remaining_qty
                < self.quantity,
            OrderStatus::Completed => false,
        };
        self.price.is_number() && self.quantity > 0 && found.positive && shaped
            && self.is_arbitrage == found.foreign
    }

    /// Whether the order has the shape of an order in the history.
    pub fn is_settled(&self) -> (r: bool)
        ensures
            r == self@.wf_completed(),
    {
        let nowhere = String::new();
        let found = self.summarize_fills(&nowhere);
        self.price.is_number() && self.quantity > 0 && found.positive
            && self.status.is_completed() && found.total == (self.quantity as i128)
            && self.remaining_qty == 0
    }
}

} // verus!
