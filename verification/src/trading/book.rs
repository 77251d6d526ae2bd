use vstd::prelude::*;
use std::collections::VecDeque;
use crate::trading::columns::{history_wf, quoted, ColumnsView, PriceColumns};
use crate::trading::instrument::{Instrument, InstrumentView};
use crate::trading::ladder::{
    ascending, lemma_inserted_wf, row_consistent, row_wf, swept, LevelView,
};
use crate::trading::matching::{
    all_on_side, drop_ids, lemma_pass_without_liquidity, lemma_run_pass, lemma_without_ids_wf,
    match_queue, run_pass, without_ids,
};
use crate::trading::tools::{
    all_positive, filled_total, has_foreign_fill, lemma_total_positive, orders_view, total_of,
    Order, OrderStatus, OrderView, TradeRequest,
};
use crate::utils::helpers::{add_each, admits, stored, with_quantity};

verus! {

/// The model of one entry of a book's table.
pub struct EntryView {
    pub instrument: InstrumentView,
    pub columns: ColumnsView,
}

/// One instrument of a book, with its ladder.
#[derive(PartialEq, Debug, Clone)]
pub struct BookEntry {
    pub instrument: Instrument,
    pub columns: PriceColumns,
}

impl View for BookEntry {
    type V = EntryView;

    open spec fn view(&self) -> EntryView {
        EntryView { instrument: self.instrument@, columns: self.columns@ }
    }
}

/// The models of a run of entries.
pub open spec fn entries_view(entries: Seq<BookEntry>) -> Seq<EntryView> {
    entries.map_values(|e: BookEntry| e@)
}

/// No instrument has two entries.
pub open spec fn distinct(entries: Seq<EntryView>) -> bool {
    forall|i: int, j: int|
        0 <= i < j < entries.len() ==> (#[trigger] entries[i]).instrument != (
        #[trigger] entries[j]).instrument
}

/// The table that a run of entries stands for.
pub open spec fn table_of(entries: Seq<EntryView>) -> Map<InstrumentView, ColumnsView>
    decreases entries.len(),
{
    if entries.len() == 0 {
        Map::empty()
    } else {
        table_of(entries.drop_last()).insert(entries.last().instrument, entries.last().columns)
    }
}

/// The model of a venue's book: its tag, and a ladder for each instrument seen.
pub struct BookView {
    pub exchange: Seq<char>,
    pub table: Map<InstrumentView, ColumnsView>,
}

impl BookView {
    /// Every ladder of the book is at rest and carries the book's tag.
    pub open spec fn wf(&self) -> bool {
        forall|k: InstrumentView| #[trigger]
            self.table.contains_key(k) ==> self.table[k].wf() && self.table[k].exchange_name
                == self.exchange
    }
}

/// A venue's order book.
#[derive(PartialEq, Debug, Clone)]
pub struct OrderBook {
    pub exchange: String,
    pub asset_order_table: Vec<BookEntry>,
}

impl View for OrderBook {
    type V = BookView;

    open spec fn view(&self) -> BookView {
        BookView {
            exchange: self.exchange@,
            table: table_of(entries_view(self.asset_order_table@)),
        }
    }
}

/// The table has an instrument exactly when some entry carries it.
pub proof fn lemma_table_keys(entries: Seq<EntryView>, key: InstrumentView)
    ensures
        table_of(entries).contains_key(key) <==> exists|i: int|
            0 <= i < entries.len() && (#[trigger] entries[i]).instrument == key,
    decreases entries.len(),
{
    if entries.len() > 0 {
        let head = entries.drop_last();
        lemma_table_keys(head, key);
        if table_of(entries).contains_key(key) {
            if entries.last().instrument == key {
                assert(entries[entries.len() - 1].instrument == key);
            } else {
                let i = choose|i: int| 0 <= i < head.len() && (#[trigger] head[i]).instrument == key;
                assert(entries[i].instrument == key);
            }
        }
        if exists|i: int| 0 <= i < entries.len() && (#[trigger] entries[i]).instrument == key {
            let i = choose|i: int| 0 <= i < entries.len() && (#[trigger] entries[i]).instrument == key;
            if i < head.len() {
                assert(head[i].instrument == key);
            }
        }
    }
}

/// Where no instrument has two entries, the table gives each entry's ladder.
pub proof fn lemma_table_at(entries: Seq<EntryView>, at: int)
    requires
        distinct(entries),
        0 <= at < entries.len(),
    ensures
        table_of(entries).contains_key(entries[at].instrument),
        table_of(entries)[entries[at].instrument] == entries[at].columns,
    decreases entries.len(),
{
    let head = entries.drop_last();
    if at < head.len() {
        assert forall|i: int, j: int| 0 <= i < j < head.len() implies (#[trigger] head[i]).instrument
            != (#[trigger] head[j]).instrument by {
            assert(head[i] == entries[i]);
            assert(head[j] == entries[j]);
        }
        lemma_table_at(head, at);
        assert(head[at] == entries[at]);
        assert(entries[at].instrument != entries[entries.len() - 1].instrument);
    }
}

/// Where no instrument has two entries, a new ladder in one entry is a new
/// ladder under that entry's instrument in the table.
pub proof fn lemma_table_update(entries: Seq<EntryView>, at: int, columns: ColumnsView)
    requires
        distinct(entries),
        0 <= at < entries.len(),
    ensures
        table_of(
            entries.update(at, EntryView { instrument: entries[at].instrument, columns }),
        ) == table_of(entries).insert(entries[at].instrument, columns),
        distinct(entries.update(at, EntryView { instrument: entries[at].instrument, columns })),
    decreases entries.len(),
{
    let key = entries[at].instrument;
    let after = entries.update(at, EntryView { instrument: key, columns });
    let head = entries.drop_last();
    assert forall|i: int, j: int| 0 <= i < j < after.len() implies (#[trigger] after[i]).instrument
        != (#[trigger] after[j]).instrument by {
        assert(after[i].instrument == entries[i].instrument);
        assert(after[j].instrument == entries[j].instrument);
    }
    if at < head.len() {
        assert forall|i: int, j: int| 0 <= i < j < head.len() implies (#[trigger] head[i]).instrument
            != (#[trigger] head[j]).instrument by {
            assert(head[i] == entries[i]);
            assert(head[j] == entries[j]);
        }
        lemma_table_update(head, at, columns);
        assert(head[at] == entries[at]);
        assert(after.drop_last() =~= head.update(at, EntryView { instrument: key, columns }));
        assert(after.last() == entries.last());
        assert(entries[at].instrument != entries[entries.len() - 1].instrument);
        assert(table_of(after) =~= table_of(entries).insert(key, columns));
    } else {
        assert(after.drop_last() =~= head);
        assert(table_of(after) =~= table_of(entries).insert(key, columns));
    }
}

/// A row at rest has no emptied level to drop.
pub proof fn lemma_swept_at_rest(levels: Seq<LevelView>)
    requires
        row_wf(levels),
    ensures
        swept(levels) == levels,
    decreases levels.len(),
{
    if levels.len() > 0 {
        let head = levels.drop_last();
        assert forall|i: int, j: int| 0 <= i < j < head.len() implies (#[trigger] head[i]).price.rank()
            < (#[trigger] head[j]).price.rank() by {
            assert(head[i] == levels[i]);
            assert(head[j] == levels[j]);
        }
        assert forall|i: int| 0 <= i < head.len() implies (#[trigger] head[i]).wf() && head[i].holding.total_quantity > 0 by {
            assert(head[i] == levels[i]);
        }
        lemma_swept_at_rest(head);
        assert(levels.last() == levels[levels.len() - 1]);
        assert(head.push(levels.last()) =~= levels);
    }
}

/// A ladder after a matching pass against its own rows.
pub open spec fn matched_alone(cols: ColumnsView) -> ColumnsView {
    let p = run_pass(cols.orders, cols.bids, cols.asks, cols.exchange_name, cols.exchange_name);
    ColumnsView {
        bids: swept(p.bids),
        asks: swept(p.asks),
        quote: quoted(p.bids, p.asks, cols.quote),
        orders: without_ids(p.queue, p.removed),
        history: cols.history + p.completed,
        exchange_name: cols.exchange_name,
    }
}

/// The local ladder after a matching pass of its queue against a peer's rows.
pub open spec fn matched_local(local: ColumnsView, peer: ColumnsView) -> ColumnsView {
    let p = run_pass(local.orders, peer.bids, peer.asks, peer.exchange_name, local.exchange_name);
    ColumnsView {
        bids: swept(local.bids),
        asks: swept(local.asks),
        quote: quoted(local.bids, local.asks, local.quote),
        orders: without_ids(p.queue, p.removed),
        history: local.history + p.completed,
        exchange_name: local.exchange_name,
    }
}

/// The peer's ladder after a matching pass of a local queue against its rows:
/// its rows have given, its queue and history are as they were.
pub open spec fn matched_peer(local: ColumnsView, peer: ColumnsView) -> ColumnsView {
    let p = run_pass(local.orders, peer.bids, peer.asks, peer.exchange_name, local.exchange_name);
    ColumnsView { bids: swept(p.bids), asks: swept(p.asks), ..peer }
}

/// Two histories in order, one after the other, are a history in order.
proof fn lemma_history_concat(a: Seq<OrderView>, b: Seq<OrderView>)
    requires
        history_wf(a),
        history_wf(b),
    ensures
        history_wf(a + b),
{
    let ab = a + b;
    assert forall|i: int| 0 <= i < ab.len() implies (#[trigger] ab[i]).wf_completed() by {
        if i < a.len() {
            assert(ab[i] == a[i]);
        } else {
            assert(ab[i] == b[i - a.len()]);
        }
    }
}

impl PriceColumns {
    /// Matches the queue against the ladder's own rows, then tidies up: the
    /// orders whose ids were consumed leave the queue, the quote is brought up
    /// to date, and emptied levels are dropped. No order of a ladder at rest
    /// is without quantity, so the queue holds none to drop.
    pub fn match_alone(&mut self)
        requires
            old(self)@.wf(),
        ensures
            final(self)@ == matched_alone(old(self)@),
            final(self)@.wf(),
    {
        let ghost before = self@;
        let ghost p = run_pass(
            before.orders,
            before.bids,
            before.asks,
            before.exchange_name,
            before.exchange_name,
        );
        proof {
            lemma_run_pass(
                before.orders,
                before.bids,
                before.asks,
                before.exchange_name,
                before.exchange_name,
            );
            lemma_without_ids_wf(p.queue, p.removed, before.exchange_name);
            lemma_history_concat(before.history, p.completed);
        }
        let mut queue: VecDeque<Order> = VecDeque::new();
        core::mem::swap(&mut self.orders, &mut queue);
        let (kept, removed) = match_queue(
            queue,
            &mut self.bids,
            &mut self.asks,
            &mut self.history,
            &self.exchange_name,
            &self.exchange_name,
        );
        self.orders = kept;
        drop_ids(&mut self.orders, &removed);
        self.update_spread_and_mid_price();
        self.bids.sweep();
        self.asks.sweep();
    }

    /// Matches the queue against a peer's rows, then tidies up both ladders:
    /// the local queue loses the orders whose ids were consumed, the local
    /// quote is brought up to date, and emptied levels are dropped on both
    /// sides. The peer's queue and history are not touched.
    pub fn match_against(&mut self, peer: &mut PriceColumns)
        requires
            old(self)@.wf(),
            old(peer)@.wf(),
        ensures
            final(self)@ == matched_local(old(self)@, old(peer)@),
            final(peer)@ == matched_peer(old(self)@, old(peer)@),
            final(self)@.wf(),
            final(peer)@.wf(),
    {
        let ghost local = self@;
        let ghost other = peer@;
        let ghost p = run_pass(
            local.orders,
            other.bids,
            other.asks,
            other.exchange_name,
            local.exchange_name,
        );
        proof {
            lemma_run_pass(
                local.orders,
                other.bids,
                other.asks,
                other.exchange_name,
                local.exchange_name,
            );
            lemma_without_ids_wf(p.queue, p.removed, local.exchange_name);
            lemma_history_concat(local.history, p.completed);
            lemma_swept_at_rest(local.bids);
            lemma_swept_at_rest(local.asks);
        }
        let mut queue: VecDeque<Order> = VecDeque::new();
        core::mem::swap(&mut self.orders, &mut queue);
        let (kept, removed) = match_queue(
            queue,
            &mut peer.bids,
            &mut peer.asks,
            &mut self.history,
            &peer.exchange_name,
            &self.exchange_name,
        );
        self.orders = kept;
        drop_ids(&mut self.orders, &removed);
        self.update_spread_and_mid_price();
        self.bids.sweep();
        self.asks.sweep();
        peer.bids.sweep();
        peer.asks.sweep();
    }
}

/// Whether a ladder takes an order: the order is fresh, and the ladder admits
/// its quantity.
pub open spec fn accepts(cols: ColumnsView, order: OrderView) -> bool {
    order.is_fresh() && admits(cols, order)
}

/// The ladder after it took an order: the order's quantity stands on its side,
/// the order is last in the queue, and the quote is up to date.
pub open spec fn with_order(cols: ColumnsView, order: OrderView) -> ColumnsView {
    let put = with_quantity(cols, order);
    ColumnsView {
        orders: put.orders.push(order),
        quote: quoted(put.bids, put.asks, put.quote),
        ..put
    }
}

/// The book after an order was handed to it for an instrument: taken where
/// the book knows the instrument and its ladder accepts the order, and without
/// effect otherwise.
pub open spec fn book_with_order(book: BookView, key: InstrumentView, order: OrderView) -> BookView {
    if book.table.contains_key(key) && accepts(book.table[key], order) {
        BookView { table: book.table.insert(key, with_order(book.table[key], order)), ..book }
    } else {
        book
    }
}

/// The book after an instrument was registered with it.
pub open spec fn book_with_asset(book: BookView, key: InstrumentView) -> BookView {
    if book.table.contains_key(key) {
        book
    } else {
        BookView { table: book.table.insert(key, ColumnsView::empty(book.exchange)), ..book }
    }
}

/// The book after a matching pass for one instrument, alone.
pub open spec fn book_matched_alone(book: BookView, key: InstrumentView) -> BookView {
    if book.table.contains_key(key) {
        BookView { table: book.table.insert(key, matched_alone(book.table[key])), ..book }
    } else {
        book
    }
}

/// The local book after a matching pass for one instrument against a peer.
/// Nothing happens unless both books know the instrument.
pub open spec fn book_matched_local(book: BookView, peer: BookView, key: InstrumentView) -> BookView {
    if book.table.contains_key(key) && peer.table.contains_key(key) {
        BookView {
            table: book.table.insert(key, matched_local(book.table[key], peer.table[key])),
            ..book
        }
    } else {
        book
    }
}

/// The peer's book after a matching pass of a local book against it.
pub open spec fn book_matched_peer(book: BookView, peer: BookView, key: InstrumentView) -> BookView {
    if book.table.contains_key(key) && peer.table.contains_key(key) {
        BookView {
            table: peer.table.insert(key, matched_peer(book.table[key], peer.table[key])),
            ..peer
        }
    } else {
        peer
    }
}

impl OrderBook {
    /// No instrument has two entries, and every ladder is at rest and carries
    /// the book's tag.
    pub open spec fn wf(&self) -> bool {
        let entries = entries_view(self.asset_order_table@);
        &&& distinct(entries)
        &&& forall|i: int|
            0 <= i < entries.len() ==> (#[trigger] entries[i]).columns.wf()
                && entries[i].columns.exchange_name == self.exchange@
    }

    /// A book in order has a model in order.
    pub proof fn lemma_view_wf(&self)
        requires
            self.wf(),
        ensures
            self@.wf(),
    {
        let entries = entries_view(self.asset_order_table@);
        assert forall|k: InstrumentView| #[trigger] self@.table.contains_key(k) implies self@.table[k].wf()
            && self@.table[k].exchange_name == self@.exchange by {
            lemma_table_keys(entries, k);
            let i = choose|i: int| 0 <= i < entries.len() && (#[trigger] entries[i]).instrument == k;
            lemma_table_at(entries, i);
        }
    }

    /// Shows the book. How a book is drawn is the caller's affair; nothing is
    /// drawn here.
    pub fn show(&self) {
    }

    /// Whether the book is in order.
    pub fn is_wf(&self) -> (r: bool)
        ensures
            r == self.wf(),
    {
        let ghost entries = entries_view(self.asset_order_table@);
        let mut i: usize = 0;
        while i < self.asset_order_table.len()
            invariant
                i <= self.asset_order_table.len(),
                entries == entries_view(self.asset_order_table@),
                forall|j: int|
                    0 <= j < i ==> (#[trigger] entries[j]).columns.wf()
                        && entries[j].columns.exchange_name == self.exchange@,
                forall|a: int, b: int|
                    0 <= a < b < i ==> (#[trigger] entries[a]).instrument != (
                    #[trigger] entries[b]).instrument,
            decreases self.asset_order_table.len() - i,
        {
            assert(entries[i as int] == self.asset_order_table@[i as int]@);
            let entry = &self.asset_order_table[i];
            if !entry.columns.is_wf() || entry.columns.exchange_name != self.exchange {
                return false;
            }
            let mut k: usize = 0;
            while k < i
                invariant
                    k <= i < self.asset_order_table.len(),
                    entries == entries_view(self.asset_order_table@),
                    entry == &self.asset_order_table@[i as int],
                    forall|a: int|
                        0 <= a < k ==> (#[trigger] entries[a]).instrument != entries[i as int].instrument,
                decreases i - k,
            {
                assert(entries[k as int] == self.asset_order_table@[k as int]@);
                if self.asset_order_table[k].instrument.same_as(&entry.instrument) {
                    assert(entries[k as int].instrument == entries[i as int].instrument);
                    return false;
                }
                k = k + 1;
            }
            i = i + 1;
        }
        true
    }

    /// The empty book of the venue `exchange_name`.
    pub fn new(exchange_name: &str) -> (r: Self)
        ensures
            r@ == (BookView { exchange: exchange_name@, table: Map::empty() }),
            r.wf(),
    {
        let r = OrderBook { exchange: exchange_name.to_owned(), asset_order_table: Vec::new() };
        assert(entries_view(r.asset_order_table@) =~= Seq::<EntryView>::empty());
        r
    }

    /// The place of an instrument's entry in the table.
    fn find(&self, instrument: &Instrument) -> (r: Option<usize>)
        requires
            self.wf(),
        ensures
            r.is_some() == self@.table.contains_key(instrument@),
            r matches Some(i) ==> i < self.asset_order_table.len() && self.asset_order_table[i as int].instrument@
                == instrument@ && self@.table[instrument@] == self.asset_order_table[i as int].columns@,
    {
        let ghost entries = entries_view(self.asset_order_table@);
        let mut i: usize = 0;
        while i < self.asset_order_table.len()
            invariant
                i <= self.asset_order_table.len(),
                entries == entries_view(self.asset_order_table@),
                distinct(entries),
                forall|j: int| 0 <= j < i ==> (#[trigger] entries[j]).instrument != instrument@,
            decreases self.asset_order_table.len() - i,
        {
            assert(entries[i as int] == self.asset_order_table[i as int]@);
            if self.asset_order_table[i].instrument.same_as(instrument) {
                proof {
                    lemma_table_at(entries, i as int);
                }
                return Some(i);
            }
            i = i + 1;
        }
        proof {
            lemma_table_keys(entries, instrument@);
        }
        None
    }

    /// The ladder of an instrument, if the book knows it.
    pub fn columns(&self, instrument: &Instrument) -> (r: Option<&PriceColumns>)
        requires
            self.wf(),
        ensures
            r.is_some() == self@.table.contains_key(instrument@),
            r matches Some(cols) ==> cols@ == self@.table[instrument@],
    {
        match self.find(instrument) {
            Some(i) => Some(&self.asset_order_table[i].columns),
            None => None,
        }
    }

    /// Registers an instrument with an empty ladder, unless the book knows it.
    pub fn add_asset(&mut self, name: Instrument)
        requires
            old(self).wf(),
        ensures
            final(self).wf(),
            final(self)@ == book_with_asset(old(self)@, name@),
    {
        if self.find(&name).is_none() {
            let ghost entries = entries_view(self.asset_order_table@);
            let columns = PriceColumns::new(self.exchange.as_str());
            let entry = BookEntry { instrument: name, columns };
            proof {
                lemma_table_keys(entries, entry@.instrument);
            }
            self.asset_order_table.push(entry);
            proof {
                let after = entries_view(self.asset_order_table@);
                assert(after =~= entries.push(entry@));
                assert(after.drop_last() =~= entries);
                assert forall|i: int, j: int| 0 <= i < j < after.len() implies (
                #[trigger] after[i]).instrument != (#[trigger] after[j]).instrument by {
                    assert(after[i] == entries[i]);
                    if j < entries.len() {
                        assert(after[j] == entries[j]);
                    }
                }
                assert forall|i: int| 0 <= i < after.len() implies (#[trigger] after[i]).columns.wf()
                    && after[i].columns.exchange_name == self.exchange@ by {
                    if i < entries.len() {
                        assert(after[i] == entries[i]);
                    }
                }
            }
        }
    }

    /// Takes an order for a registered instrument: its quantity goes onto the
    /// ladder, the order to the end of the queue, and the quote is brought up
    /// to date. An order for an unknown instrument, one that is not fresh, or
    /// one that the ladder does not admit changes nothing. Says whether the
    /// order was taken.
    pub fn add_order(&mut self, order: Order, asset: &Instrument) -> (r: bool)
        requires
            old(self).wf(),
        ensures
            final(self).wf(),
            r == (old(self)@.table.contains_key(asset@) && accepts(
                old(self)@.table[asset@],
                order@,
            )),
            final(self)@ == book_with_order(old(self)@, asset@, order@),
    {
        let fresh: bool = order.status.is_pending() && !order.is_arbitrage && order.remaining_qty
            == 0 && order.filled_with.len() == 0;
        let found = self.find(asset);
        if !fresh || found.is_none() {
            return false;
        }
        let i: usize = found.unwrap();
        let ghost entries = entries_view(self.asset_order_table@);
        let ghost cols = entries[i as int].columns;
        assert(entries[i as int] == self.asset_order_table[i as int]@);
        assert(order@.filled_with.len() == order.filled_with@.len());
        let ghost raw = self.asset_order_table@;
        let table = &mut self.asset_order_table[i].columns;
        if !add_each(table, &order) {
            proof {
                let after = entries_view(self.asset_order_table@);
                assert(after =~= entries) by {
                    assert forall|j: int| 0 <= j < after.len() implies after[j] == entries[j] by {
                        if j != i {
                            assert(self.asset_order_table@[j] == raw[j]);
                        }
                    }
                }
            }
            return false;
        }
        let ghost queue = table.orders@;
        let ghost taken = order@;
        table.orders.push_back(order);
        table.update_spread_and_mid_price();
        proof {
            let now = self.asset_order_table@[i as int].columns@;
            assert(orders_view(queue.push(order)) =~= orders_view(queue).push(taken));
            assert(now == with_order(cols, taken));
            assert(!has_foreign_fill(taken.filled_with, cols.exchange_name));
            assert forall|j: int| 0 <= j < now.orders.len() implies (#[trigger] now.orders[j]).wf_active()
                && now.orders[j].is_arbitrage == has_foreign_fill(
                now.orders[j].filled_with,
                now.exchange_name,
            ) by {
                if j < cols.orders.len() {
                    assert(now.orders[j] == cols.orders[j]);
                }
            }
            self.lemma_entry_replaced(raw, i as int);
        }
        true
    }

    /// What follows where one entry of a book in order got a new ladder that
    /// is at rest and carries the book's tag.
    proof fn lemma_entry_replaced(&self, raw: Seq<BookEntry>, at: int)
        requires
            0 <= at < raw.len(),
            self.asset_order_table@.len() == raw.len(),
            forall|j: int| 0 <= j < raw.len() && j != at ==> self.asset_order_table@[j] == raw[j],
            self.asset_order_table@[at].instrument == raw[at].instrument,
            self.asset_order_table@[at].columns@.wf(),
            self.asset_order_table@[at].columns@.exchange_name == self.exchange@,
            distinct(entries_view(raw)),
            forall|i: int|
                0 <= i < raw.len() ==> (#[trigger] entries_view(raw)[i]).columns.wf()
                    && entries_view(raw)[i].columns.exchange_name == self.exchange@,
        ensures
            self.wf(),
            self@.table == table_of(entries_view(raw)).insert(
                raw[at].instrument@,
                self.asset_order_table@[at].columns@,
            ),
    {
        let entries = entries_view(raw);
        let after = entries_view(self.asset_order_table@);
        let columns = self.asset_order_table@[at].columns@;
        lemma_table_update(entries, at, columns);
        assert(after =~= entries.update(
            at,
            EntryView { instrument: entries[at].instrument, columns },
        )) by {
            assert forall|j: int| 0 <= j < after.len() implies after[j] == entries.update(
                at,
                EntryView { instrument: entries[at].instrument, columns },
            )[j] by {
                if j != at {
                    assert(self.asset_order_table@[j] == raw[j]);
                }
            }
        }
        assert forall|i: int| 0 <= i < after.len() implies (#[trigger] after[i]).columns.wf()
            && after[i].columns.exchange_name == self.exchange@ by {
            if i != at {
                assert(after[i] == entries[i]);
            }
        }
    }

    pub fn get_name(&self) -> (r: String)
        ensures
            r@ == self@.exchange,
    {
        self.exchange.clone()
    }
}

// -----------------ORDER_MATCHING LOGIC--------------------------------------------------------- //
impl OrderBook {
    /// Runs a matching pass for one instrument: against the book's own ladder
    /// where no peer is given, against the peer's ladder otherwise. A book that
    /// does not know the instrument, or a peer that does not, changes nothing.
    pub fn match_orders(&mut self, assets: &Instrument, external_collection: Option<&mut OrderBook>)
        requires
            old(self).wf(),
            external_collection matches Some(peer) ==> peer.wf(),
        ensures
            final(self).wf(),
            match external_collection {
                None => final(self)@ == book_matched_alone(old(self)@, assets@),
                Some(peer) => {
                    &&& final(peer).wf()
                    &&& final(self)@ == book_matched_local(old(self)@, peer@, assets@)
                    &&& final(peer)@ == book_matched_peer(old(self)@, peer@, assets@)
                },
            },
    {
        match external_collection {
            None => {
                match self.find(assets) {
                    Some(i) => {
                        let ghost raw = self.asset_order_table@;
                        assert(entries_view(raw)[i as int] == raw[i as int]@);
                        self.asset_order_table[i].columns.match_alone();
                        proof {
                            self.lemma_entry_replaced(raw, i as int);
                        }
                    },
                    None => {},
                }
            },
            Some(peer) => {
                let here = self.find(assets);
                let there = peer.find(assets);
                match (here, there) {
                    (Some(i), Some(j)) => {
                        let ghost raw = self.asset_order_table@;
                        let ghost peer_raw = peer.asset_order_table@;
                        assert(entries_view(raw)[i as int] == raw[i as int]@);
                        assert(entries_view(peer_raw)[j as int] == peer_raw[j as int]@);
                        self.asset_order_table[i].columns.match_against(
                            &mut peer.asset_order_table[j].columns,
                        );
                        proof {
                            self.lemma_entry_replaced(raw, i as int);
                            peer.lemma_entry_replaced(peer_raw, j as int);
                        }
                    },
                    _ => {},
                }
            },
        }
    }
}

/// A consistent row without its emptied levels is a row at rest.
pub proof fn lemma_swept_wf(levels: Seq<LevelView>)
    requires
        row_consistent(levels),
    ensures
        row_wf(swept(levels)),
        forall|i: int|
            0 <= i < swept(levels).len() ==> exists|j: int|
                0 <= j < levels.len() && levels[j] == #[trigger] swept(levels)[i],
        swept(levels).len() > 0 ==> swept(levels).last().price.rank() <= levels.last().price.rank(),
    decreases levels.len(),
{
    if levels.len() > 0 {
        let head = levels.drop_last();
        let last = levels.last();
        assert forall|i: int, j: int| 0 <= i < j < head.len() implies (#[trigger] head[i]).price.rank()
            < (#[trigger] head[j]).price.rank() by {
            assert(head[i] == levels[i]);
            assert(head[j] == levels[j]);
        }
        assert forall|i: int| 0 <= i < head.len() implies (#[trigger] head[i]).wf() by {
            assert(head[i] == levels[i]);
        }
        lemma_swept_wf(head);
        let kept = swept(head);
        let out = swept(levels);
        assert(last == levels[levels.len() - 1]);
        if kept.len() > 0 && head.len() > 0 {
            assert(head.last() == levels[levels.len() - 2]);
            assert(levels[levels.len() - 2].price.rank() < levels[levels.len() - 1].price.rank());
        }
        assert forall|i: int| 0 <= i < out.len() implies exists|j: int|
            0 <= j < levels.len() && levels[j] == #[trigger] out[i] by {
            if i < kept.len() {
                assert(out[i] == kept[i]);
                let j = choose|j: int| 0 <= j < head.len() && head[j] == kept[i];
                assert(levels[j] == out[i]);
            } else {
                assert(levels[levels.len() - 1] == out[i]);
            }
        }
        if last.holding.total_quantity != 0 {
            lemma_total_positive(last.holding.orders);
            assert forall|a: int, b: int| 0 <= a < b < out.len() implies (#[trigger] out[a]).price.rank()
                < (#[trigger] out[b]).price.rank() by {
                assert(out[a] == kept[a]);
                if b < kept.len() {
                    assert(out[b] == kept[b]);
                } else {
                    lemma_row_bounded(kept, a);
                }
            }
            assert forall|i: int| 0 <= i < out.len() implies (#[trigger] out[i]).wf() && out[i].holding.total_quantity > 0 by {
                if i < kept.len() {
                    assert(out[i] == kept[i]);
                }
            }
        }
    }
}

/// In a sorted row no price lies above the last.
proof fn lemma_row_bounded(levels: Seq<LevelView>, at: int)
    requires
        ascending(levels),
        0 <= at < levels.len(),
    ensures
        levels[at].price.rank() <= levels.last().price.rank(),
{
    if at < levels.len() - 1 {
        assert(levels[at].price.rank() < levels[levels.len() - 1].price.rank());
    }
}

/// A matching pass of a ladder at rest against its own rows leaves a ladder
/// at rest.
pub proof fn lemma_matched_alone_wf(cols: ColumnsView)
    requires
        cols.wf(),
    ensures
        matched_alone(cols).wf(),
{
    let p = run_pass(cols.orders, cols.bids, cols.asks, cols.exchange_name, cols.exchange_name);
    lemma_run_pass(cols.orders, cols.bids, cols.asks, cols.exchange_name, cols.exchange_name);
    lemma_without_ids_wf(p.queue, p.removed, cols.exchange_name);
    lemma_history_concat(cols.history, p.completed);
    lemma_swept_wf(p.bids);
    lemma_swept_wf(p.asks);
}

/// A matching pass of a ladder at rest against a peer's ladder at rest leaves
/// both at rest.
pub proof fn lemma_matched_across_wf(local: ColumnsView, peer: ColumnsView)
    requires
        local.wf(),
        peer.wf(),
    ensures
        matched_local(local, peer).wf(),
        matched_peer(local, peer).wf(),
{
    let p = run_pass(local.orders, peer.bids, peer.asks, peer.exchange_name, local.exchange_name);
    lemma_run_pass(local.orders, peer.bids, peer.asks, peer.exchange_name, local.exchange_name);
    lemma_without_ids_wf(p.queue, p.removed, local.exchange_name);
    lemma_history_concat(local.history, p.completed);
    lemma_swept_wf(p.bids);
    lemma_swept_wf(p.asks);
    lemma_swept_at_rest(local.bids);
    lemma_swept_at_rest(local.asks);
}

/// What holds of every ladder at rest, and so of every ladder of a book after
/// each of its operations: every level that is present holds something, its
/// aggregate is the sum of its contributors, and none of them is spent; every
/// order that a pass has filled from, be it partial in the queue or completed
/// in the history, has taken and still wants, together, what it asked for;
/// and every order of the history is completed, has taken what it asked for,
/// and wants nothing more.
pub proof fn lemma_ladder_at_rest(cols: ColumnsView)
    requires
        cols.wf(),
    ensures
        forall|i: int|
            0 <= i < cols.bids.len() ==> {
                let h = (#[trigger] cols.bids[i]).holding;
                h.total_quantity == total_of(h.orders) && all_positive(h.orders) && h.total_quantity
                    > 0
            },
        forall|i: int|
            0 <= i < cols.asks.len() ==> {
                let h = (#[trigger] cols.asks[i]).holding;
                h.total_quantity == total_of(h.orders) && all_positive(h.orders) && h.total_quantity
                    > 0
            },
        forall|i: int|
            0 <= i < cols.orders.len() && (#[trigger] cols.orders[i]).status != OrderStatus::Pending
                ==> filled_total(cols.orders[i].filled_with) + cols.orders[i].remaining_qty
                == cols.orders[i].quantity,
        forall|i: int|
            0 <= i < cols.orders.len() ==> (#[trigger] cols.orders[i]).status
                != OrderStatus::Completed,
        forall|i: int|
            0 <= i < cols.history.len() ==> (#[trigger] cols.history[i]).status
                == OrderStatus::Completed && filled_total(cols.history[i].filled_with)
                == cols.history[i].quantity && filled_total(cols.history[i].filled_with)
                + cols.history[i].remaining_qty == cols.history[i].quantity,
{
    assert forall|i: int| 0 <= i < cols.bids.len() implies {
        let h = (#[trigger] cols.bids[i]).holding;
        h.total_quantity == total_of(h.orders) && all_positive(h.orders) && h.total_quantity > 0
    } by {
        assert(cols.bids[i].wf());
    }
    assert forall|i: int| 0 <= i < cols.asks.len() implies {
        let h = (#[trigger] cols.asks[i]).holding;
        h.total_quantity == total_of(h.orders) && all_positive(h.orders) && h.total_quantity > 0
    } by {
        assert(cols.asks[i].wf());
    }
    assert forall|i: int| 0 <= i < cols.orders.len() implies (#[trigger] cols.orders[i]).status
        != OrderStatus::Completed && (cols.orders[i].status != OrderStatus::Pending
        ==> filled_total(cols.orders[i].filled_with) + cols.orders[i].remaining_qty
        == cols.orders[i].quantity) by {
        assert(cols.orders[i].wf_active());
    }
    assert forall|i: int| 0 <= i < cols.history.len() implies (#[trigger] cols.history[i]).status
        == OrderStatus::Completed && filled_total(cols.history[i].filled_with)
        == cols.history[i].quantity && filled_total(cols.history[i].filled_with)
        + cols.history[i].remaining_qty == cols.history[i].quantity by {
        assert(cols.history[i].wf_completed());
    }
}

/// A matching pass against the ladder's own rows changes nothing where the
/// side that the queue's orders walk is empty: asks in a ladder without bids,
/// or bids in a ladder without asks. So an order that was just taken leaves
/// the totals of its own side as the insertion made them.
pub proof fn lemma_match_without_liquidity(cols: ColumnsView)
    requires
        cols.wf(),
        (all_on_side(cols.orders, TradeRequest::Ask) && cols.bids.len() == 0) || (all_on_side(
            cols.orders,
            TradeRequest::Bid,
        ) && cols.asks.len() == 0),
    ensures
        matched_alone(cols) == cols,
{
    lemma_pass_without_liquidity(
        cols.orders,
        cols.bids,
        cols.asks,
        cols.exchange_name,
        cols.exchange_name,
    );
    lemma_swept_at_rest(cols.bids);
    lemma_swept_at_rest(cols.asks);
    let after = matched_alone(cols);
    assert(after.history =~= cols.history);
    assert(after.orders =~= cols.orders);
}

/// Taking an order into a ladder whose other side is empty and whose queue
/// stands on the order's side, and then matching, gives what taking the order
/// alone gives.
pub proof fn lemma_insert_then_match(cols: ColumnsView, order: OrderView)
    requires
        cols.wf(),
        accepts(cols, order),
        all_on_side(cols.orders, order.request),
        match order.request {
            TradeRequest::Ask => cols.bids.len() == 0,
            TradeRequest::Bid => cols.asks.len() == 0,
        },
    ensures
        with_order(cols, order).wf(),
        matched_alone(with_order(cols, order)) == with_order(cols, order),
{
    let taken = with_order(cols, order);
    let stored = stored(order);
    match order.request {
        TradeRequest::Ask => lemma_inserted_wf(cols.asks, stored),
        TradeRequest::Bid => lemma_inserted_wf(cols.bids, stored),
    }
    assert(!has_foreign_fill(order.filled_with, cols.exchange_name));
    assert forall|i: int| 0 <= i < taken.orders.len() implies (#[trigger] taken.orders[i]).wf_active()
        && taken.orders[i].is_arbitrage == has_foreign_fill(
        taken.orders[i].filled_with,
        taken.exchange_name,
    ) && taken.orders[i].request == order.request by {
        if i < cols.orders.len() {
            assert(taken.orders[i] == cols.orders[i]);
        }
    }
    lemma_match_without_liquidity(taken);
}

} // verus!
