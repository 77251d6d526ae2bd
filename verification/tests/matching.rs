use std::collections::VecDeque;

use orderbook::exchanges::ExchangeType;
use orderbook::trading::matching::{drop_ids, match_queue, take_from_asks, take_from_bids};
use orderbook::trading::{
    CurrentHoldingPerPrice, Instrument, MatchedOrders, MininalOrder, Order, OrderBook,
    OrderStatus, Price, PriceColumns, PriceRow, Quote, TradeRequest,
};
use orderbook::utils::{
    add_each, get_timestamp_ms, insert_snapshot, match_at_price_level, run_snapshot,
};

fn px(x: f32) -> Price {
    Price::from_bits(x.to_bits()).unwrap()
}

fn value(p: Price) -> f32 {
    f32::from_bits(p.to_bits())
}

fn round(x: f32, decimals: u32) -> f32 {
    let y = 10i32.pow(decimals) as f32;
    (x * y).round() / y
}

fn instrument() -> Instrument {
    Instrument::from_exchange_string("BTC-USD-240427-56000-C", ExchangeType::Okex).unwrap()
}

fn fill(price: f32, quantity: i32, exchange: &str) -> MatchedOrders {
    MatchedOrders::new(px(price), quantity, exchange)
}

fn totals(row: &PriceRow) -> Vec<(f32, i32)> {
    row.levels.iter().map(|l| (value(l.price), l.holding.total_quantity)).collect()
}

fn holding(quantities: &[i32]) -> CurrentHoldingPerPrice {
    let orders: Vec<MininalOrder> = quantities
        .iter()
        .enumerate()
        .map(|(i, q)| MininalOrder::new(i as u128 + 1, *q, px(1.0)))
        .collect();
    CurrentHoldingPerPrice { total_quantity: quantities.iter().sum(), orders }
}

#[test]
fn match_trades_across_exchanges() {
    let mut order_book = OrderBook::new("test");
    let orders = vec![
        Order::new(px(0.72), 30, TradeRequest::Ask),
        Order::new(px(0.73), 20, TradeRequest::Ask),
        Order::new(px(0.90), 50, TradeRequest::Bid),
    ];
    let asset = "BTC-USD-240427-56000-C";
    let instrument = Instrument::from_exchange_string(asset, ExchangeType::Okex).unwrap();

    let mut second_order_book = OrderBook::new("test2");
    order_book.add_asset(instrument.clone());
    second_order_book.add_asset(instrument.clone());
    for order in orders {
        order_book.add_order(order, &instrument);
    }

    order_book.match_orders(&instrument, Some(&mut second_order_book));
    // both asks are completed with  higher bid of 90,

    let second_orders = [
        Order::new(px(0.50), 10, TradeRequest::Ask),
        Order::new(px(0.73), 20, TradeRequest::Bid),
        Order::new(px(0.90), 50, TradeRequest::Bid),
    ];

    for order in second_orders {
        second_order_book.add_order(order, &instrument);
    }
    second_order_book.match_orders(&instrument, Some(&mut order_book));

    let cols = second_order_book.columns(&instrument).unwrap();

    // matches are all in here;
    assert_eq!(cols.history.len(), 2);
    assert!(cols.history.iter().all(|o| o.is_completed()));
    // there is should be atleast one partially matched order bin the first_order_book
    let cols = order_book.columns(&instrument).unwrap();

    let _ = cols.history.iter().any(|order| order.is_partial_completed());
}

#[test]
fn two_asks_and_one_larger_bid_in_one_book() {
    let i = instrument();
    let mut book = OrderBook::new("test");
    book.add_asset(i.clone());
    assert!(book.add_order(Order::with_id(1, px(0.72), 30, TradeRequest::Ask), &i));
    assert!(book.add_order(Order::with_id(2, px(0.73), 20, TradeRequest::Ask), &i));
    assert!(book.add_order(Order::with_id(3, px(0.90), 50, TradeRequest::Bid), &i));
    book.match_orders(&i, None);

    let cols = book.columns(&i).unwrap();
    // both asks are completed, each by one fill at the bid's price
    assert_eq!(cols.history[0].id, 1);
    assert_eq!(cols.history[0].status, OrderStatus::Completed);
    assert_eq!(cols.history[0].filled_with, vec![fill(0.90, 30, "test")]);
    assert_eq!(cols.history[1].id, 2);
    assert_eq!(cols.history[1].status, OrderStatus::Completed);
    assert_eq!(cols.history[1].filled_with, vec![fill(0.90, 20, "test")]);
    // the bid walks the asks of its own book and takes its 50 there
    assert_eq!(cols.history[2].id, 3);
    assert_eq!(cols.history[2].status, OrderStatus::Completed);
    assert_eq!(
        cols.history[2].filled_with,
        vec![fill(0.72, 30, "test"), fill(0.73, 20, "test")]
    );
    assert_eq!(cols.history.len(), 3);
    assert!(cols.history.iter().all(|o| !o.is_arbitrage));
    assert!(cols.orders.is_empty());
    assert!(cols.bids.is_empty());
    assert!(cols.asks.is_empty());
    // the quote was taken before the emptied levels were dropped
    assert_eq!(cols.quote, Some(Quote { ask: px(0.72), bid: px(0.90) }));
}

#[test]
fn cross_exchange_arbitrage() {
    let i = instrument();
    let mut a = OrderBook::new("test");
    let mut b = OrderBook::new("test2");
    a.add_asset(i.clone());
    b.add_asset(i.clone());
    a.add_order(Order::with_id(1, px(0.72), 30, TradeRequest::Ask), &i);
    a.add_order(Order::with_id(2, px(0.73), 20, TradeRequest::Ask), &i);
    a.add_order(Order::with_id(3, px(0.90), 50, TradeRequest::Bid), &i);

    let before = a.clone();
    a.match_orders(&i, Some(&mut b));
    // no liquidity on the peer: nothing changes
    assert_eq!(a, before);
    assert_eq!(b.columns(&i).unwrap(), &PriceColumns::new("test2"));

    b.add_order(Order::with_id(11, px(0.50), 10, TradeRequest::Ask), &i);
    b.add_order(Order::with_id(12, px(0.73), 20, TradeRequest::Bid), &i);
    b.add_order(Order::with_id(13, px(0.90), 50, TradeRequest::Bid), &i);
    let b_before = b.clone();
    b.match_orders(&i, Some(&mut a));

    let cols = b.columns(&i).unwrap();
    assert_eq!(cols.history.len(), 2);
    assert!(cols.history.iter().all(|o| o.is_completed()));
    assert_eq!(cols.history[0].id, 11);
    assert_eq!(cols.history[0].filled_with, vec![fill(0.90, 10, "test")]);
    assert_eq!(cols.history[1].id, 12);
    assert_eq!(cols.history[1].filled_with, vec![fill(0.72, 20, "test")]);
    assert!(cols.history.iter().all(|o| o.is_arbitrage));
    // the larger bid takes what the peer's asks have left
    assert_eq!(cols.orders.len(), 1);
    let partial = &cols.orders[0];
    assert_eq!(partial.id, 13);
    assert_eq!(partial.status, OrderStatus::Partial);
    assert_eq!(partial.remaining_qty, 20);
    assert_eq!(partial.filled_with, vec![fill(0.72, 10, "test"), fill(0.73, 20, "test")]);
    assert!(partial.is_arbitrage);
    // the local rows are as they were
    assert_eq!(cols.bids, b_before.columns(&i).unwrap().bids);
    assert_eq!(cols.asks, b_before.columns(&i).unwrap().asks);

    // the peer's rows have given; its queue and history are as they were
    let peer = a.columns(&i).unwrap();
    assert!(peer.asks.is_empty());
    assert_eq!(totals(&peer.bids), vec![(0.90, 40)]);
    assert_eq!(peer.orders, before.columns(&i).unwrap().orders);
    assert!(peer.history.is_empty());
    assert!(peer.orders.iter().all(|o| o.status == OrderStatus::Pending));
}

#[test]
fn ids_of_consumed_contributors_leave_the_local_queue() {
    let i = instrument();
    let mut a = OrderBook::new("a");
    let mut b = OrderBook::new("b");
    a.add_asset(i.clone());
    b.add_asset(i.clone());
    // the peer's ask carries the id of a local order that no level consumes
    a.add_order(Order::with_id(7, px(1.0), 5, TradeRequest::Ask), &i);
    b.add_order(Order::with_id(1, px(2.0), 5, TradeRequest::Bid), &i);
    b.add_order(Order::with_id(7, px(0.5), 9, TradeRequest::Bid), &i);
    b.add_order(Order::with_id(7, px(0.4), 9, TradeRequest::Bid), &i);
    b.match_orders(&i, Some(&mut a));
    let cols = b.columns(&i).unwrap();
    assert_eq!(cols.history.len(), 1);
    // only the first order with the id leaves
    assert_eq!(cols.orders.len(), 1);
    assert_eq!(cols.orders[0].price, px(0.4));
    assert_eq!(cols.orders[0].status, OrderStatus::Pending);
}

#[test]
fn drop_ids_takes_the_first_match_of_each_id() {
    let mut queue = VecDeque::from(vec![
        Order::with_id(1, px(1.0), 1, TradeRequest::Ask),
        Order::with_id(2, px(2.0), 1, TradeRequest::Ask),
        Order::with_id(1, px(3.0), 1, TradeRequest::Ask),
        Order::with_id(3, px(4.0), 1, TradeRequest::Ask),
    ]);
    drop_ids(&mut queue, &vec![1, 9, 3, 1, 1]);
    assert_eq!(queue.len(), 1);
    assert_eq!(queue[0].id, 2);
}

#[test]
fn equal_prices_give_one_fill_at_that_price() {
    let i = instrument();
    let mut local = OrderBook::new("here");
    let mut peer = OrderBook::new("there");
    local.add_asset(i.clone());
    peer.add_asset(i.clone());
    peer.add_order(Order::with_id(1, px(0.75), 40, TradeRequest::Bid), &i);
    peer.add_order(Order::with_id(2, px(0.70), 40, TradeRequest::Bid), &i);
    local.add_order(Order::with_id(3, px(0.75), 25, TradeRequest::Ask), &i);
    local.match_orders(&i, Some(&mut peer));
    let cols = local.columns(&i).unwrap();
    assert_eq!(cols.history.len(), 1);
    assert_eq!(cols.history[0].filled_with, vec![fill(0.75, 25, "there")]);
    assert!(cols.history[0].is_arbitrage);
    assert_eq!(totals(&peer.columns(&i).unwrap().bids), vec![(0.70, 40), (0.75, 15)]);
}

#[test]
fn a_bid_below_the_best_ask_takes_nothing() {
    let mut asks = PriceRow::new();
    asks.insert(MininalOrder::new(1, 10, px(1.0)));
    let mut remaining = 5;
    let mut fills = VecDeque::new();
    let mut removed = Vec::new();
    take_from_asks(&mut asks, &px(0.99), &mut remaining, "x", &mut fills, &mut removed);
    assert_eq!(remaining, 5);
    assert!(fills.is_empty());
    assert!(removed.is_empty());
    assert_eq!(totals(&asks), vec![(1.0, 10)]);
}

#[test]
fn walks_go_from_the_best_price_on() {
    let mut bids = PriceRow::new();
    for (id, q, p) in [(1, 10, 1.0), (2, 10, 3.0), (3, 10, 2.0), (4, 10, 0.5)] {
        assert!(bids.insert(MininalOrder::new(id, q, px(p))));
    }
    let mut remaining = 25;
    let mut fills = VecDeque::new();
    let mut removed = vec![99];
    take_from_bids(&mut bids, &px(1.0), &mut remaining, "v", &mut fills, &mut removed);
    assert_eq!(remaining, 0);
    assert_eq!(fills, vec![fill(3.0, 10, "v"), fill(2.0, 10, "v"), fill(1.0, 5, "v")]);
    assert_eq!(removed, vec![99, 2, 3]);
    assert_eq!(totals(&bids), vec![(0.5, 10), (1.0, 5), (2.0, 0), (3.0, 0)]);
    bids.sweep();
    assert_eq!(totals(&bids), vec![(0.5, 10), (1.0, 5)]);

    let mut asks = PriceRow::new();
    for (id, q, p) in [(1, 10, 1.0), (2, 10, 3.0), (3, 10, 2.0)] {
        assert!(asks.insert(MininalOrder::new(id, q, px(p))));
    }
    let mut remaining = 100;
    let mut fills = VecDeque::new();
    let mut removed = Vec::new();
    take_from_asks(&mut asks, &px(2.0), &mut remaining, "v", &mut fills, &mut removed);
    assert_eq!(remaining, 80);
    assert_eq!(fills, vec![fill(1.0, 10, "v"), fill(2.0, 10, "v")]);
    assert_eq!(removed, vec![1, 3]);
    assert_eq!(totals(&asks), vec![(1.0, 0), (2.0, 0), (3.0, 10)]);
}

#[test]
fn a_level_gives_oldest_first() {
    let mut h = holding(&[5, 7, 9]);
    let mut incoming = 8;
    let (done, removed) = match_at_price_level(&mut h, &mut incoming);
    assert_eq!(done, 8);
    assert_eq!(incoming, 0);
    assert_eq!(removed, vec![1]);
    assert_eq!(h.total_quantity, 13);
    assert_eq!(h.orders.iter().map(|o| (o.id, o.qty)).collect::<Vec<_>>(), vec![(2, 4), (3, 9)]);
}

#[test]
fn a_contributor_equal_to_what_is_wanted_is_drained_exactly() {
    let mut h = holding(&[5, 7, 9]);
    let mut incoming = 12;
    let (done, removed) = match_at_price_level(&mut h, &mut incoming);
    assert_eq!(done, 12);
    assert_eq!(incoming, 0);
    assert_eq!(removed, vec![1, 2]);
    assert_eq!(h.total_quantity, 9);
    assert_eq!(h.orders, vec![MininalOrder::new(3, 9, px(1.0))]);
}

#[test]
fn a_level_gives_no_more_than_it_has() {
    let mut h = holding(&[5, 7]);
    let mut incoming = 20;
    let (done, removed) = match_at_price_level(&mut h, &mut incoming);
    assert_eq!(done, 12);
    assert_eq!(incoming, 8);
    assert_eq!(removed, vec![1, 2]);
    assert_eq!(h.total_quantity, 0);
    assert!(h.orders.is_empty());

    let mut h = holding(&[5, 7]);
    let mut incoming = 0;
    let (done, removed) = match_at_price_level(&mut h, &mut incoming);
    assert_eq!((done, incoming), (0, 0));
    assert!(removed.is_empty());
    assert_eq!(h, holding(&[5, 7]));

    let mut h = holding(&[]);
    let mut incoming = 3;
    let (done, removed) = match_at_price_level(&mut h, &mut incoming);
    assert_eq!((done, incoming), (0, 3));
    assert!(removed.is_empty());
}

#[test]
fn update_qty_recomputes_the_aggregate() {
    let mut h = holding(&[5, 7, 9]);
    h.total_quantity = 0;
    h.update_qty_and_amount();
    assert_eq!(h.total_quantity, 21);
    let mut h = CurrentHoldingPerPrice {
        total_quantity: 3,
        orders: vec![MininalOrder::new(1, -4, px(1.0)), MininalOrder::new(2, 1, px(1.0))],
    };
    h.update_qty_and_amount();
    assert_eq!(h.total_quantity, -3);
}

#[test]
fn every_level_adds_up_after_each_operation() {
    let i = instrument();
    let mut book = OrderBook::new("test");
    book.add_asset(i.clone());
    let mut id = 0;
    for (p, q, r) in [
        (1.0, 5, TradeRequest::Ask),
        (1.0, 7, TradeRequest::Ask),
        (2.0, 3, TradeRequest::Ask),
        (1.5, 6, TradeRequest::Bid),
        (0.5, 9, TradeRequest::Bid),
        (1.0, 4, TradeRequest::Bid),
    ] {
        id += 1;
        assert!(book.add_order(Order::with_id(id, px(p), q, r), &i));
        check_at_rest(book.columns(&i).unwrap());
    }
    book.match_orders(&i, None);
    check_at_rest(book.columns(&i).unwrap());
    book.match_orders(&i, None);
    check_at_rest(book.columns(&i).unwrap());
}

fn check_at_rest(cols: &PriceColumns) {
    for row in [&cols.bids, &cols.asks] {
        for pair in row.levels.windows(2) {
            assert!(pair[0].price.lt(&pair[1].price));
        }
        for level in &row.levels {
            let sum: i32 = level.holding.orders.iter().map(|o| o.qty).sum();
            assert_eq!(level.holding.total_quantity, sum);
            assert!(level.holding.orders.iter().all(|o| o.qty > 0));
            assert!(level.holding.total_quantity > 0);
        }
    }
    for o in &cols.orders {
        assert!(!o.is_completed());
        let filled: i32 = o.filled_with.iter().map(|f| f.quantity).sum();
        if o.is_partial_completed() {
            assert_eq!(filled + o.remaining_qty, o.quantity);
        } else {
            assert_eq!(filled, 0);
        }
    }
    for o in &cols.history {
        assert!(o.is_completed());
        let filled: i32 = o.filled_with.iter().map(|f| f.quantity).sum();
        assert_eq!(filled, o.quantity);
        assert_eq!(filled + o.remaining_qty, o.quantity);
    }
}

#[test]
fn a_partial_order_goes_on_where_it_stopped() {
    let i = instrument();
    let mut book = OrderBook::new("test");
    book.add_asset(i.clone());
    book.add_order(Order::with_id(1, px(1.0), 10, TradeRequest::Bid), &i);
    book.add_order(Order::with_id(2, px(1.0), 4, TradeRequest::Ask), &i);
    book.match_orders(&i, None);
    {
        let cols = book.columns(&i).unwrap();
        // the bid took the ask's 4, the ask took 4 of the bid's 10
        assert_eq!(cols.history.len(), 1);
        assert_eq!(cols.history[0].id, 2);
        assert_eq!(cols.orders.len(), 1);
        assert_eq!(cols.orders[0].status, OrderStatus::Partial);
        assert_eq!(cols.orders[0].remaining_qty, 6);
        assert_eq!(totals(&cols.bids), vec![(1.0, 6)]);
        assert!(cols.asks.is_empty());
    }
    book.add_order(Order::with_id(3, px(0.9), 6, TradeRequest::Ask), &i);
    book.match_orders(&i, None);
    let cols = book.columns(&i).unwrap();
    assert_eq!(cols.history.len(), 3);
    let bid = cols.history.iter().find(|o| o.id == 1).unwrap();
    assert_eq!(bid.filled_with, vec![fill(1.0, 4, "test"), fill(0.9, 6, "test")]);
    // a completed order wants nothing more
    assert_eq!(bid.remaining_qty, 0);
    assert_eq!(bid.status, OrderStatus::Completed);
    assert!(cols.orders.is_empty());
}

#[test]
fn matching_without_liquidity_changes_nothing() {
    let i = instrument();
    let mut book = OrderBook::new("test");
    book.add_asset(i.clone());
    book.add_order(Order::with_id(1, px(1.0), 5, TradeRequest::Ask), &i);
    book.add_order(Order::with_id(2, px(1.0), 7, TradeRequest::Ask), &i);
    book.add_order(Order::with_id(3, px(2.0), 3, TradeRequest::Ask), &i);
    let before = book.clone();
    book.match_orders(&i, None);
    assert_eq!(book, before);
    assert_eq!(totals(&book.columns(&i).unwrap().asks), vec![(1.0, 12), (2.0, 3)]);

    let mut bids_only = OrderBook::new("test");
    bids_only.add_asset(i.clone());
    bids_only.add_order(Order::with_id(1, px(1.0), 5, TradeRequest::Bid), &i);
    let before = bids_only.clone();
    bids_only.match_orders(&i, None);
    assert_eq!(bids_only, before);
}

#[test]
fn unknown_instruments_are_no_ops() {
    let i = instrument();
    let other = i.to_singular_asset();
    let mut book = OrderBook::new("test");
    let mut peer = OrderBook::new("peer");
    book.add_asset(i.clone());
    assert!(!book.add_order(Order::with_id(1, px(1.0), 5, TradeRequest::Ask), &other));
    assert!(book.add_order(Order::with_id(1, px(1.0), 5, TradeRequest::Ask), &i));
    let before = book.clone();
    book.match_orders(&other, None);
    assert_eq!(book, before);
    // the peer does not know the instrument
    peer.add_asset(other.clone());
    peer.add_order(Order::with_id(2, px(2.0), 5, TradeRequest::Bid), &other);
    let peer_before = peer.clone();
    book.match_orders(&i, Some(&mut peer));
    assert_eq!(book, before);
    assert_eq!(peer, peer_before);
    assert!(book.columns(&other).is_none());
    assert_eq!(book.get_name(), "test");
    book.show();
}

#[test]
fn add_asset_is_idempotent() {
    let i = instrument();
    let mut book = OrderBook::new("test");
    book.add_asset(i.clone());
    book.add_order(Order::with_id(1, px(1.0), 5, TradeRequest::Ask), &i);
    let before = book.clone();
    book.add_asset(i.clone());
    assert_eq!(book, before);
    assert_eq!(book.asset_order_table.len(), 1);
    assert_eq!(book.columns(&i).unwrap().exchange_name, "test");
    book.add_asset(i.to_singular_asset());
    assert_eq!(book.asset_order_table.len(), 2);
}

#[test]
fn orders_that_a_ladder_does_not_admit_change_nothing() {
    let i = instrument();
    let mut book = OrderBook::new("test");
    book.add_asset(i.clone());
    let before = book.clone();
    assert!(!book.add_order(Order::with_id(1, px(1.0), 0, TradeRequest::Ask), &i));
    assert!(!book.add_order(Order::with_id(1, px(1.0), -5, TradeRequest::Ask), &i));
    let nan = Price { bits: f32::NAN.to_bits() };
    assert!(!book.add_order(Order::with_id(1, nan, 5, TradeRequest::Ask), &i));
    let mut used = Order::with_id(1, px(1.0), 5, TradeRequest::Ask);
    used.status = OrderStatus::Partial;
    assert!(!book.add_order(used, &i));
    let mut filled = Order::with_id(1, px(1.0), 5, TradeRequest::Ask);
    filled.filled_with.push_back(fill(1.0, 1, "x"));
    assert!(!book.add_order(filled, &i));
    assert_eq!(book, before);
    // a level has room up to the largest quantity
    assert!(book.add_order(Order::with_id(1, px(1.0), i32::MAX - 1, TradeRequest::Ask), &i));
    assert!(!book.add_order(Order::with_id(2, px(1.0), 2, TradeRequest::Ask), &i));
    assert!(book.add_order(Order::with_id(3, px(1.0), 1, TradeRequest::Ask), &i));
    assert!(book.add_order(Order::with_id(4, px(1.5), 2, TradeRequest::Ask), &i));
    assert_eq!(totals(&book.columns(&i).unwrap().asks), vec![(1.0, i32::MAX), (1.5, 2)]);
}

#[test]
fn add_each_joins_a_level_or_opens_one() {
    let mut cols = PriceColumns::new("v");
    assert!(add_each(&mut cols, &Order::with_id(1, px(2.0), 5, TradeRequest::Ask)));
    assert!(add_each(&mut cols, &Order::with_id(2, px(1.0), 6, TradeRequest::Ask)));
    assert!(add_each(&mut cols, &Order::with_id(3, px(2.0), 7, TradeRequest::Ask)));
    assert!(add_each(&mut cols, &Order::with_id(4, px(2.0), 8, TradeRequest::Bid)));
    assert!(!add_each(&mut cols, &Order::with_id(5, px(2.0), 0, TradeRequest::Bid)));
    assert_eq!(totals(&cols.asks), vec![(1.0, 6), (2.0, 12)]);
    assert_eq!(totals(&cols.bids), vec![(2.0, 8)]);
    assert_eq!(
        cols.asks.levels[1].holding.orders,
        vec![MininalOrder::new(1, 5, px(2.0)), MininalOrder::new(3, 7, px(2.0))]
    );
    // add_each leaves queue and quote alone
    assert!(cols.orders.is_empty());
    assert_eq!(cols.quote, None);
}

#[test]
fn spread_and_midprice_come_from_the_quote() {
    let i = instrument();
    let mut book = OrderBook::new("test");
    book.add_asset(i.clone());
    book.add_order(Order::with_id(1, px(100.0), 5, TradeRequest::Bid), &i);
    assert_eq!(book.columns(&i).unwrap().quote, None);
    book.add_order(Order::with_id(2, px(99.0), 5, TradeRequest::Bid), &i);
    book.add_order(Order::with_id(3, px(100.5), 5, TradeRequest::Ask), &i);
    book.add_order(Order::with_id(4, px(101.0), 5, TradeRequest::Ask), &i);
    let quote = book.columns(&i).unwrap().quote.unwrap();
    assert_eq!(quote, Quote { ask: px(100.5), bid: px(100.0) });
    let spread = round(value(quote.ask) - value(quote.bid), 5);
    let midprice = round((value(quote.ask) + value(quote.bid)) / 2.0, 5);
    assert_eq!(spread, 0.5);
    assert_eq!(midprice, 100.25);
}

#[test]
fn the_quote_stays_when_a_side_is_empty() {
    let mut cols = PriceColumns::new("v");
    cols.update_spread_and_mid_price();
    assert_eq!(cols.quote, None);
    add_each(&mut cols, &Order::with_id(1, px(2.0), 5, TradeRequest::Ask));
    add_each(&mut cols, &Order::with_id(2, px(1.0), 5, TradeRequest::Bid));
    cols.update_spread_and_mid_price();
    assert_eq!(cols.quote, Some(Quote { ask: px(2.0), bid: px(1.0) }));
    cols.bids = PriceRow::new();
    add_each(&mut cols, &Order::with_id(3, px(1.5), 5, TradeRequest::Ask));
    cols.update_spread_and_mid_price();
    assert_eq!(cols.quote, Some(Quote { ask: px(2.0), bid: px(1.0) }));
}

#[test]
fn extend_lets_the_other_ladder_win() {
    let mut mine = PriceColumns::new("mine");
    add_each(&mut mine, &Order::with_id(1, px(1.0), 5, TradeRequest::Ask));
    add_each(&mut mine, &Order::with_id(2, px(3.0), 5, TradeRequest::Ask));
    add_each(&mut mine, &Order::with_id(3, px(0.5), 5, TradeRequest::Bid));
    let mut other = PriceColumns::new("other");
    add_each(&mut other, &Order::with_id(4, px(1.0), 9, TradeRequest::Ask));
    add_each(&mut other, &Order::with_id(5, px(2.0), 9, TradeRequest::Ask));
    add_each(&mut other, &Order::with_id(6, px(0.7), 9, TradeRequest::Bid));
    mine.extend(&other);
    assert_eq!(totals(&mine.asks), vec![(1.0, 9), (2.0, 9), (3.0, 5)]);
    assert_eq!(totals(&mine.bids), vec![(0.5, 5), (0.7, 9)]);
    assert_eq!(mine.asks.levels[0].holding.orders, vec![MininalOrder::new(4, 9, px(1.0))]);
    assert_eq!(mine.quote, Some(Quote { ask: px(1.0), bid: px(0.7) }));
    assert_eq!(mine.exchange_name, "mine");
}

#[test]
fn prices_are_ordered_as_their_values() {
    let values = [
        f32::NEG_INFINITY, -1.0e30, -2.5, -1.0, -f32::MIN_POSITIVE, -0.0, 0.0, 1.0e-40, 0.72,
        0.73, 0.9, 1.0, 100.5, f32::MAX, f32::INFINITY,
    ];
    for a in values {
        for b in values {
            assert_eq!(px(a).lt(&px(b)), a < b, "{} < {}", a, b);
            assert_eq!(px(a).le(&px(b)), a <= b, "{} <= {}", a, b);
            assert_eq!(px(a).same_level(&px(b)), a == b, "{} == {}", a, b);
        }
    }
    assert_eq!(px(-0.0).key(), 0);
    assert_eq!(px(0.0).key(), 0);
    assert_eq!(px(1.0).key(), 0x3f80_0000);
    assert_eq!(px(-1.0).key(), -0x3f80_0000);
    assert_eq!(Price::from_bits(f32::NAN.to_bits()), None);
    assert_eq!(Price::from_bits(0x7f80_0001), None);
    assert_eq!(Price::from_bits(0xffc0_0000), None);
    assert!(Price::from_bits(0x7f80_0000).is_some());
    assert!(Price::from_bits(0xff80_0000).is_some());
    assert!(px(1.0).is_number());
    assert!(!Price { bits: 0x7fc0_0000 }.is_number());
    assert_eq!(px(0.72).to_bits(), 0.72f32.to_bits());
}

#[test]
fn both_zeros_share_a_level() {
    let mut row = PriceRow::new();
    assert!(row.insert(MininalOrder::new(1, 5, px(0.0))));
    assert!(row.insert(MininalOrder::new(2, 6, px(-0.0))));
    assert_eq!(row.len(), 1);
    assert_eq!(row.levels[0].holding.total_quantity, 11);
    assert_eq!(row.first_key(), Some(px(0.0)));
    assert_eq!(row.last_key(), Some(px(0.0)));
    assert_eq!(row.position(&px(-1.0)), 0);
    assert_eq!(row.position(&px(0.0)), 0);
    assert_eq!(row.position(&px(1.0)), 1);
    assert_eq!(PriceRow::new().first_key(), None);
    assert_eq!(PriceRow::new().last_key(), None);
    assert!(PriceRow::new().is_empty());
}

#[test]
fn orders_start_fresh() {
    let before = get_timestamp_ms();
    let o = Order::new(px(0.72), 30, TradeRequest::Ask);
    let after = get_timestamp_ms();
    assert!(before <= o.id && o.id <= after);
    assert!(before > 1_600_000_000_000);
    assert_eq!(o.status, OrderStatus::Pending);
    assert_eq!(o.price, px(0.72));
    assert_eq!(o.quantity, 30);
    assert_eq!(o.request, TradeRequest::Ask);
    assert_eq!(o.remaining_qty, 0);
    assert!(!o.is_arbitrage);
    assert!(o.filled_with.is_empty());
    assert!(!o.is_completed());
    assert!(!o.is_partial_completed());
    assert_eq!(Order::with_id(5, px(1.0), 2, TradeRequest::Bid).id, 5);
    assert!(TradeRequest::Ask.is_ask());
    assert!(!TradeRequest::Bid.is_ask());
    assert_eq!(TradeRequest::default(), TradeRequest::Ask);
    assert_eq!(OrderStatus::default(), OrderStatus::Pending);
    assert!(OrderStatus::Completed.is_completed());
    assert!(!OrderStatus::Partial.is_completed());
    assert!(OrderStatus::Partial.is_partial());
    assert!(!OrderStatus::Pending.is_partial());
    assert!(OrderStatus::Pending.is_pending());
}

#[test]
fn match_queue_moves_completed_orders_to_the_history() {
    let mut bids = PriceRow::new();
    let mut asks = PriceRow::new();
    asks.insert(MininalOrder::new(50, 10, px(1.0)));
    let queue = VecDeque::from(vec![
        Order::with_id(1, px(1.0), 4, TradeRequest::Bid),
        Order::with_id(2, px(0.5), 4, TradeRequest::Bid),
        Order::with_id(3, px(1.0), 9, TradeRequest::Bid),
    ]);
    let mut history = VecDeque::new();
    let (kept, removed) = match_queue(
        queue,
        &mut bids,
        &mut asks,
        &mut history,
        &"peer".to_owned(),
        &"home".to_owned(),
    );
    assert_eq!(history.len(), 1);
    assert_eq!(history[0].id, 1);
    assert!(history[0].is_arbitrage);
    assert_eq!(kept.len(), 2);
    assert_eq!(kept[0].status, OrderStatus::Pending);
    assert!(!kept[0].is_arbitrage);
    assert_eq!(kept[1].status, OrderStatus::Partial);
    assert_eq!(kept[1].remaining_qty, 3);
    assert_eq!(kept[1].filled_with, vec![fill(1.0, 6, "peer")]);
    assert_eq!(removed, vec![50]);
    assert_eq!(totals(&asks), vec![(1.0, 0)]);
}

#[test]
fn a_snapshot_goes_in_asks_first() {
    let i = instrument();
    let mut book = OrderBook::new("test");
    let asks = vec![(px(2.0), 5), (px(3.0), 0), (px(2.0), 7)];
    let bids = vec![(px(1.0), 4)];
    let ids = insert_snapshot(&mut book, &asks, &bids, &i);
    assert_eq!(ids.len(), 4);
    let cols = book.columns(&i).unwrap();
    assert_eq!(totals(&cols.asks), vec![(2.0, 12)]);
    assert_eq!(totals(&cols.bids), vec![(1.0, 4)]);
    assert_eq!(cols.orders.len(), 3);
    assert_eq!(
        cols.orders.iter().map(|o| (o.id, o.quantity, o.request)).collect::<Vec<_>>(),
        vec![
            (ids[0], 5, TradeRequest::Ask),
            (ids[2], 7, TradeRequest::Ask),
            (ids[3], 4, TradeRequest::Bid)
        ]
    );
    assert_eq!(cols.quote, Some(Quote { ask: px(2.0), bid: px(1.0) }));

    let mut crossing = OrderBook::new("test");
    let ids = run_snapshot(&mut crossing, &vec![(px(1.0), 5)], &vec![(px(1.0), 5)], &i);
    assert_eq!(ids.len(), 2);
    let cols = crossing.columns(&i).unwrap();
    assert_eq!(cols.history.len(), 2);
    assert!(cols.orders.is_empty());
    assert!(cols.asks.is_empty() && cols.bids.is_empty());
}

#[test]
fn books_in_order_are_told_from_others() {
    let i = instrument();
    let mut book = OrderBook::new("test");
    assert!(book.is_wf());
    book.add_asset(i.clone());
    book.add_order(Order::with_id(1, px(1.0), 10, TradeRequest::Bid), &i);
    book.add_order(Order::with_id(2, px(1.0), 4, TradeRequest::Ask), &i);
    book.add_order(Order::with_id(3, px(2.0), 4, TradeRequest::Ask), &i);
    assert!(book.is_wf());
    book.match_orders(&i, None);
    assert!(book.is_wf());
    assert!(book.columns(&i).unwrap().is_wf());

    let broken = |change: &dyn Fn(&mut OrderBook)| {
        let mut copy = book.clone();
        change(&mut copy);
        !copy.is_wf()
    };
    // an aggregate that is not the sum
    assert!(broken(&|b| b.asset_order_table[0].columns.bids.levels[0].holding.total_quantity += 1));
    // a spent contributor
    assert!(broken(&|b| {
        let h = &mut b.asset_order_table[0].columns.asks.levels[0].holding;
        h.orders.push(MininalOrder::new(9, 0, px(2.0)));
    }));
    // a contributor at another price
    assert!(broken(&|b| {
        let h = &mut b.asset_order_table[0].columns.asks.levels[0].holding;
        h.orders[0].price = px(3.0);
    }));
    // a level out of place
    assert!(broken(&|b| {
        let row = &mut b.asset_order_table[0].columns.asks;
        let level = row.levels[0].clone();
        row.levels.push(level);
    }));
    // an emptied level
    assert!(broken(&|b| {
        let h = &mut b.asset_order_table[0].columns.asks.levels[0].holding;
        h.orders.clear();
        h.total_quantity = 0;
    }));
    // a price that is no number
    assert!(broken(&|b| b.asset_order_table[0].columns.asks.levels[0].price = Price { bits: 0x7fc0_0000 }));
    // a partial order whose fills do not add up
    assert!(broken(&|b| b.asset_order_table[0].columns.orders[0].remaining_qty += 1));
    // a wrong arbitrage flag
    assert!(broken(&|b| b.asset_order_table[0].columns.orders[0].is_arbitrage = true));
    // a completed order in the queue
    assert!(broken(&|b| b.asset_order_table[0].columns.orders[0].status = OrderStatus::Completed));
    // an order of the history that is not filled
    assert!(broken(&|b| b.asset_order_table[0].columns.history[0].quantity += 1));
    assert!(broken(&|b| b.asset_order_table[0].columns.history[0].status = OrderStatus::Partial));
    // a ladder under another venue's name
    assert!(broken(&|b| b.asset_order_table[0].columns.exchange_name = "x".to_owned()));
    // an instrument with two entries
    assert!(broken(&|b| {
        let entry = b.asset_order_table[0].clone();
        b.asset_order_table.push(entry);
    }));

    let partial = &book.columns(&i).unwrap().orders[0];
    assert!(partial.is_active_at(&"test".to_owned()));
    assert!(!partial.is_settled());
    let summary = partial.summarize_fills(&"elsewhere".to_owned());
    assert!(summary.positive && summary.foreign);
    assert_eq!(summary.total, 4);
    assert!(book.columns(&i).unwrap().history[0].is_settled());
    assert!(holding(&[1, 2]).is_wf());
    assert!(!holding(&[1, -2]).is_wf());
}

#[test]
fn an_order_completed_by_a_later_pass_wants_nothing_more() {
    let i = instrument();
    let mut local = OrderBook::new("here");
    let mut peer = OrderBook::new("there");
    local.add_asset(i.clone());
    peer.add_asset(i.clone());
    local.add_order(Order::with_id(1, px(1.0), 10, TradeRequest::Ask), &i);
    peer.add_order(Order::with_id(2, px(1.5), 4, TradeRequest::Bid), &i);
    local.match_orders(&i, Some(&mut peer));
    {
        let cols = local.columns(&i).unwrap();
        assert_eq!(cols.orders.len(), 1);
        assert_eq!(cols.orders[0].status, OrderStatus::Partial);
        assert_eq!(cols.orders[0].remaining_qty, 6);
        assert_eq!(cols.orders[0].filled_with, vec![fill(1.5, 4, "there")]);
        assert!(cols.history.is_empty());
    }
    peer.add_order(Order::with_id(3, px(1.0), 9, TradeRequest::Bid), &i);
    local.match_orders(&i, Some(&mut peer));
    let cols = local.columns(&i).unwrap();
    assert!(cols.orders.is_empty());
    assert_eq!(cols.history.len(), 1);
    let done = &cols.history[0];
    assert_eq!(done.status, OrderStatus::Completed);
    assert_eq!(done.remaining_qty, 0);
    assert_eq!(done.quantity, 10);
    assert_eq!(done.filled_with, vec![fill(1.5, 4, "there"), fill(1.0, 6, "there")]);
    let filled: i32 = done.filled_with.iter().map(|f| f.quantity).sum();
    assert_eq!(filled + done.remaining_qty, done.quantity);
    assert!(done.is_settled());
    assert!(local.is_wf() && peer.is_wf());
    // an order of the history that still wants something is out of order
    let mut broken = local.clone();
    broken.asset_order_table[0].columns.history[0].remaining_qty = 6;
    assert!(!broken.is_wf());
    assert_eq!(totals(&peer.columns(&i).unwrap().bids), vec![(1.0, 3)]);
}
