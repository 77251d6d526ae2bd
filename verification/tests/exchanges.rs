use orderbook::error::UnknownExchange;
use orderbook::exchanges::deribit::{channel_name, copy_levels};
use orderbook::exchanges::okex::pair_rows;
use orderbook::exchanges::{
    same_str, DeribitInitMessage, DeribitInitMessageParams, DeribitResponse,
    DeribitResponseData, ExchangeRegistry, Exchanges, MessageExtendable, OkexInitMessage,
    OkexInitMessageArg, OkexResponse, OkexResponseData, ResponseParams, Returnable,
};
use orderbook::trading::{InstrumentType, Price};

fn px(x: f32) -> Price {
    Price::from_bits(x.to_bits()).unwrap()
}

fn row(texts: &[&str]) -> Vec<String> {
    texts.iter().map(|t| (*t).to_owned()).collect()
}

#[test]
fn the_registry_knows_two_venues() {
    let registry = ExchangeRegistry::new();
    assert_eq!(registry.venues.len(), 2);
    assert_eq!(registry.venues[0].get_name(), "deribit");
    assert_eq!(registry.venues[0].get_url(), "wss://www.deribit.com/ws/api/v2");
    assert_eq!(registry.venues[1].get_name(), "okex");
    assert_eq!(registry.venues[1].get_url(), "wss://ws.okx.com:8443/ws/v5/public");
    match &registry.venues[0] {
        Exchanges::Deribit(_, _, message) => {
            assert_eq!(message.method, "public/subscribe");
            assert_eq!(message.params.channels, vec!["book.BTC-10MAY24-66000-C.none.20.100ms"]);
            assert_eq!(message.params.jsonrpc, "2.0");
            assert_eq!(message.params.id, 0);
        }
        _ => panic!("the first venue is the four-part one"),
    }
    match &registry.venues[1] {
        Exchanges::Okex(_, _, message) => {
            assert_eq!(message.op, "subscribe");
            assert_eq!(message.args, vec![OkexInitMessageArg::new("BTC-USD-240427-56000-C")]);
            assert_eq!(message.args[0].channel, "books");
        }
        _ => panic!("the second venue is the five-part one"),
    }
}

#[test]
fn a_subscription_aims_the_message_at_the_asset() {
    let mut registry = ExchangeRegistry::new();
    assert_eq!(registry.subscription("okex", Some("BTC-USD-240510-66000-C")), Ok(1));
    match &registry.venues[1] {
        Exchanges::Okex(_, _, message) => {
            assert_eq!(message.args[0].inst_id, "BTC-USD-240510-66000-C");
            assert_eq!(message.args[0].channel, "books");
        }
        _ => panic!("the second venue is the five-part one"),
    }
    assert_eq!(registry.venues[0], ExchangeRegistry::new().venues[0]);

    assert_eq!(registry.subscription("deribit", Some("ETH-1JAN25-3000-P")), Ok(0));
    match &registry.venues[0] {
        Exchanges::Deribit(_, _, message) => {
            assert_eq!(message.params.channels, vec!["book.ETH-1JAN25-3000-P.none.20.100ms"]);
        }
        _ => panic!("the first venue is the four-part one"),
    }
    let before = registry.clone();
    assert_eq!(registry.subscription("deribit", None), Ok(0));
    assert_eq!(registry, before);
}

#[test]
fn an_unknown_venue_is_an_error() {
    let mut registry = ExchangeRegistry::new();
    let before = registry.clone();
    assert_eq!(
        registry.subscription("binance", Some("BTC")),
        Err(UnknownExchange { name: "binance".to_owned() })
    );
    assert_eq!(registry, before);
    assert_eq!(registry.subscription("", None), Err(UnknownExchange { name: "".to_owned() }));
}

#[test]
fn messages_take_a_new_asset() {
    let mut d = DeribitInitMessage::default();
    d.add_asset("X");
    assert_eq!(d.params.channels, vec!["book.X.none.20.100ms"]);
    assert_eq!(d.method, "public/subscribe");
    d.params.channels.clear();
    d.add_asset("Y");
    assert!(d.params.channels.is_empty());

    let p = DeribitInitMessageParams::new(&"Z".to_owned());
    assert_eq!(p.channels, vec!["book.Z.none.20.100ms"]);
    assert_eq!(p.jsonrpc, "2.0");
    assert_eq!(p.id, 0);
    assert_eq!(channel_name(""), "book..none.20.100ms");

    let mut o = OkexInitMessage::new("A-B");
    assert_eq!(o.op, "subscribe");
    assert_eq!(o.args.len(), 1);
    assert_eq!(o.args[0].inst_id, "A-B");
    o.add_asset("C-D");
    assert_eq!(o.args[0].inst_id, "C-D");
    assert_eq!(o.args[0].channel, "books");
    o.args.clear();
    o.add_asset("E");
    assert!(o.args.is_empty());

    let mut arg = OkexInitMessageArg::default();
    assert_eq!(arg.inst_id, "BTC-USD-240427-56000-C");
    arg.add_asset("Q");
    assert_eq!(arg, OkexInitMessageArg::new("Q"));

    let mut venue = Exchanges::Okex("n".to_owned(), "u".to_owned(), OkexInitMessage::default());
    venue.add_asset("S");
    assert_eq!(venue, Exchanges::Okex("n".to_owned(), "u".to_owned(), OkexInitMessage::new("S")));
    assert_eq!(venue.get_name(), "n");
    assert_eq!(venue.get_url(), "u");
    assert!(same_str("a", "a"));
    assert!(!same_str("a", "A"));
}

#[test]
fn a_deribit_response_gives_asks_then_bids() {
    let response = DeribitResponse {
        params: Some(ResponseParams {
            data: DeribitResponseData {
                bids: vec![(px(1.0), 3)],
                asks: vec![(px(2.0), 4), (px(2.5), 5)],
                instrument_name: "BTC-27APR24-56000-C".to_owned(),
            },
        }),
    };
    let (asks, bids) = response.asks_bids_pair().unwrap();
    assert_eq!(asks, vec![(px(2.0), 4), (px(2.5), 5)]);
    assert_eq!(bids, vec![(px(1.0), 3)]);
    let instrument = response.instrument_name().unwrap();
    assert_eq!(instrument.asset, "BTC");
    assert_eq!(instrument.instrument_type, InstrumentType::Call);
    assert_eq!(copy_levels(&asks), asks);

    let heartbeat = DeribitResponse { params: None };
    assert!(heartbeat.asks_bids_pair().is_none());
    assert!(heartbeat.instrument_name().is_none());

    let odd = DeribitResponse {
        params: Some(ResponseParams {
            data: DeribitResponseData {
                bids: vec![],
                asks: vec![],
                instrument_name: "BTC-PERPETUAL".to_owned(),
            },
        }),
    };
    assert!(odd.instrument_name().is_none());
    assert_eq!(odd.asks_bids_pair(), Some((vec![], vec![])));
}

#[test]
fn an_okex_response_gives_price_and_size_texts() {
    let response = OkexResponse {
        data: Some(vec![
            OkexResponseData {
                bids: vec![row(&["0.5", "10", "0", "1"])],
                asks: vec![row(&["0.6", "20", "0", "2"]), row(&["0.7", "30"])],
            },
            OkexResponseData { bids: vec![row(&["9", "9"])], asks: vec![] },
        ]),
        arg: Some(OkexInitMessageArg::new("BTC-USD-240427-56000-C")),
    };
    let (asks, bids) = response.level_texts().unwrap();
    assert_eq!(
        asks,
        vec![("0.6".to_owned(), "20".to_owned()), ("0.7".to_owned(), "30".to_owned())]
    );
    assert_eq!(bids, vec![("0.5".to_owned(), "10".to_owned())]);
    assert_eq!(response.instrument_name().unwrap().asset, "BTC-USD");

    let short = OkexResponse {
        data: Some(vec![OkexResponseData {
            bids: vec![row(&["0.5", "10"]), row(&["0.4"])],
            asks: vec![],
        }]),
        arg: None,
    };
    assert!(short.level_texts().is_none());
    assert!(short.instrument_name().is_none());
    assert!(OkexResponse { data: None, arg: None }.level_texts().is_none());
    assert!(OkexResponse { data: Some(vec![]), arg: None }.level_texts().is_none());
    let named = OkexResponse { data: None, arg: Some(OkexInitMessageArg::new("BTC-USD-SWAP")) };
    assert!(named.instrument_name().is_none());
    assert_eq!(pair_rows(&vec![]), Some(vec![]));
    assert_eq!(pair_rows(&vec![row(&[])]), None);
}
