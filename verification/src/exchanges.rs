//! The venues: their dialects of instrument strings, their subscription
//! messages and their depth responses.
use vstd::prelude::*;
use crate::error::UnknownExchange;
use crate::trading::instrument::Instrument;
use crate::trading::price::Price;

pub mod deribit;
pub mod okex;

pub use deribit::{
    string_to_instrument_deribit, DeribitInitMessage, DeribitInitMessageParams,
    DeribitMessageView, DeribitResponse, DeribitResponseData, ResponseParams,
};
pub use okex::{
    string_to_instrument_okex, OkexInitMessage, OkexInitMessageArg, OkexMessageView,
    OkexResponse, OkexResponseData,
};

verus! {

/// The dialect in which a venue writes its instruments.
#[derive(PartialEq, Eq, Structural, Debug, Clone, Copy)]
pub enum ExchangeType {
    /// Four parts: asset, expiry as day, month abbreviation and year, strike, type.
    Delibris,
    /// Five parts: base, quote, expiry as year, month and day, strike, type.
    Okex,
}

/// One level of a depth snapshot: a price and the quantity offered there.
pub type DepthLevel = (Price, i32);

/// The two sides of a depth snapshot: the asks, then the bids.
pub type AskBidPairs = (Vec<DepthLevel>, Vec<DepthLevel>);

/// What every venue's depth response gives: the levels of both sides, and the
/// instrument they belong to. A status frame gives neither.
pub trait Returnable {
    fn asks_bids_pair(&self) -> Option<AskBidPairs>;

    fn instrument_name(&self) -> Option<Instrument>;
}

/// A subscription message whose target symbol can be set.
pub trait MessageExtendable {
    fn add_asset(&mut self, asset: &str);
}

/// The model of a venue of the registry.
pub enum ExchangeView {
    Deribit(Seq<char>, Seq<char>, DeribitMessageView),
    Okex(Seq<char>, Seq<char>, OkexMessageView),
}

impl ExchangeView {
    /// The venue's name.
    pub open spec fn name(&self) -> Seq<char> {
        match self {
            ExchangeView::Deribit(name, _, _) => *name,
            ExchangeView::Okex(name, _, _) => *name,
        }
    }

    /// The venue's endpoint.
    pub open spec fn url(&self) -> Seq<char> {
        match self {
            ExchangeView::Deribit(_, url, _) => *url,
            ExchangeView::Okex(_, url, _) => *url,
        }
    }

    /// The venue with its subscription message aimed at `asset`.
    pub open spec fn aimed_at(&self, asset: Seq<char>) -> ExchangeView {
        match self {
            ExchangeView::Deribit(name, url, message) => ExchangeView::Deribit(
                *name,
                *url,
                message.aimed_at(asset),
            ),
            ExchangeView::Okex(name, url, message) => ExchangeView::Okex(
                *name,
                *url,
                message.aimed_at(asset),
            ),
        }
    }
}

/// A venue of the registry: its name, its endpoint, and the subscription
/// message that is sent to it.
#[derive(PartialEq, Debug, Clone)]
pub enum Exchanges {
    Deribit(String, String, DeribitInitMessage),
    Okex(String, String, OkexInitMessage),
}

impl View for Exchanges {
    type V = ExchangeView;

    open spec fn view(&self) -> ExchangeView {
        match self {
            Exchanges::Deribit(name, url, message) => ExchangeView::Deribit(
                name@,
                url@,
                message@,
            ),
            Exchanges::Okex(name, url, message) => ExchangeView::Okex(name@, url@, message@),
        }
    }
}

impl Exchanges {
    /// Aims the venue's subscription message at `asset`.
    pub fn add_asset(&mut self, asset: &str)
        ensures
            final(self)@ == old(self)@.aimed_at(asset@),
    {
        match self {
            Exchanges::Deribit(_, _, message) => message.add_asset(asset),
            Exchanges::Okex(_, _, message) => message.add_asset(asset),
        }
    }

    pub fn get_url(&self) -> (r: &str)
        ensures
            r@ == self@.url(),
    {
        match self {
            Exchanges::Deribit(_, url, _) => url.as_str(),
            Exchanges::Okex(_, url, _) => url.as_str(),
        }
    }

    pub fn get_name(&self) -> (r: &str)
        ensures
            r@ == self@.name(),
    {
        match self {
            Exchanges::Deribit(name, _, _) => name.as_str(),
            Exchanges::Okex(name, _, _) => name.as_str(),
        }
    }
}

/// Whether two texts are the same.
pub fn same_str(a: &str, b: &str) -> (r: bool)
    ensures
        r == (a@ == b@),
{
    a.to_owned() == b.to_owned()
}

/// The venues that the process knows, by name.
#[derive(PartialEq, Debug, Clone)]
pub struct ExchangeRegistry {
    pub venues: Vec<Exchanges>,
}

impl View for ExchangeRegistry {
    type V = Seq<ExchangeView>;

    open spec fn view(&self) -> Seq<ExchangeView> {
        self.venues@.map_values(|v: Exchanges| v@)
    }
}

/// The place of the first venue of the list that goes by `name`, or the
/// length of the list where none does.
pub open spec fn venue_index(venues: Seq<ExchangeView>, name: Seq<char>) -> int
    decreases venues.len(),
{
    if venues.len() == 0 || venues[0].name() == name {
        0
    } else {
        1 + venue_index(venues.skip(1), name)
    }
}

/// The place that `venue_index` names is the first where the name stands.
pub proof fn lemma_venue_index(venues: Seq<ExchangeView>, name: Seq<char>, at: int)
    requires
        0 <= at <= venues.len(),
        forall|i: int| 0 <= i < at ==> (#[trigger] venues[i]).name() != name,
        at < venues.len() ==> venues[at].name() == name,
    ensures
        venue_index(venues, name) == at,
    decreases venues.len(),
{
    if at > 0 {
        let rest = venues.skip(1);
        assert forall|i: int| 0 <= i < at - 1 implies (#[trigger] rest[i]).name() != name by {
            assert(rest[i] == venues[i + 1]);
        }
        lemma_venue_index(rest, name, at - 1);
    }
}

/// The registry after a venue was asked for by name: where an asset is given,
/// the venue's subscription message is aimed at it.
pub open spec fn subscribed(venues: Seq<ExchangeView>, name: Seq<char>, asset: Option<Seq<char>>) -> Seq<
    ExchangeView,
> {
    let at = venue_index(venues, name);
    match asset {
        Some(symbol) => if at < venues.len() {
            venues.update(at, venues[at].aimed_at(symbol))
        } else {
            venues
        },
        None => venues,
    }
}

/// The text of an optional text.
pub open spec fn optional_text(text: Option<&str>) -> Option<Seq<char>> {
    match text {
        Some(t) => Some(t@),
        None => None,
    }
}

impl ExchangeRegistry {
    /// The registry of the two venues that are built in, each with its
    /// endpoint and its default subscription message.
    pub fn new() -> (r: Self)
        ensures
            r@ == seq![
                ExchangeView::Deribit(
                    "deribit"@,
                    "wss://www.deribit.com/ws/api/v2"@,
                    DeribitMessageView::subscribing("BTC-10MAY24-66000-C"@),
                ),
                ExchangeView::Okex(
                    "okex"@,
                    "wss://ws.okx.com:8443/ws/v5/public"@,
                    OkexMessageView::subscribing("BTC-USD-240427-56000-C"@),
                ),
            ],
    {
        let mut venues: Vec<Exchanges> = Vec::new();
        venues.push(
            Exchanges::Deribit(
                "deribit".to_owned(),
                "wss://www.deribit.com/ws/api/v2".to_owned(),
                DeribitInitMessage::default(),
            ),
        );
        venues.push(
            Exchanges::Okex(
                "okex".to_owned(),
                "wss://ws.okx.com:8443/ws/v5/public".to_owned(),
                OkexInitMessage::default(),
            ),
        );
        let r = ExchangeRegistry { venues };
        assert(r@ =~= seq![
            ExchangeView::Deribit(
                "deribit"@,
                "wss://www.deribit.com/ws/api/v2"@,
                DeribitMessageView::subscribing("BTC-10MAY24-66000-C"@),
            ),
            ExchangeView::Okex(
                "okex"@,
                "wss://ws.okx.com:8443/ws/v5/public"@,
                OkexMessageView::subscribing("BTC-USD-240427-56000-C"@),
            ),
        ]);
        r
    }

    /// Looks a venue up by name and, where an asset is given, aims its
    /// subscription message at it. Gives the place of the venue in the
    /// registry. An unknown name changes nothing.
    pub fn subscription(&mut self, exchange_name: &str, asset: Option<&str>) -> (r: Result<
        usize,
        UnknownExchange,
    >)
        ensures
            final(self)@ == subscribed(old(self)@, exchange_name@, optional_text(asset)),
            match r {
                Ok(at) => at == venue_index(old(self)@, exchange_name@) && at < old(self)@.len(),
                Err(e) => venue_index(old(self)@, exchange_name@) == old(self)@.len() && e.name@
                    == exchange_name@,
            },
    {
        let ghost before = self@;
        let mut at: usize = 0;
        while at < self.venues.len() && !same_str(self.venues[at].get_name(), exchange_name)
            invariant
                at <= self.venues.len(),
                self@ == before,
                forall|i: int| 0 <= i < at ==> (#[trigger] before[i]).name() != exchange_name@,
            decreases self.venues.len() - at,
        {
            assert(before[at as int] == self.venues@[at as int]@);
            at = at + 1;
        }
        proof {
            if at < self.venues.len() {
                assert(before[at as int] == self.venues@[at as int]@);
            }
            lemma_venue_index(before, exchange_name@, at as int);
        }
        if at == self.venues.len() {
            return Err(UnknownExchange { name: exchange_name.to_owned() });
        }
        match asset {
            Some(symbol) => {
                let ghost raw = self.venues@;
                self.venues[at].add_asset(symbol);
                assert(self@ =~= before.update(at as int, before[at as int].aimed_at(symbol@))) by {
                    assert forall|i: int| 0 <= i < self@.len() implies self@[i] == before.update(
                        at as int,
                        before[at as int].aimed_at(symbol@),
                    )[i] by {
                        if i != at {
                            assert(self.venues@[i] == raw[i]);
                        }
                    }
                }
            },
            None => {},
        }
        Ok(at)
    }
}

} // verus!
