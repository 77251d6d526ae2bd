use vstd::prelude::*;
use vstd::string::StringExecFns;
use crate::error::{ParseError, ParseFailure};
use crate::exchanges::{AskBidPairs, DepthLevel, ExchangeType, MessageExtendable, Returnable};
use crate::trading::instrument::{instrument_from, reads_as, Instrument, Parsed};
use crate::utils::dates::{date_of, day_month_year, CalendarDate};
use crate::utils::text::{split, split_text, texts_view};

verus! {

/// The instrument that a string names in the four-part dialect,
/// `{asset}-{DDMONYY}-{strike}-{C|P}`: a string of another number of parts
/// names none; the expiry, the strike and the type are read in this order,
/// and the first that cannot be read decides the failure.
pub open spec fn deribit_instrument(text: Seq<char>) -> Parsed {
    let parts = split(text, '-');
    if parts.len() != 4 {
        Err(ParseFailure::InvalidFormat)
    } else {
        instrument_from(parts[0], date_of(parts[1], day_month_year()), parts[2], parts[3])
    }
}

/// Reads an instrument string of the four-part dialect.
pub fn string_to_instrument_deribit(asset: &str) -> (r: Result<Instrument, ParseError>)
    ensures
        reads_as(r, deribit_instrument(asset@)),
        r matches Ok(i) ==> i@.wf(),
{
    let mut parts = split_text(asset, '-');
    if parts.len() != 4 {
        return Err(ParseError::InvalidFormat);
    }
    proof {
        let texts = texts_view(parts@);
        assert(texts[0] == parts@[0]@ && texts[1] == parts@[1]@ && texts[2] == parts@[2]@
            && texts[3] == parts@[3]@);
    }
    let date = CalendarDate::parse_from_str(parts[1].as_str(), "%d%h%y");
    let ghost strike = parts@[2]@;
    let ghost kind = parts@[3]@;
    let mut name: String = String::new();
    core::mem::swap(&mut name, &mut parts[0]);
    assert(parts@[2]@ == strike && parts@[3]@ == kind);
    Instrument::from_parts(name, date, parts[2].as_str(), parts[3].as_str())
}

/// The channel of the book feed for one instrument.
pub open spec fn channel_for(asset: Seq<char>) -> Seq<char> {
    "book."@ + asset + ".none.20.100ms"@
}

/// Writes the channel of the book feed for one instrument.
pub fn channel_name(asset: &str) -> (r: String)
    ensures
        r@ == channel_for(asset@),
{
    let mut channel = String::from_str("book.");
    channel.append(asset);
    channel.append(".none.20.100ms");
    channel
}

/// The model of the four-part venue's subscription message.
pub struct DeribitMessageView {
    pub method: Seq<char>,
    pub channels: Seq<Seq<char>>,
    pub jsonrpc: Seq<char>,
    pub id: i32,
}

impl DeribitMessageView {
    /// The message that subscribes to the book feed of `asset` alone.
    pub open spec fn subscribing(asset: Seq<char>) -> DeribitMessageView {
        DeribitMessageView {
            method: "public/subscribe"@,
            channels: seq![channel_for(asset)],
            jsonrpc: "2.0"@,
            id: 0,
        }
    }

    /// The message with its first channel, if it has one, set to the book
    /// feed of `asset`.
    pub open spec fn aimed_at(&self, asset: Seq<char>) -> DeribitMessageView {
        if self.channels.len() == 0 {
            *self
        } else {
            DeribitMessageView { channels: self.channels.update(0, channel_for(asset)), ..*self }
        }
    }
}

/// The parameters of the four-part venue's subscription message.
#[derive(PartialEq, Debug, Clone)]
pub struct DeribitInitMessageParams {
    pub channels: Vec<String>,
    pub jsonrpc: String,
    pub id: i32,
}

impl DeribitInitMessageParams {
    /// The parameters that subscribe to the book feed of `asset` alone.
    pub fn new(asset: &String) -> (r: Self)
        ensures
            texts_view(r.channels@) == seq![channel_for(asset@)],
            r.jsonrpc@ == "2.0"@,
            r.id == 0,
    {
        let mut channels: Vec<String> = Vec::new();
        channels.push(channel_name(asset.as_str()));
        assert(texts_view(channels@) =~= seq![channel_for(asset@)]);
        Self { channels, jsonrpc: String::from_str("2.0"), id: 0 }
    }
}

impl Default for DeribitInitMessageParams {
    fn default() -> (r: Self)
        ensures
            texts_view(r.channels@) == seq![channel_for("BTC-10MAY24-66000-C"@)],
            r.jsonrpc@ == "2.0"@,
            r.id == 0,
    {
        let mut channels: Vec<String> = Vec::new();
        channels.push(channel_name("BTC-10MAY24-66000-C"));
        assert(texts_view(channels@) =~= seq![channel_for("BTC-10MAY24-66000-C"@)]);
        Self { channels, jsonrpc: String::from_str("2.0"), id: 0 }
    }
}

impl MessageExtendable for DeribitInitMessageParams {
    fn add_asset(&mut self, asset: &str)
        ensures
            texts_view(final(self).channels@) == if old(self).channels@.len() == 0 {
                texts_view(old(self).channels@)
            } else {
                texts_view(old(self).channels@).update(0, channel_for(asset@))
            },
            final(self).jsonrpc == old(self).jsonrpc,
            final(self).id == old(self).id,
    {
        if self.channels.len() > 0 {
            let channel = channel_name(asset);
            self.channels.set(0, channel);
            assert(texts_view(self.channels@) =~= texts_view(old(self).channels@).update(
                0,
                channel_for(asset@),
            ));
        }
    }
}

/// The four-part venue's subscription message.
#[derive(PartialEq, Debug, Clone)]
pub struct DeribitInitMessage {
    pub method: String,
    pub params: DeribitInitMessageParams,
}

impl View for DeribitInitMessage {
    type V = DeribitMessageView;

    open spec fn view(&self) -> DeribitMessageView {
        DeribitMessageView {
            method: self.method@,
            channels: texts_view(self.params.channels@),
            jsonrpc: self.params.jsonrpc@,
            id: self.params.id,
        }
    }
}

impl Default for DeribitInitMessage {
    fn default() -> (r: Self)
        ensures
            r@ == DeribitMessageView::subscribing("BTC-10MAY24-66000-C"@),
    {
        Self {
            method: String::from_str("public/subscribe"),
            params: DeribitInitMessageParams::default(),
        }
    }
}

impl MessageExtendable for DeribitInitMessage {
    fn add_asset(&mut self, asset: &str)
        ensures
            final(self)@ == old(self)@.aimed_at(asset@),
    {
        self.params.add_asset(asset)
    }
}

/// One depth record of the four-part venue.
#[derive(PartialEq, Debug, Clone)]
pub struct DeribitResponseData {
    pub bids: Vec<DepthLevel>,
    pub asks: Vec<DepthLevel>,
    pub instrument_name: String,
}

/// The parameters of a depth response.
#[derive(PartialEq, Debug, Clone)]
pub struct ResponseParams {
    pub data: DeribitResponseData,
}

/// A response of the four-part venue: a depth record, or a status frame
/// without parameters.
#[derive(PartialEq, Debug, Clone)]
pub struct DeribitResponse {
    pub params: Option<ResponseParams>,
}

/// Copies a run of levels.
pub fn copy_levels(levels: &Vec<DepthLevel>) -> (r: Vec<DepthLevel>)
    ensures
        r@ == levels@,
{
    let mut out: Vec<DepthLevel> = Vec::new();
    let mut i: usize = 0;
    while i < levels.len()
        invariant
            i <= levels.len(),
            out@ == levels@.take(i as int),
        decreases levels.len() - i,
    {
        out.push(levels[i]);
        assert(levels@.take(i + 1) =~= levels@.take(i as int).push(levels@[i as int]));
        i = i + 1;
    }
    assert(levels@.take(levels@.len() as int) =~= levels@);
    out
}

impl Returnable for DeribitResponse {
    /// The asks and the bids of the depth record, in this order.
    fn asks_bids_pair(&self) -> (r: Option<AskBidPairs>)
        ensures
            match (r, self.params) {
                (Some(pair), Some(params)) => pair.0@ == params.data.asks@ && pair.1@
                    == params.data.bids@,
                (None, None) => true,
                _ => false,
            },
    {
        match &self.params {
            Some(params) => Some((copy_levels(&params.data.asks), copy_levels(&params.data.bids))),
            None => None,
        }
    }

    /// The instrument of the depth record, where its name is one of the
    /// four-part dialect.
    fn instrument_name(&self) -> (r: Option<Instrument>)
        ensures
            match self.params {
                Some(params) => match (r, deribit_instrument(params.data.instrument_name@)) {
                    (Some(i), Ok(v)) => i@ == v && i@.wf(),
                    (None, Err(_)) => true,
                    _ => false,
                },
                None => r.is_none(),
            },
    {
        match &self.params {
            Some(params) => {
                match Instrument::from_exchange_string(
                    params.data.instrument_name.as_str(),
                    ExchangeType::Delibris,
                ) {
                    Ok(instrument) => Some(instrument),
                    Err(_) => None,
                }
            },
            None => None,
        }
    }
}

} // verus!
