use vstd::prelude::*;
use vstd::string::StringExecFns;
use crate::error::{ParseError, ParseFailure};
use crate::exchanges::{ExchangeType, MessageExtendable};
use crate::trading::instrument::{instrument_from, reads_as, Instrument, Parsed};
use crate::utils::dates::{date_of, year_month_day, CalendarDate};
use crate::utils::text::{split, split_text, texts_view};

verus! {

/// The instrument that a string names in the five-part dialect,
/// `{base}-{quote}-{YYMMDD}-{strike}-{C|P}`: a string of another number of
/// parts names none; the asset keeps base and quote with their hyphen; the
/// expiry, the strike and the type are read in this order, and the first that
/// cannot be read decides the failure.
pub open spec fn okex_instrument(text: Seq<char>) -> Parsed {
    let parts = split(text, '-');
    if parts.len() != 5 {
        Err(ParseFailure::InvalidFormat)
    } else {
        instrument_from(
            parts[0] + seq!['-'] + parts[1],
            date_of(parts[2], year_month_day()),
            parts[3],
            parts[4],
        )
    }
}

/// Reads an instrument string of the five-part dialect.
pub fn string_to_instrument_okex(asset: &str) -> (r: Result<Instrument, ParseError>)
    ensures
        reads_as(r, okex_instrument(asset@)),
        r matches Ok(i) ==> i@.wf(),
{
    let mut parts = split_text(asset, '-');
    if parts.len() != 5 {
        return Err(ParseError::InvalidFormat);
    }
    proof {
        let texts = texts_view(parts@);
        assert(texts[0] == parts@[0]@ && texts[1] == parts@[1]@ && texts[2] == parts@[2]@
            && texts[3] == parts@[3]@ && texts[4] == parts@[4]@);
    }
    let date = CalendarDate::parse_from_str(parts[2].as_str(), "%y%m%d");
    let ghost base = parts@[0]@;
    let ghost quote = parts@[1]@;
    let ghost strike = parts@[3]@;
    let ghost kind = parts@[4]@;
    let mut name: String = String::new();
    core::mem::swap(&mut name, &mut parts[0]);
    name.push('-');
    assert(parts@[1]@ == quote && parts@[3]@ == strike && parts@[4]@ == kind);
    name.append(parts[1].as_str());
    assert(name@ =~= base + seq!['-'] + quote);
    Instrument::from_parts(name, date, parts[3].as_str(), parts[4].as_str())
}

/// The model of one argument of the five-part venue's subscription message.
pub struct OkexArgView {
    pub channel: Seq<char>,
    pub inst_id: Seq<char>,
}

/// One argument of the five-part venue's subscription message: a channel and
/// the instrument it is about.
#[derive(PartialEq, Debug, Clone)]
pub struct OkexInitMessageArg {
    pub channel: String,
    pub inst_id: String,
}

impl View for OkexInitMessageArg {
    type V = OkexArgView;

    open spec fn view(&self) -> OkexArgView {
        OkexArgView { channel: self.channel@, inst_id: self.inst_id@ }
    }
}

impl OkexArgView {
    /// The argument that asks for the book of `inst_id`.
    pub open spec fn books(inst_id: Seq<char>) -> OkexArgView {
        OkexArgView { channel: "books"@, inst_id }
    }
}

impl Default for OkexInitMessageArg {
    fn default() -> (r: Self)
        ensures
            r@ == OkexArgView::books("BTC-USD-240427-56000-C"@),
    {
        Self {
            channel: String::from_str("books"),
            inst_id: String::from_str("BTC-USD-240427-56000-C"),
        }
    }
}

impl MessageExtendable for OkexInitMessageArg {
    fn add_asset(&mut self, asset: &str)
        ensures
            final(self)@ == (OkexArgView { inst_id: asset@, ..old(self)@ }),
    {
        self.inst_id = asset.to_owned();
    }
}

impl OkexInitMessageArg {
    pub fn new(inst_id: &str) -> (r: Self)
        ensures
            r@ == OkexArgView::books(inst_id@),
    {
        Self { channel: String::from_str("books"), inst_id: inst_id.to_owned() }
    }
}

/// The model of the five-part venue's subscription message.
pub struct OkexMessageView {
    pub op: Seq<char>,
    pub args: Seq<OkexArgView>,
}

impl OkexMessageView {
    /// The message that subscribes to the book of `inst_id` alone.
    pub open spec fn subscribing(inst_id: Seq<char>) -> OkexMessageView {
        OkexMessageView { op: "subscribe"@, args: seq![OkexArgView::books(inst_id)] }
    }

    /// The message with its first argument, if it has one, set to `asset`.
    pub open spec fn aimed_at(&self, asset: Seq<char>) -> OkexMessageView {
        if self.args.len() == 0 {
            *self
        } else {
            OkexMessageView {
                args: self.args.update(0, OkexArgView { inst_id: asset, ..self.args[0] }),
                ..*self
            }
        }
    }
}

/// The five-part venue's subscription message.
#[derive(PartialEq, Debug, Clone)]
pub struct OkexInitMessage {
    pub op: String,
    pub args: Vec<OkexInitMessageArg>,
}

impl View for OkexInitMessage {
    type V = OkexMessageView;

    open spec fn view(&self) -> OkexMessageView {
        OkexMessageView { op: self.op@, args: self.args@.map_values(|a: OkexInitMessageArg| a@) }
    }
}

impl Default for OkexInitMessage {
    fn default() -> (r: Self)
        ensures
            r@ == OkexMessageView::subscribing("BTC-USD-240427-56000-C"@),
    {
        let mut args: Vec<OkexInitMessageArg> = Vec::new();
        args.push(OkexInitMessageArg::default());
        let r = Self { op: String::from_str("subscribe"), args };
        assert(r@.args =~= seq![OkexArgView::books("BTC-USD-240427-56000-C"@)]);
        r
    }
}

impl MessageExtendable for OkexInitMessage {
    fn add_asset(&mut self, asset: &str)
        ensures
            final(self)@ == old(self)@.aimed_at(asset@),
    {
        if self.args.len() > 0 {
            let ghost before = self@.args;
            assert(before[0] == self.args@[0]@);
            self.args[0].add_asset(asset);
            assert(self@.args =~= before.update(
                0,
                OkexArgView { inst_id: asset@, ..before[0] },
            ));
        }
    }
}

impl OkexInitMessage {
    pub fn new(inst_id: &str) -> (r: Self)
        ensures
            r@ == OkexMessageView::subscribing(inst_id@),
    {
        let mut args: Vec<OkexInitMessageArg> = Vec::new();
        args.push(OkexInitMessageArg::new(inst_id));
        let r = Self { op: String::from_str("subscribe"), args };
        assert(r@.args =~= seq![OkexArgView::books(inst_id@)]);
        r
    }
}

/// One depth record of the five-part venue: each level is a row of texts, of
/// which the first is the price and the second the size.
#[derive(PartialEq, Debug, Clone)]
pub struct OkexResponseData {
    pub bids: Vec<Vec<String>>,
    pub asks: Vec<Vec<String>>,
}

/// A response of the five-part venue: depth records and the subscription
/// they answer, or a status frame without either.
#[derive(PartialEq, Debug, Clone)]
pub struct OkexResponse {
    pub data: Option<Vec<OkexResponseData>>,
    pub arg: Option<OkexInitMessageArg>,
}

/// The price and size texts of a run of rows, or none where a row has fewer
/// than two texts.
pub open spec fn row_pairs(rows: Seq<Vec<String>>) -> Option<Seq<(Seq<char>, Seq<char>)>>
    decreases rows.len(),
{
    if rows.len() == 0 {
        Some(Seq::empty())
    } else {
        match row_pairs(rows.drop_last()) {
            Some(head) => if rows.last()@.len() >= 2 {
                Some(head.push((rows.last()@[0]@, rows.last()@[1]@)))
            } else {
                None
            },
            None => None,
        }
    }
}

/// The views of a run of pairs of texts.
pub open spec fn pairs_view(pairs: Seq<(String, String)>) -> Seq<(Seq<char>, Seq<char>)> {
    pairs.map_values(|p: (String, String)| (p.0@, p.1@))
}

/// Cuts each row down to its price and size texts. One row that is too short
/// spoils the whole run.
pub fn pair_rows(rows: &Vec<Vec<String>>) -> (r: Option<Vec<(String, String)>>)
    ensures
        match (r, row_pairs(rows@)) {
            (Some(pairs), Some(model)) => pairs_view(pairs@) == model,
            (None, None) => true,
            _ => false,
        },
{
    let mut out: Vec<(String, String)> = Vec::new();
    let mut i: usize = 0;
    assert(rows@.take(0) =~= Seq::<Vec<String>>::empty());
    assert(pairs_view(out@) =~= Seq::<(Seq<char>, Seq<char>)>::empty());
    while i < rows.len()
        invariant
            i <= rows.len(),
            row_pairs(rows@.take(i as int)) == Some(pairs_view(out@)),
        decreases rows.len() - i,
    {
        proof {
            assert(rows@.take(i + 1).drop_last() =~= rows@.take(i as int));
            assert(rows@.take(i + 1).last() == rows@[i as int]);
        }
        if rows[i].len() < 2 {
            proof {
                lemma_row_pairs_spoiled(rows@, i + 1);
            }
            return None;
        }
        let ghost so_far = out@;
        let pair = (rows[i][0].clone(), rows[i][1].clone());
        out.push(pair);
        assert(pairs_view(out@) =~= pairs_view(so_far).push((rows@[i as int]@[0]@, rows@[i as int]@[1]@)));
        i = i + 1;
    }
    assert(rows@.take(rows@.len() as int) =~= rows@);
    Some(out)
}

/// A run of rows with a spoiled head is spoiled.
pub proof fn lemma_row_pairs_spoiled(rows: Seq<Vec<String>>, k: int)
    requires
        0 <= k <= rows.len(),
        row_pairs(rows.take(k)).is_none(),
    ensures
        row_pairs(rows).is_none(),
    decreases rows.len() - k,
{
    if k < rows.len() {
        assert(rows.take(k + 1).drop_last() =~= rows.take(k));
        lemma_row_pairs_spoiled(rows, k + 1);
    } else {
        assert(rows.take(k) =~= rows);
    }
}

impl OkexResponse {
    /// The price and size texts of the first depth record, asks first, then
    /// bids. A status frame gives none, and so does a record with a row that
    /// is too short.
    pub fn level_texts(&self) -> (r: Option<(Vec<(String, String)>, Vec<(String, String)>)>)
        ensures
            match r {
                Some(texts) => {
                    &&& self.data matches Some(records)
                    &&& records@.len() > 0
                    &&& row_pairs(records@[0].asks@) == Some(pairs_view(texts.0@))
                    &&& row_pairs(records@[0].bids@) == Some(pairs_view(texts.1@))
                },
                None => {
                    self.data matches Some(records) ==> records@.len() == 0 || row_pairs(
                        records@[0].asks@,
                    ).is_none() || row_pairs(records@[0].bids@).is_none()
                },
            },
    {
        match &self.data {
            Some(records) => {
                if records.len() == 0 {
                    return None;
                }
                let bids = match pair_rows(&records[0].bids) {
                    Some(bids) => bids,
                    None => {
                        return None;
                    },
                };
                let asks = match pair_rows(&records[0].asks) {
                    Some(asks) => asks,
                    None => {
                        return None;
                    },
                };
                Some((asks, bids))
            },
            None => None,
        }
    }

    /// The instrument that the response is about, where its name is one of
    /// the five-part dialect.
    pub fn instrument_name(&self) -> (r: Option<Instrument>)
        ensures
            match self.arg {
                Some(arg) => match (r, okex_instrument(arg.inst_id@)) {
                    (Some(i), Ok(v)) => i@ == v && i@.wf(),
                    (None, Err(_)) => true,
                    _ => false,
                },
                None => r.is_none(),
            },
    {
        match &self.arg {
            Some(arg) => {
                match Instrument::from_exchange_string(arg.inst_id.as_str(), ExchangeType::Okex) {
                    Ok(instrument) => Some(instrument),
                    Err(_) => None,
                }
            },
            None => None,
        }
    }
}

} // verus!
