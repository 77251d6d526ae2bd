use vstd::prelude::*;
use vstd::string::StringExecFns;
use crate::error::{ParseError, ParseFailure};
use crate::exchanges::deribit::{deribit_instrument, string_to_instrument_deribit};
use crate::exchanges::okex::{okex_instrument, string_to_instrument_okex};
use crate::exchanges::ExchangeType;
use crate::utils::dates::{
    day_month_year_text, is_day_month_year, is_year_month_day, month_abbreviation, month_number,
    read_day_month_year, read_year_month_day, two_digit_value, two_digits, year_month_day_text,
    CalendarDate,
};
use crate::utils::text::{
    ascii_upper, decimal_text, digit_char, digit_value, digits_of, integer_of, is_digit, join,
    lemma_join_split, lemma_split_first, lemma_split_parts, lemma_split_whole,
    lemma_write_after_parse, parse_integer, plainly_written, split, split_text, texts_view,
    write_integer,
};

verus! {

/// Whether an option gives the right to buy or to sell.
#[derive(PartialEq, Eq, Structural, Debug, Clone, Copy, Hash)]
pub enum InstrumentType {
    Call,
    Put,
}

impl Default for InstrumentType {
    fn default() -> (r: Self)
        ensures
            r == InstrumentType::Call,
    {
        InstrumentType::Call
    }
}

/// The instrument type that a suffix names: `C` a call, `P` a put, anything
/// else none.
pub open spec fn instrument_type_of(text: Seq<char>) -> Option<InstrumentType> {
    if text == seq!['C'] {
        Some(InstrumentType::Call)
    } else if text == seq!['P'] {
        Some(InstrumentType::Put)
    } else {
        None
    }
}

impl InstrumentType {
    /// The letter that names the type in an instrument string.
    pub open spec fn letter(&self) -> char {
        match self {
            InstrumentType::Call => 'C',
            InstrumentType::Put => 'P',
        }
    }

    pub fn from_given_str(input_str: &str) -> (r: Option<Self>)
        ensures
            r == instrument_type_of(input_str@),
    {
        if input_str.unicode_len() != 1 {
            None
        } else {
            let letter = input_str.get_char(0);
            if letter == 'C' {
                assert(input_str@ =~= seq!['C']);
                Some(InstrumentType::Call)
            } else if letter == 'P' {
                assert(input_str@ =~= seq!['P']);
                Some(InstrumentType::Put)
            } else {
                None
            }
        }
    }

    pub fn to_char(&self) -> (r: char)
        ensures
            r == self.letter(),
    {
        match self {
            InstrumentType::Call => 'C',
            InstrumentType::Put => 'P',
        }
    }
}

/// The model of an instrument.
pub struct InstrumentView {
    pub asset: Seq<char>,
    pub strike_price: i64,
    pub expiration_date: CalendarDate,
    pub instrument_type: InstrumentType,
}

/// An option contract: underlying, strike, expiry, and call or put.
#[derive(Debug, PartialEq, Eq, Hash)]
pub struct Instrument {
    pub asset: String,
    pub strike_price: i64,
    pub expiration_date: CalendarDate,
    pub instrument_type: InstrumentType,
}

impl View for Instrument {
    type V = InstrumentView;

    open spec fn view(&self) -> InstrumentView {
        InstrumentView {
            asset: self.asset@,
            strike_price: self.strike_price,
            expiration_date: self.expiration_date,
            instrument_type: self.instrument_type,
        }
    }
}

impl Clone for Instrument {
    fn clone(&self) -> (r: Self)
        ensures
            r@ == self@,
    {
        Instrument {
            asset: self.asset.clone(),
            strike_price: self.strike_price,
            expiration_date: self.expiration_date,
            instrument_type: self.instrument_type,
        }
    }
}

impl Instrument {
    /// Whether two instruments are the same contract: equal in every field.
    pub fn same_as(&self, other: &Instrument) -> (r: bool)
        ensures
            r == (self@ == other@),
    {
        self.asset == other.asset && self.strike_price == other.strike_price
            && self.expiration_date.year == other.expiration_date.year
            && self.expiration_date.month == other.expiration_date.month
            && self.expiration_date.day == other.expiration_date.day
            && self.instrument_type == other.instrument_type
    }
}

/// The upper-case mapping of a character, as `char::to_uppercase` gives it:
/// one character or more.
pub uninterp spec fn upper_of(c: char) -> Seq<char>;

/// The upper-case mapping of a character: for a character of the ASCII range
/// its capital, for any other what `char::to_uppercase` gives.
pub open spec fn upper_char(c: char) -> Seq<char> {
    if (c as int) < 128 {
        seq![ascii_upper(c)]
    } else {
        upper_of(c)
    }
}

/// Whether a text is made of characters of the ASCII range alone.
pub open spec fn all_ascii(text: Seq<char>) -> bool {
    forall|i: int| 0 <= i < text.len() ==> (#[trigger] text[i] as int) < 128
}

/// Whether a character is of the ASCII range and no small letter, so that its
/// upper-case form is the character itself.
pub open spec fn is_plain(c: char) -> bool {
    (c as int) < 128 && !('a' <= c <= 'z')
}

/// Whether a text is made of plain characters alone.
pub open spec fn all_plain(text: Seq<char>) -> bool {
    forall|i: int| 0 <= i < text.len() ==> is_plain(#[trigger] text[i])
}

/// A text of the ASCII range with its small letters turned into capitals.
pub open spec fn ascii_uppercased(text: Seq<char>) -> Seq<char> {
    text.map_values(|c: char| ascii_upper(c))
}

/// The text in upper case: the upper-case mappings of its characters, one
/// after the other.
pub open spec fn uppercased(text: Seq<char>) -> Seq<char>
    decreases text.len(),
{
    if text.len() == 0 {
        Seq::empty()
    } else {
        uppercased(text.drop_last()) + upper_char(text.last())
    }
}

/// The upper case of two texts, one after the other, is the upper case of the
/// one followed by the upper case of the other.
pub proof fn lemma_uppercased_concat(a: Seq<char>, b: Seq<char>)
    ensures
        uppercased(a + b) == uppercased(a) + uppercased(b),
    decreases b.len(),
{
    if b.len() == 0 {
        assert(a + b =~= a);
        assert(uppercased(a) + uppercased(b) =~= uppercased(a));
    } else {
        lemma_uppercased_concat(a, b.drop_last());
        assert((a + b).drop_last() =~= a + b.drop_last());
        assert((a + b).last() == b.last());
        assert(uppercased(a + b) =~= uppercased(a) + uppercased(b));
    }
}

/// The upper case of a text of the ASCII range has capitals for its small
/// letters, and is the text itself where it has no small letter.
pub proof fn lemma_uppercased_ascii(text: Seq<char>)
    requires
        all_ascii(text),
    ensures
        uppercased(text) == ascii_uppercased(text),
        all_plain(text) ==> uppercased(text) == text,
    decreases text.len(),
{
    if text.len() == 0 {
        assert(uppercased(text) =~= ascii_uppercased(text));
        assert(uppercased(text) =~= text);
    } else {
        let head = text.drop_last();
        assert forall|i: int| 0 <= i < head.len() implies (#[trigger] head[i] as int) < 128 by {
            assert(head[i] == text[i]);
        }
        assert((text[text.len() - 1] as int) < 128);
        lemma_uppercased_ascii(head);
        assert(uppercased(text) =~= ascii_uppercased(text));
        if all_plain(text) {
            assert forall|i: int| 0 <= i < head.len() implies is_plain(#[trigger] head[i]) by {
                assert(head[i] == text[i]);
            }
            assert(is_plain(text[text.len() - 1]));
            assert(uppercased(text) =~= text);
        }
    }
}

/// `char::to_uppercase`: appends the upper-case mapping of `c` to the text.
/// The mapping depends on the character alone, and for a character of the
/// ASCII range it is the one character that `char::to_ascii_uppercase` gives.
#[verifier::external_body]
fn push_upper(out: &mut String, c: char)
    ensures
        final(out)@ == old(out)@ + upper_of(c),
        (c as int) < 128 ==> final(out)@ == old(out)@.push(ascii_upper(c)),
{
    out.extend(c.to_uppercase());
}

/// Gives a text in upper case.
pub fn to_upper(text: &str) -> (r: String)
    ensures
        r@ == uppercased(text@),
{
    let mut out = String::new();
    proof {
        assert(text@.take(0) =~= Seq::<char>::empty());
    }
    for c in it: text.chars()
        invariant
            it.seq() == text@,
            out@ == uppercased(text@.take(it.index() as int)),
    {
        let ghost i = it.index() as int;
        let ghost before = out@;
        push_upper(&mut out, c);
        proof {
            assert(text@.take(i + 1).drop_last() =~= text@.take(i));
            assert(text@.take(i + 1).last() == c);
            assert(before.push(ascii_upper(c)) =~= before + seq![ascii_upper(c)]);
        }
    }
    proof {
        assert(text@.take(text@.len() as int) =~= text@);
    }
    out
}

impl Default for Instrument {
    fn default() -> (r: Self)
        ensures
            r@ == (InstrumentView {
                asset: Seq::empty(),
                strike_price: 0,
                expiration_date: CalendarDate { year: 1970, month: 1, day: 1 },
                instrument_type: InstrumentType::Call,
            }),
            r@.wf(),
    {
        Instrument {
            asset: String::new(),
            strike_price: 0,
            expiration_date: CalendarDate { year: 1970, month: 1, day: 1 },
            instrument_type: InstrumentType::Call,
        }
    }
}

/// What reading an instrument string gives.
pub type Parsed = Result<InstrumentView, ParseFailure>;

/// The instrument that a string names in a venue's dialect.
pub open spec fn instrument_of(text: Seq<char>, exchange_type: ExchangeType) -> Parsed {
    match exchange_type {
        ExchangeType::Delibris => deribit_instrument(text),
        ExchangeType::Okex => okex_instrument(text),
    }
}

/// What reading the parts of an instrument string gives: the date must have
/// been read, the strike must be an integer, and the last part must name a
/// type; the first of these that fails decides the failure.
pub open spec fn instrument_from(
    asset: Seq<char>,
    date: Option<CalendarDate>,
    strike: Seq<char>,
    kind: Seq<char>,
) -> Parsed {
    match date {
        None => Err(ParseFailure::InvalidDate),
        Some(day) => match integer_of(strike) {
            None => Err(ParseFailure::InvalidStrike),
            Some(price) => match instrument_type_of(kind) {
                None => Err(ParseFailure::UnsupportedInstrumentType(kind)),
                Some(letter) => Ok(
                    InstrumentView {
                        asset,
                        strike_price: price,
                        expiration_date: day,
                        instrument_type: letter,
                    },
                ),
            },
        },
    }
}

/// Asset, expiry, strike and type, written with hyphens between them.
pub open spec fn hyphenated(asset: Seq<char>, date: Seq<char>, strike: int, kind: InstrumentType) -> Seq<
    char,
> {
    asset + seq!['-'] + date + seq!['-'] + decimal_text(strike) + seq!['-'] + seq![kind.letter()]
}

/// The string that a venue's dialect makes of asset, expiry text, strike and
/// type: the four written with hyphens between them, and for the four-part
/// dialect the whole in upper case.
pub open spec fn instrument_text(
    asset: Seq<char>,
    date: Seq<char>,
    strike: int,
    kind: InstrumentType,
    exchange_type: ExchangeType,
) -> Seq<char> {
    match exchange_type {
        ExchangeType::Delibris => uppercased(hyphenated(asset, date, strike, kind)),
        ExchangeType::Okex => hyphenated(asset, date, strike, kind),
    }
}

/// The expiry as a venue's dialect writes it.
pub open spec fn expiry_text(date: CalendarDate, exchange_type: ExchangeType) -> Seq<char> {
    match exchange_type {
        ExchangeType::Delibris => day_month_year_text(date),
        ExchangeType::Okex => year_month_day_text(date),
    }
}

/// The string that names an instrument in a venue's dialect.
pub open spec fn exchange_text(instrument: InstrumentView, exchange_type: ExchangeType) -> Seq<
    char,
> {
    instrument_text(
        instrument.asset,
        expiry_text(instrument.expiration_date, exchange_type),
        instrument.strike_price as int,
        instrument.instrument_type,
        exchange_type,
    )
}

/// In the four-part dialect, asset and expiry of the ASCII range come out
/// with capitals for their small letters, and strike and type as they are.
pub proof fn lemma_upper_text(asset: Seq<char>, date: Seq<char>, strike: int, kind: InstrumentType)
    ensures
        instrument_text(asset, date, strike, kind, ExchangeType::Delibris) == uppercased(asset)
            + seq!['-'] + uppercased(date) + seq!['-'] + decimal_text(strike) + seq!['-'] + seq![
            kind.letter(),
        ],
        all_ascii(asset) && all_ascii(date) ==> instrument_text(
            asset,
            date,
            strike,
            kind,
            ExchangeType::Delibris,
        ) == hyphenated(ascii_uppercased(asset), ascii_uppercased(date), strike, kind),
{
    let hyphen = seq!['-'];
    let number = decimal_text(strike);
    let letter = seq![kind.letter()];
    let whole = hyphenated(asset, date, strike, kind);
    lemma_decimal_plain(strike);
    assert(all_plain(hyphen));
    assert(all_plain(letter));
    assert forall|i: int| 0 <= i < number.len() implies (#[trigger] number[i] as int) < 128 by {
        assert(is_plain(number[i]));
    }
    lemma_uppercased_ascii(hyphen);
    lemma_uppercased_ascii(number);
    lemma_uppercased_ascii(letter);
    lemma_uppercased_concat(asset, hyphen);
    lemma_uppercased_concat(asset + hyphen, date);
    lemma_uppercased_concat(asset + hyphen + date, hyphen);
    lemma_uppercased_concat(asset + hyphen + date + hyphen, number);
    lemma_uppercased_concat(asset + hyphen + date + hyphen + number, hyphen);
    lemma_uppercased_concat(asset + hyphen + date + hyphen + number + hyphen, letter);
    if all_ascii(asset) && all_ascii(date) {
        lemma_uppercased_ascii(asset);
        lemma_uppercased_ascii(date);
    }
}

/// An existing date is written in characters of the ASCII range; in
/// capitals, the four-part dialect's text is two digits, three capitals and
/// two digits.
pub proof fn lemma_expiry_ascii(date: CalendarDate)
    requires
        date.wf(),
    ensures
        all_ascii(day_month_year_text(date)),
        all_plain(year_month_day_text(date)),
        day_month_year_text(date).len() == 7,
        year_month_day_text(date).len() == 6,
{
    let month = month_abbreviation(date.month as int);
    assert(month.len() == 3);
    assert((month[0] as int) < 128 && (month[1] as int) < 128 && (month[2] as int) < 128);
    let a = day_month_year_text(date);
    assert forall|i: int| 0 <= i < a.len() implies (#[trigger] a[i] as int) < 128 by {
        if 2 <= i < 5 {
            assert(a[i] == month[i - 2]);
        }
    }
    let b = year_month_day_text(date);
    assert forall|i: int| 0 <= i < b.len() implies is_plain(#[trigger] b[i]) by {}
}

/// Whether a reading and its model agree.
pub open spec fn reads_as(r: Result<Instrument, ParseError>, model: Parsed) -> bool {
    match (r, model) {
        (Ok(i), Ok(v)) => i@ == v,
        (Err(e), Err(f)) => e@ == f,
        _ => false,
    }
}

impl InstrumentView {
    /// The expiry is a day that exists.
    pub open spec fn wf(&self) -> bool {
        self.expiration_date.wf()
    }

    /// The same contract with the asset cut down to what stands before its
    /// first hyphen.
    pub open spec fn singular(&self) -> InstrumentView {
        InstrumentView { asset: split(self.asset, '-')[0], ..*self }
    }
}

impl Instrument {
    /// The same contract with the asset cut down to what stands before its
    /// first hyphen: `BTC` for `BTC-USD`.
    pub fn to_singular_asset(&self) -> (r: Instrument)
        ensures
            r@ == self@.singular(),
    {
        let mut parts = split_text(self.asset.as_str(), '-');
        assert(texts_view(parts@)[0] == parts@[0]@);
        let mut asset: String = String::new();
        core::mem::swap(&mut asset, &mut parts[0]);
        Instrument {
            asset,
            strike_price: self.strike_price,
            expiration_date: self.expiration_date,
            instrument_type: self.instrument_type,
        }
    }

    /// Reads an instrument string in a venue's dialect.
    pub fn from_exchange_string(input_str: &str, exchange_type: ExchangeType) -> (r: Result<
        Instrument,
        ParseError,
    >)
        ensures
            reads_as(r, instrument_of(input_str@, exchange_type)),
            r matches Ok(i) ==> i@.wf(),
    {
        match exchange_type {
            ExchangeType::Delibris => string_to_instrument_deribit(input_str),
            ExchangeType::Okex => string_to_instrument_okex(input_str),
        }
    }

    /// Writes the instrument in a venue's dialect. In the four-part dialect
    /// an asset of the ASCII range comes out with capitals for its small
    /// letters, and the month of the expiry in capitals.
    pub fn to_exchange_asset_str(&self, exchange_type: ExchangeType) -> (r: String)
        requires
            self@.wf(),
        ensures
            r@ == exchange_text(self@, exchange_type),
            exchange_type == ExchangeType::Delibris && all_ascii(self@.asset) ==> r@ == hyphenated(
                ascii_uppercased(self@.asset),
                ascii_uppercased(day_month_year_text(self@.expiration_date)),
                self@.strike_price as int,
                self@.instrument_type,
            ),
    {
        let date = match exchange_type {
            ExchangeType::Delibris => self.expiration_date.to_day_month_year(),
            ExchangeType::Okex => self.expiration_date.to_year_month_day(),
        };
        proof {
            lemma_expiry_ascii(self.expiration_date);
        }
        write_instrument(
            self.asset.as_str(),
            date.as_str(),
            self.strike_price,
            self.instrument_type,
            exchange_type,
        )
    }

    /// Builds the instrument of the parts of an instrument string, of which
    /// the expiry has been read already: the strike must be an integer and the
    /// last part must name a type.
    pub fn from_parts(asset: String, date: Option<CalendarDate>, strike: &str, kind: &str) -> (r:
        Result<Instrument, ParseError>)
        ensures
            reads_as(r, instrument_from(asset@, date, strike@, kind@)),
    {
        let day = match date {
            Some(day) => day,
            None => {
                return Err(ParseError::InvalidDate);
            },
        };
        let price = match parse_integer(strike) {
            Some(price) => price,
            None => {
                return Err(ParseError::InvalidStrike);
            },
        };
        match InstrumentType::from_given_str(kind) {
            Some(letter) => Ok(
                Instrument {
                    asset,
                    strike_price: price,
                    expiration_date: day,
                    instrument_type: letter,
                },
            ),
            None => Err(ParseError::UnsupportedInstrumentType(kind.to_owned())),
        }
    }
}

/// Writes asset, expiry text, strike and type as a venue's dialect has them:
/// with hyphens between them, and for the four-part dialect the whole in
/// upper case.
pub fn write_instrument(
    asset: &str,
    date: &str,
    strike: i64,
    kind: InstrumentType,
    exchange_type: ExchangeType,
) -> (r: String)
    ensures
        r@ == instrument_text(asset@, date@, strike as int, kind, exchange_type),
        exchange_type == ExchangeType::Delibris && all_ascii(asset@) && all_ascii(date@) ==> r@
            == hyphenated(ascii_uppercased(asset@), ascii_uppercased(date@), strike as int, kind),
{
    let number = write_integer(strike);
    let mut text = String::from_str(asset);
    text.push('-');
    text.append(date);
    text.push('-');
    text.append(number.as_str());
    text.push('-');
    text.push(kind.to_char());
    proof {
        assert(text@ =~= hyphenated(asset@, date@, strike as int, kind));
        lemma_upper_text(asset@, date@, strike as int, kind);
    }
    match exchange_type {
        ExchangeType::Delibris => to_upper(text.as_str()),
        ExchangeType::Okex => text,
    }
}

/// A number written in decimal is made of plain characters.
pub proof fn lemma_decimal_plain(n: int)
    ensures
        all_plain(decimal_text(n)),
{
    if n < 0 {
        lemma_digits_plain((-n) as nat);
        let d = digits_of((-n) as nat);
        let t = decimal_text(n);
        assert forall|i: int| 0 <= i < t.len() implies is_plain(#[trigger] t[i]) by {
            if i > 0 {
                assert(t[i] == d[i - 1]);
            }
        }
    } else {
        lemma_digits_plain(n as nat);
    }
}

/// The digits of a number are plain characters.
proof fn lemma_digits_plain(n: nat)
    ensures
        all_plain(digits_of(n)),
    decreases n,
{
    if n >= 10 {
        lemma_digits_plain(n / 10);
        let d = digits_of(n);
        assert forall|i: int| 0 <= i < d.len() implies is_plain(#[trigger] d[i]) by {
            if i < d.len() - 1 {
                assert(d[i] == digits_of(n / 10)[i]);
            }
        }
    }
}

/// Two digits are written back as they were read.
proof fn lemma_two_digits(tens: char, ones: char)
    requires
        is_digit(tens),
        is_digit(ones),
    ensures
        0 <= two_digit_value(tens, ones) <= 99,
        two_digits(two_digit_value(tens, ones)) == seq![tens, ones],
{
    let n = two_digit_value(tens, ones);
    assert(n / 10 == digit_value(tens) && n % 10 == digit_value(ones));
    assert(digit_char(digit_value(tens)) == tens);
    assert(digit_char(digit_value(ones)) == ones);
}

/// A date read from a text in the shape of the five-part dialect is written
/// as that text.
pub proof fn lemma_write_year_month_day(text: Seq<char>)
    requires
        is_year_month_day(text),
        read_year_month_day(text) is Some,
    ensures
        year_month_day_text(read_year_month_day(text).unwrap()) == text,
{
    lemma_two_digits(text[0], text[1]);
    lemma_two_digits(text[2], text[3]);
    lemma_two_digits(text[4], text[5]);
    let date = read_year_month_day(text).unwrap();
    assert((date.year as int) % 100 == two_digit_value(text[0], text[1]));
    assert(year_month_day_text(date) =~= text);
}

/// A date read from a text in the shape of the four-part dialect is written,
/// in capitals, as that text in capitals.
pub proof fn lemma_write_day_month_year(text: Seq<char>)
    requires
        is_day_month_year(text),
        read_day_month_year(text) is Some,
    ensures
        ascii_uppercased(day_month_year_text(read_day_month_year(text).unwrap()))
            == ascii_uppercased(text),
{
    lemma_two_digits(text[0], text[1]);
    lemma_two_digits(text[5], text[6]);
    let date = read_day_month_year(text).unwrap();
    let month = month_number(text[2], text[3], text[4]);
    let letters = month_abbreviation(month);
    assert((date.year as int) % 100 == two_digit_value(text[5], text[6]));
    assert(ascii_upper(letters[0]) == ascii_upper(text[2]) && ascii_upper(letters[1])
        == ascii_upper(text[3]) && ascii_upper(letters[2]) == ascii_upper(text[4]));
    let written = day_month_year_text(date);
    assert(written.len() == 7);
    assert(written[0] == text[0] && written[1] == text[1] && written[5] == text[5] && written[6]
        == text[6]);
    assert(written[2] == letters[0] && written[3] == letters[1] && written[4] == letters[2]);
    assert(ascii_uppercased(written) =~= ascii_uppercased(text));
}

/// Reading an instrument string and writing what was read gives the string
/// back, in either dialect, where the string writes its strike plainly and
/// its expiry in the dialect's shape; the four-part dialect, which is written
/// in upper case, also asks for an asset and a month in upper case.
pub proof fn lemma_write_after_read(text: Seq<char>, exchange_type: ExchangeType)
    requires
        instrument_of(text, exchange_type) is Ok,
    ensures
        ({
            let read = instrument_of(text, exchange_type)->Ok_0;
            let parts = split(text, '-');
            match exchange_type {
                ExchangeType::Delibris => {
                    uppercased(read.asset) == read.asset && is_day_month_year(parts[1])
                        && ascii_uppercased(parts[1]) == parts[1] && plainly_written(parts[2])
                        ==> exchange_text(read, exchange_type) == text
                },
                ExchangeType::Okex => {
                    is_year_month_day(parts[2]) && plainly_written(parts[3]) ==> exchange_text(
                        read,
                        exchange_type,
                    ) == text
                },
            }
        }),
{
    let parts = split(text, '-');
    let read = instrument_of(text, exchange_type)->Ok_0;
    lemma_join_split(text, '-');
    match exchange_type {
        ExchangeType::Delibris => {
            assert(parts.len() == 4);
            lemma_join_four(parts, '-');
            assert(parts[3] =~= seq![read.instrument_type.letter()]);
            if uppercased(read.asset) == read.asset && is_day_month_year(parts[1])
                && ascii_uppercased(parts[1]) == parts[1] && plainly_written(parts[2]) {
                lemma_write_after_parse(parts[2]);
                lemma_write_day_month_year(parts[1]);
                let written = day_month_year_text(read.expiration_date);
                assert(read.expiration_date.wf());
                lemma_expiry_ascii(read.expiration_date);
                lemma_uppercased_ascii(written);
                lemma_upper_text(
                    read.asset,
                    written,
                    read.strike_price as int,
                    read.instrument_type,
                );
            }
        },
        ExchangeType::Okex => {
            assert(parts.len() == 5);
            lemma_join_five(parts, '-');
            assert(parts[4] =~= seq![read.instrument_type.letter()]);
            if is_year_month_day(parts[2]) && plainly_written(parts[3]) {
                lemma_write_after_parse(parts[3]);
                lemma_write_year_month_day(parts[2]);
            }
        },
    }
}

/// Four parts joined, written out.
proof fn lemma_join_four(parts: Seq<Seq<char>>, sep: char)
    requires
        parts.len() == 4,
    ensures
        join(parts, sep) == parts[0] + seq![sep] + parts[1] + seq![sep] + parts[2] + seq![sep]
            + parts[3],
{
    let three = parts.drop_last();
    let two = three.drop_last();
    let one = two.drop_last();
    assert(join(one, sep) == parts[0]);
    assert(join(two, sep) == join(one, sep) + seq![sep] + parts[1]);
    assert(join(three, sep) == join(two, sep) + seq![sep] + parts[2]);
}

/// Five parts joined, written out.
proof fn lemma_join_five(parts: Seq<Seq<char>>, sep: char)
    requires
        parts.len() == 5,
    ensures
        join(parts, sep) == parts[0] + seq![sep] + parts[1] + seq![sep] + parts[2] + seq![sep]
            + parts[3] + seq![sep] + parts[4],
{
    let four = parts.drop_last();
    lemma_join_four(four, sep);
}

/// Cutting an asset of base, hyphen and more down to a single asset leaves
/// the base, and leaves every other field of the instrument as it was.
pub proof fn lemma_singular_asset(instrument: InstrumentView, base: Seq<char>, rest: Seq<char>)
    requires
        instrument.asset == base + seq!['-'] + rest,
        forall|i: int| 0 <= i < base.len() ==> base[i] != '-',
    ensures
        instrument.singular() == (InstrumentView { asset: base, ..instrument }),
{
    lemma_split_first(base, rest, '-');
}

/// An asset without a hyphen is single already.
pub proof fn lemma_singular_twice(instrument: InstrumentView)
    ensures
        instrument.singular().singular() == instrument.singular(),
{
    lemma_split_parts(instrument.asset, '-');
    let first = split(instrument.asset, '-')[0];
    assert forall|i: int| 0 <= i < first.len() implies first[i] != '-' by {}
    lemma_split_whole(first, '-');
}

} // verus!
