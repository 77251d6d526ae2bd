use orderbook::error::ParseError;
use orderbook::exchanges::{string_to_instrument_deribit, string_to_instrument_okex, ExchangeType};
use orderbook::trading::instrument::{to_upper, write_instrument};
use orderbook::trading::{Instrument, InstrumentType};
use orderbook::utils::dates::CalendarDate;
use orderbook::utils::text::{parse_integer, split_text, write_integer};

#[test]
fn parsing_between_string_and_instrument_deribit_works() {
    let asset = "BTC-27APR24-56000-C";
    let date = CalendarDate::parse_from_str("27APR24", "%d%h%y").unwrap();
    let expected = Instrument {
        asset: "BTC".to_owned(),
        strike_price: 56000,
        expiration_date: date,
        instrument_type: InstrumentType::Call,
    };
    let inst = string_to_instrument_deribit(asset).unwrap();
    assert_eq!(inst, expected);

    let instr_to_str = inst.to_exchange_asset_str(ExchangeType::Delibris);
    assert_eq!(instr_to_str, asset);
}

#[test]
fn parsing_between_string_and_instrument_okex_works() {
    let asset = "BTC-USD-240427-56000-C";
    let date = CalendarDate::from_ymd_opt(2024, 4, 27).unwrap();
    let inst = string_to_instrument_okex(asset).unwrap();
    let expected = Instrument {
        asset: "BTC-USD".to_owned(),
        strike_price: 56000,
        expiration_date: date,
        instrument_type: InstrumentType::Call,
    };

    assert_eq!(inst, expected);

    let instr_to_str = inst.to_exchange_asset_str(ExchangeType::Okex);
    assert_eq!(instr_to_str, asset);
}

#[test]
fn instrument_parse_gives_the_fields_in_both_dialects() {
    let a = Instrument::from_exchange_string("BTC-27APR24-56000-C", ExchangeType::Delibris).unwrap();
    assert_eq!(a.asset, "BTC");
    assert_eq!(a.strike_price, 56000);
    assert_eq!(a.expiration_date, CalendarDate { year: 2024, month: 4, day: 27 });
    assert_eq!(a.instrument_type, InstrumentType::Call);
    assert_eq!(a.to_exchange_asset_str(ExchangeType::Delibris), "BTC-27APR24-56000-C");

    let b = Instrument::from_exchange_string("BTC-USD-240427-56000-C", ExchangeType::Okex).unwrap();
    assert_eq!(b.asset, "BTC-USD");
    assert_eq!(b.strike_price, 56000);
    assert_eq!(b.expiration_date, CalendarDate { year: 2024, month: 4, day: 27 });
    assert_eq!(b.instrument_type, InstrumentType::Call);
    assert_eq!(b.to_exchange_asset_str(ExchangeType::Okex), "BTC-USD-240427-56000-C");
}

#[test]
fn unknown_type_suffix_is_reported_with_the_suffix() {
    let err = Instrument::from_exchange_string("BTC-27APR24-56000-X", ExchangeType::Delibris)
        .unwrap_err();
    assert_eq!(err, ParseError::UnsupportedInstrumentType("X".to_owned()));
    assert_eq!(err.message(), "unsupported instrument type X");
}

#[test]
fn each_parse_error_has_an_input() {
    assert_eq!(
        string_to_instrument_deribit("BTC-27APR24-56000"),
        Err(ParseError::InvalidFormat)
    );
    assert_eq!(
        string_to_instrument_deribit("BTC-USD-27APR24-56000-C"),
        Err(ParseError::InvalidFormat)
    );
    assert_eq!(
        string_to_instrument_okex("BTC-240427-56000-C"),
        Err(ParseError::InvalidFormat)
    );
    assert_eq!(
        string_to_instrument_deribit("BTC-31FEB24-56000-C"),
        Err(ParseError::InvalidDate)
    );
    assert_eq!(
        string_to_instrument_okex("BTC-USD-241327-56000-C"),
        Err(ParseError::InvalidDate)
    );
    assert_eq!(
        string_to_instrument_deribit("BTC-27APR24-56k-C"),
        Err(ParseError::InvalidStrike)
    );
    assert_eq!(
        string_to_instrument_okex("BTC-USD-240427--C"),
        Err(ParseError::InvalidStrike)
    );
    assert_eq!(
        string_to_instrument_okex("BTC-USD-240427-56000-CALL"),
        Err(ParseError::UnsupportedInstrumentType("CALL".to_owned()))
    );
    assert_eq!(ParseError::InvalidFormat.message(), "Invalid asset format");
}

#[test]
fn the_first_part_that_fails_decides_the_error() {
    // bad date, bad strike and bad suffix together: the date is read first
    assert_eq!(
        string_to_instrument_deribit("BTC-99XYZ99-abc-X"),
        Err(ParseError::InvalidDate)
    );
    assert_eq!(
        string_to_instrument_deribit("BTC-27APR24-abc-X"),
        Err(ParseError::InvalidStrike)
    );
}

#[test]
fn put_suffix_and_negative_strike() {
    let i = string_to_instrument_okex("ETH-USD-250101--5-P").unwrap_err();
    // five hyphens make six parts
    assert_eq!(i, ParseError::InvalidFormat);
    let p = string_to_instrument_deribit("ETH-1JAN25-3000-P").unwrap();
    assert_eq!(p.instrument_type, InstrumentType::Put);
    assert_eq!(p.instrument_type.to_char(), 'P');
    assert_eq!(InstrumentType::from_given_str("P"), Some(InstrumentType::Put));
    assert_eq!(InstrumentType::from_given_str("C"), Some(InstrumentType::Call));
    assert_eq!(InstrumentType::from_given_str("c"), None);
    assert_eq!(InstrumentType::from_given_str(""), None);
    assert_eq!(InstrumentType::from_given_str("CP"), None);
    assert_eq!(InstrumentType::Call.to_char(), 'C');
    assert_eq!(InstrumentType::default(), InstrumentType::Call);
}

#[test]
fn writing_what_was_read_gives_the_string_back() {
    for s in ["BTC-27APR24-56000-C", "ETH-01JAN25-3000-P", "SOL-31DEC69-1-C"] {
        let i = Instrument::from_exchange_string(s, ExchangeType::Delibris).unwrap();
        assert_eq!(i.to_exchange_asset_str(ExchangeType::Delibris), s);
    }
    for s in ["BTC-USD-240427-56000-C", "eth-usdt-250101-3000-P", "X-Y-700101-0-C"] {
        let i = Instrument::from_exchange_string(s, ExchangeType::Okex).unwrap();
        assert_eq!(i.to_exchange_asset_str(ExchangeType::Okex), s);
    }
}

#[test]
fn a_strike_that_is_not_written_plainly_does_not_come_back() {
    let i = Instrument::from_exchange_string("BTC-USD-240427-056000-C", ExchangeType::Okex).unwrap();
    assert_eq!(i.strike_price, 56000);
    assert_eq!(i.to_exchange_asset_str(ExchangeType::Okex), "BTC-USD-240427-56000-C");
}

#[test]
fn the_four_part_dialect_is_written_in_upper_case() {
    let i = Instrument {
        asset: "btc".to_owned(),
        strike_price: 56000,
        expiration_date: CalendarDate::from_ymd_opt(2024, 4, 27).unwrap(),
        instrument_type: InstrumentType::Call,
    };
    assert_eq!(i.to_exchange_asset_str(ExchangeType::Delibris), "BTC-27APR24-56000-C");
    assert_eq!(i.to_exchange_asset_str(ExchangeType::Okex), "btc-240427-56000-C");
}

#[test]
fn singular_asset_keeps_what_stands_before_the_first_hyphen() {
    let i = Instrument::from_exchange_string("BTC-USD-240427-56000-C", ExchangeType::Okex).unwrap();
    let single = i.to_singular_asset();
    assert_eq!(single.asset, "BTC");
    assert_eq!(single.strike_price, i.strike_price);
    assert_eq!(single.expiration_date, i.expiration_date);
    assert_eq!(single.instrument_type, i.instrument_type);
    // an asset without a hyphen stays as it is
    assert_eq!(single.to_singular_asset(), single);
    let d = Instrument::from_exchange_string("BTC-27APR24-56000-C", ExchangeType::Delibris).unwrap();
    assert_eq!(single, d);
    // a leading hyphen leaves nothing
    let odd = Instrument { asset: "-USD".to_owned(), ..i.clone() };
    assert_eq!(odd.to_singular_asset().asset, "");
}

#[test]
fn instrument_default_and_equality() {
    let d = Instrument::default();
    assert_eq!(d.asset, "");
    assert_eq!(d.strike_price, 0);
    assert_eq!(d.expiration_date, CalendarDate { year: 1970, month: 1, day: 1 });
    assert_eq!(d.instrument_type, InstrumentType::Call);
    let other = Instrument { strike_price: 1, ..d.clone() };
    assert!(d.same_as(&d.clone()));
    assert!(!d.same_as(&other));
    let renamed = Instrument { asset: "A".to_owned(), ..d.clone() };
    assert!(!d.same_as(&renamed));
}

#[test]
fn calendar_dates() {
    assert_eq!(
        CalendarDate::from_ymd_opt(2024, 2, 29),
        Some(CalendarDate { year: 2024, month: 2, day: 29 })
    );
    assert_eq!(CalendarDate::from_ymd_opt(2023, 2, 29), None);
    assert_eq!(CalendarDate::from_ymd_opt(1900, 2, 29), None);
    assert!(CalendarDate::from_ymd_opt(2000, 2, 29).is_some());
    assert_eq!(CalendarDate::from_ymd_opt(2024, 4, 31), None);
    assert_eq!(CalendarDate::from_ymd_opt(2024, 0, 1), None);
    assert_eq!(CalendarDate::from_ymd_opt(2024, 13, 1), None);
    assert_eq!(CalendarDate::from_ymd_opt(2024, 1, 0), None);
    assert!(CalendarDate::from_ymd_opt(262142, 12, 31).is_some());
    assert_eq!(CalendarDate::from_ymd_opt(262143, 1, 1), None);
    assert!(CalendarDate::from_ymd_opt(-262143, 1, 1).is_some());
    assert_eq!(CalendarDate::from_ymd_opt(-262144, 12, 31), None);
    assert_eq!(
        CalendarDate::parse_from_str("240427", "%y%m%d"),
        Some(CalendarDate { year: 2024, month: 4, day: 27 })
    );
    assert_eq!(
        CalendarDate::parse_from_str("27APR24", "%d%h%y"),
        Some(CalendarDate { year: 2024, month: 4, day: 27 })
    );
    assert_eq!(CalendarDate::parse_from_str("240431", "%y%m%d"), None);
    assert_eq!(CalendarDate::parse_from_str("", "%y%m%d"), None);
    assert_eq!(CalendarDate::default(), CalendarDate { year: 1970, month: 1, day: 1 });
}

#[test]
fn integers_are_read_as_std_reads_them() {
    for s in [
        "0", "7", "56000", "-1", "+1", "007", "-0", "+0", "9223372036854775807",
        "-9223372036854775808", "9223372036854775808", "-9223372036854775809", "", "+", "-",
        "1 ", " 1", "1_000", "12a", "--1", "+-1", "1-", "99999999999999999999999999",
        "000000000000000000000000000000000000001", "٣",
    ] {
        assert_eq!(parse_integer(s), s.parse::<i64>().ok(), "reading {:?}", s);
    }
    assert_eq!(parse_integer("56000"), Some(56000));
    assert_eq!(parse_integer("-9223372036854775808"), Some(i64::MIN));
    assert_eq!(parse_integer("9223372036854775808"), None);
}

#[test]
fn integers_are_written_in_decimal() {
    for n in [0i64, 7, 10, 56000, -1, -10, 1234567890, i64::MAX, i64::MIN, 99, 100, -100] {
        assert_eq!(write_integer(n), n.to_string());
        assert_eq!(parse_integer(&write_integer(n)), Some(n));
    }
    assert_eq!(write_integer(-56000), "-56000");
}

#[test]
fn splitting_keeps_empty_parts() {
    assert_eq!(split_text("", '-'), vec!["".to_owned()]);
    assert_eq!(split_text("a", '-'), vec!["a".to_owned()]);
    assert_eq!(split_text("a-b", '-'), vec!["a".to_owned(), "b".to_owned()]);
    assert_eq!(split_text("-", '-'), vec!["".to_owned(), "".to_owned()]);
    assert_eq!(
        split_text("a--b-", '-'),
        vec!["a".to_owned(), "".to_owned(), "b".to_owned(), "".to_owned()]
    );
    for s in ["", "-", "a-b-c", "--", "BTC-USD-240427-56000-C", "é-ß"] {
        let expected: Vec<String> = s.split('-').map(|p| p.to_owned()).collect();
        assert_eq!(split_text(s, '-'), expected);
        assert_eq!(split_text(s, '-').join("-"), s);
    }
}

#[test]
fn parts_are_read_in_order() {
    let date = CalendarDate::from_ymd_opt(2024, 4, 27);
    let read = Instrument::from_parts("BTC".to_owned(), date, "56000", "C").unwrap();
    assert_eq!(
        read,
        Instrument {
            asset: "BTC".to_owned(),
            strike_price: 56000,
            expiration_date: CalendarDate { year: 2024, month: 4, day: 27 },
            instrument_type: InstrumentType::Call,
        }
    );
    let put = Instrument::from_parts("A-B".to_owned(), date, "-7", "P").unwrap();
    assert_eq!(put.strike_price, -7);
    assert_eq!(put.instrument_type, InstrumentType::Put);
    assert_eq!(put.asset, "A-B");
    assert_eq!(
        Instrument::from_parts("BTC".to_owned(), None, "x", "X"),
        Err(ParseError::InvalidDate)
    );
    assert_eq!(
        Instrument::from_parts("BTC".to_owned(), date, "x", "X"),
        Err(ParseError::InvalidStrike)
    );
    assert_eq!(
        Instrument::from_parts("BTC".to_owned(), date, "1", "X"),
        Err(ParseError::UnsupportedInstrumentType("X".to_owned()))
    );
}

#[test]
fn the_dialects_write_the_same_fields_differently() {
    assert_eq!(
        write_instrument("BTC", "27Apr24", 56000, InstrumentType::Call, ExchangeType::Delibris),
        "BTC-27APR24-56000-C"
    );
    assert_eq!(
        write_instrument("btc-usd", "240427", -5, InstrumentType::Put, ExchangeType::Delibris),
        "BTC-USD-240427--5-P"
    );
    assert_eq!(
        write_instrument("btc-usd", "240427", -5, InstrumentType::Put, ExchangeType::Okex),
        "btc-usd-240427--5-P"
    );
    assert_eq!(
        write_instrument("", "", 0, InstrumentType::Call, ExchangeType::Okex),
        "--0-C"
    );
    for s in ["", "abc", "AbC-09z", "straße", "éa", "ǆ"] {
        assert_eq!(to_upper(s), s.to_uppercase());
    }
    assert_eq!(to_upper("Apr"), "APR");
}

#[test]
fn dates_are_written_with_two_digits_each() {
    let date = CalendarDate::from_ymd_opt(2024, 4, 27).unwrap();
    assert_eq!(date.to_day_month_year(), "27Apr24");
    assert_eq!(date.to_year_month_day(), "240427");
    let early = CalendarDate::from_ymd_opt(2005, 1, 2).unwrap();
    assert_eq!(early.to_day_month_year(), "02Jan05");
    assert_eq!(early.to_year_month_day(), "050102");
    let names = [
        "Jan", "Feb", "Mar", "Apr", "May", "Jun", "Jul", "Aug", "Sep", "Oct", "Nov", "Dec",
    ];
    for (at, name) in names.iter().enumerate() {
        let month = at as u32 + 1;
        let date = CalendarDate::from_ymd_opt(1999, month, 9).unwrap();
        assert_eq!(date.to_day_month_year(), format!("09{}99", name));
        assert_eq!(date.to_year_month_day(), format!("99{:02}09", month));
        // the month is read in either case
        for text in [
            format!("09{}99", name),
            format!("09{}99", name.to_uppercase()),
            format!("09{}99", name.to_lowercase()),
        ] {
            assert_eq!(CalendarDate::parse_from_str(&text, "%d%h%y"), Some(date));
        }
        assert_eq!(CalendarDate::parse_from_str(&format!("99{:02}09", month), "%y%m%d"), Some(date));
    }
    // years outside their century keep their last two digits
    assert_eq!(CalendarDate::from_ymd_opt(1850, 12, 31).unwrap().to_year_month_day(), "501231");
    assert_eq!(CalendarDate::from_ymd_opt(-1, 3, 4).unwrap().to_day_month_year(), "04Mar99");
}

#[test]
fn two_digit_years_are_of_1970_to_2069() {
    for (text, year) in [("000101", 2000), ("690101", 2069), ("700101", 1970), ("990101", 1999)] {
        assert_eq!(
            CalendarDate::parse_from_str(text, "%y%m%d"),
            Some(CalendarDate { year, month: 1, day: 1 })
        );
    }
    assert_eq!(
        CalendarDate::parse_from_str("29FEB24", "%d%h%y"),
        Some(CalendarDate { year: 2024, month: 2, day: 29 })
    );
    for text in ["29FEB23", "00JAN24", "32JAN24", "31APR24", "27XYZ24"] {
        assert_eq!(CalendarDate::parse_from_str(text, "%d%h%y"), None, "{}", text);
    }
    for text in ["230229", "240001", "241301", "240100", "240132"] {
        assert_eq!(CalendarDate::parse_from_str(text, "%y%m%d"), None, "{}", text);
    }
}

#[test]
fn a_small_month_comes_back_in_capitals() {
    let i = Instrument::from_exchange_string("BTC-27apr24-56000-C", ExchangeType::Delibris).unwrap();
    assert_eq!(i.expiration_date, CalendarDate { year: 2024, month: 4, day: 27 });
    assert_eq!(i.to_exchange_asset_str(ExchangeType::Delibris), "BTC-27APR24-56000-C");
}
