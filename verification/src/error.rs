use vstd::prelude::*;
use vstd::string::StringExecFns;

verus! {

/// The model of a parse error.
pub enum ParseFailure {
    InvalidFormat,
    InvalidDate,
    InvalidStrike,
    UnsupportedInstrumentType(Seq<char>),
}

/// Why an instrument string was not understood.
#[derive(Debug, PartialEq, Eq)]
pub enum ParseError {
    /// The string does not have the number of parts that the dialect asks for.
    InvalidFormat,
    /// The expiry is not a date of the dialect.
    InvalidDate,
    /// The strike is not a signed 64-bit integer in decimal.
    InvalidStrike,
    /// The last part, carried here, names no instrument type.
    UnsupportedInstrumentType(String),
}

impl View for ParseError {
    type V = ParseFailure;

    open spec fn view(&self) -> ParseFailure {
        match self {
            ParseError::InvalidFormat => ParseFailure::InvalidFormat,
            ParseError::InvalidDate => ParseFailure::InvalidDate,
            ParseError::InvalidStrike => ParseFailure::InvalidStrike,
            ParseError::UnsupportedInstrumentType(s) => ParseFailure::UnsupportedInstrumentType(
                s@,
            ),
        }
    }
}

impl ParseFailure {
    /// The text that describes the failure.
    pub open spec fn message(&self) -> Seq<char> {
        match self {
            ParseFailure::InvalidFormat => "Invalid asset format"@,
            ParseFailure::InvalidDate => "invalid expiration date"@,
            ParseFailure::InvalidStrike => "invalid strike price"@,
            ParseFailure::UnsupportedInstrumentType(s) => "unsupported instrument type "@ + *s,
        }
    }
}

impl ParseError {
    /// The text that describes the error.
    pub fn message(&self) -> (r: String)
        ensures
            r@ == self@.message(),
    {
        match self {
            ParseError::InvalidFormat => String::from_str("Invalid asset format"),
            ParseError::InvalidDate => String::from_str("invalid expiration date"),
            ParseError::InvalidStrike => String::from_str("invalid strike price"),
            ParseError::UnsupportedInstrumentType(s) => {
                let mut text = String::from_str("unsupported instrument type ");
                text.append(s.as_str());
                text
            },
        }
    }
}

/// No venue of the registry goes by the name that was asked for.
#[derive(Debug, PartialEq, Eq)]
pub struct UnknownExchange {
    pub name: String,
}

} // verus!
