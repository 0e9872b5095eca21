//! Errors of the two halves.

use vstd::prelude::*;
use vstd::string::StringExecFns;

verus! {

/// Why a literal could not be read from the head of the input.
///
/// Whatever the error, nothing of the input has been consumed: the caller
/// still holds the whole span and may try another grammar on it.
#[derive(Debug, Clone, Copy, PartialEq, Eq, Structural)]
pub enum ParseError {
    /// The input does not begin with the literal that was asked for.
    NoMatch,
    /// A quoted string was opened and the input ends before its closing quote.
    UnterminatedString,
    /// An exponent marker is not followed by a digit.
    MalformedExponent,
    /// An integer literal denotes a number that its type cannot hold.
    OutOfRange,
}

impl ParseError {
    /// Whether a caller that tries alternatives in turn may go on to the next.
    /// A malformed exponent is final: the input committed to a number.
    pub open spec fn recoverable(self) -> bool {
        self != ParseError::MalformedExponent
    }

    /// Tells whether a caller that tries alternatives in turn may go on to
    /// the next: not after a malformed exponent.
    pub fn is_recoverable(&self) -> (r: bool)
        ensures
            r == self.recoverable(),
    {
        match self {
            ParseError::MalformedExponent => false,
            _ => true,
        }
    }
}

/// Why a value could not be written.
///
/// The text form has no place for a value that is absent, for a unit, or
/// for a case of a tagged union that carries data; and a compound takes a
/// value only behind a key, and is closed only when no key waits.
#[derive(Debug, PartialEq, Eq)]
pub enum Error {
    /// An absent value.
    NoneValue,
    /// The unit value.
    UnitValue,
    /// A named type without fields; the name is kept.
    UnitStruct(String),
    /// A case of a tagged union that wraps one value.
    NewtypeVariant,
    /// A case of a tagged union that holds a tuple.
    TupleVariant,
    /// A case of a tagged union that holds named fields.
    StructVariant,
    /// A compound was handed a value while no key was pending.
    ValueBeforeKey,
    /// A compound was closed while a key waited for its value.
    KeyWithoutValue,
    /// The payload of a typed array does not divide into whole elements.
    PayloadLength,
}

impl Error {
    /// The message in words.
    pub open spec fn message_text(self) -> Seq<char> {
        match self {
            Error::NoneValue => "cannot serialize None"@,
            Error::UnitValue => "cannot serialize unit: ()"@,
            Error::UnitStruct(name) => "cannot serialize unit struct: "@ + name@,
            Error::NewtypeVariant => "cannot serialize newtype variant, please open fastnbt issue"@,
            Error::TupleVariant => "cannot serialize newtype tuple variant, please open fastnbt issue"@,
            Error::StructVariant => "cannot serialize struct variant, please open fastnbt issue"@,
            Error::ValueBeforeKey => "serialize_value called before serialize_key"@,
            Error::KeyWithoutValue => "end called before serialize_value"@,
            Error::PayloadLength => "typed array payload is not a whole number of elements"@,
        }
    }

    /// Describes the error in words.
    pub fn message(&self) -> (text: String)
        ensures
            text@ == self.message_text(),
    {
        match self {
            Error::NoneValue => String::from_str("cannot serialize None"),
            Error::UnitValue => String::from_str("cannot serialize unit: ()"),
            Error::UnitStruct(name) => String::from_str("cannot serialize unit struct: ").concat(
                name.as_str(),
            ),
            Error::NewtypeVariant => String::from_str(
                "cannot serialize newtype variant, please open fastnbt issue",
            ),
            Error::TupleVariant => String::from_str(
                "cannot serialize newtype tuple variant, please open fastnbt issue",
            ),
            Error::StructVariant => String::from_str(
                "cannot serialize struct variant, please open fastnbt issue",
            ),
            Error::ValueBeforeKey => String::from_str("serialize_value called before serialize_key"),
            Error::KeyWithoutValue => String::from_str("end called before serialize_value"),
            Error::PayloadLength => String::from_str(
                "typed array payload is not a whole number of elements",
            ),
        }
    }
}

} // verus!
