//! Errors of descriptor parsing and record decoding.
use vstd::prelude::*;
use vstd::string::StringExecFns;

use super::text::{numeral_string, numeral_text};

verus! {

/// A human-readable description of an error.
#[derive(Debug)]
pub struct ErrorMessage {
    pub msg: String,
}

/// Why one comma-separated descriptor token does not match the grammar
/// `[repeat] kind [width ['.' decimals]]`.
#[derive(Debug, Clone, Copy, PartialEq, Eq, Structural)]
pub enum FieldFault {
    /// The token holds no letter, so it names no kind.
    NoKind,
    /// The letter is none of `i`, `f`, `l`, `a`, `x` (in either case).
    UnknownKind,
    /// The text before the kind letter is not a decimal numeral.
    BadRepeat,
    /// The width text is empty or not a decimal numeral.
    BadWidth,
    /// The width is zero.
    ZeroWidth,
    /// The text after the decimal point is empty or not a decimal numeral.
    BadDecimals,
    /// A decimal point follows the width of a kind other than `f`.
    DecimalsNotAllowed,
}

#[derive(Debug, Clone, PartialEq, Eq)]
pub enum ParseFortranFormattedError {
    /// The header, once trimmed, is not enclosed in `(` and `)`.
    MalformedHeader,
    /// One descriptor token fails the grammar.
    MalformedField { token: String, reason: FieldFault },
    /// A field that must hold a value is blank.
    EmptyField,
    /// A logical field holds none of the recognised truth values.
    InvalidLogical,
    /// The line holds `actual` characters, fewer than the `expected` total
    /// width of the layout.
    LineTooShort { expected: usize, actual: usize },
    /// A numeric field holds text that is not a number of its kind.
    NumericParseFailure,
}

/// The mathematical value of a [`ParseFortranFormattedError`].
pub enum Failure {
    MalformedHeader,
    MalformedField { token: Seq<char>, reason: FieldFault },
    EmptyField,
    InvalidLogical,
    LineTooShort { expected: nat, actual: nat },
    NumericParseFailure,
}

impl View for ParseFortranFormattedError {
    type V = Failure;

    open spec fn view(&self) -> Failure {
        match self {
            ParseFortranFormattedError::MalformedHeader => Failure::MalformedHeader,
            ParseFortranFormattedError::MalformedField { token, reason } => Failure::MalformedField {
                token: token@,
                reason: *reason,
            },
            ParseFortranFormattedError::EmptyField => Failure::EmptyField,
            ParseFortranFormattedError::InvalidLogical => Failure::InvalidLogical,
            ParseFortranFormattedError::LineTooShort { expected, actual } => Failure::LineTooShort {
                expected: *expected as nat,
                actual: *actual as nat,
            },
            ParseFortranFormattedError::NumericParseFailure => Failure::NumericParseFailure,
        }
    }
}

impl FieldFault {
    pub open spec fn text(self) -> Seq<char> {
        match self {
            FieldFault::NoKind => "no kind letter"@,
            FieldFault::UnknownKind => "unknown kind letter"@,
            FieldFault::BadRepeat => "repeat count is not a number"@,
            FieldFault::BadWidth => "width is missing or not a number"@,
            FieldFault::ZeroWidth => "width is zero"@,
            FieldFault::BadDecimals => "decimals are missing or not a number"@,
            FieldFault::DecimalsNotAllowed => "decimals follow a kind other than f"@,
        }
    }

    /// Why the token fails, in words.
    pub fn describe(&self) -> (r: &'static str)
        ensures
            r@ == self.text(),
    {
        match self {
            FieldFault::NoKind => "no kind letter",
            FieldFault::UnknownKind => "unknown kind letter",
            FieldFault::BadRepeat => "repeat count is not a number",
            FieldFault::BadWidth => "width is missing or not a number",
            FieldFault::ZeroWidth => "width is zero",
            FieldFault::BadDecimals => "decimals are missing or not a number",
            FieldFault::DecimalsNotAllowed => "decimals follow a kind other than f",
        }
    }
}

impl Failure {
    pub open spec fn text(self) -> Seq<char> {
        match self {
            Failure::MalformedHeader => "format header must be enclosed in '(' and ')'"@,
            Failure::MalformedField { token, reason } => "malformed format token '"@ + token + "': "@
                + reason.text(),
            Failure::EmptyField => "empty field"@,
            Failure::InvalidLogical => "field holds no logical value"@,
            Failure::LineTooShort { expected, actual } => "line holds "@ + numeral_text(actual)
                + " characters, the format needs "@ + numeral_text(expected),
            Failure::NumericParseFailure => "field holds no number of its kind"@,
        }
    }
}

impl ParseFortranFormattedError {
    /// The error in words.
    pub fn message(&self) -> (r: ErrorMessage)
        ensures
            r.msg@ == self@.text(),
    {
        let msg = match self {
            ParseFortranFormattedError::MalformedHeader => {
                "format header must be enclosed in '(' and ')'".to_string()
            },
            ParseFortranFormattedError::MalformedField { token, reason } => {
                let mut m = "malformed format token '".to_string();
                m.append(token.as_str());
                m.append("': ");
                m.append(reason.describe());
                m
            },
            ParseFortranFormattedError::EmptyField => "empty field".to_string(),
            ParseFortranFormattedError::InvalidLogical => "field holds no logical value".to_string(),
            ParseFortranFormattedError::LineTooShort { expected, actual } => {
                let mut m = "line holds ".to_string();
                m.append(numeral_string(*actual).as_str());
                m.append(" characters, the format needs ");
                m.append(numeral_string(*expected).as_str());
                m
            },
            ParseFortranFormattedError::NumericParseFailure => {
                "field holds no number of its kind".to_string()
            },
        };
        ErrorMessage { msg }
    }
}

} // verus!
