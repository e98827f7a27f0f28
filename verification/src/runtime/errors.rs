//! Error types returned by marshal/unmarshal/validate code.
use vstd::prelude::*;

use crate::text::{nat_text, string_from, usize_string};

verus! {

#[derive(Debug, Clone, PartialEq, Eq)]
#[allow(inconsistent_fields)]
pub enum AeatError {
    /// The serialized value does not fit in the declared field width.
    FieldOverflow { field: String, width: usize, got: usize },
    /// A required field was empty/missing at marshal time.
    MissingRequired { field: String },
    /// An invalid value for a field (e.g. not in `domain`).
    InvalidValue { field: String, value: String },
    /// The incoming byte buffer is shorter than `record_length`.
    ShortRecord { expected: usize, got: usize },
    /// The incoming byte buffer contains bytes that are not valid ISO-8859-1.
    /// Every byte is valid ISO-8859-1, so no function of the runtime returns it.
    InvalidEncoding,
    /// A fixed delimiter of the envelope (`<T130…>`, `<AUX>`, …) does not match.
    InvalidDelimiter { context: String, expected: String, got: String },
}

#[derive(Debug, Clone, Copy, PartialEq, Eq, Structural)]
pub enum Severity {
    Error,
    Warning,
}

#[derive(Debug, Clone, PartialEq, Eq)]
pub struct AeatDiagnostic {
    pub code: String,
    pub severity: Severity,
    pub message: String,
    pub field: Option<String>,
}

pub open spec fn is_field_overflow(e: AeatError, field: Seq<char>, width: int, got: int) -> bool {
    e matches AeatError::FieldOverflow { field: f, width: w, got: g } && f@ == field && w == width
        && g == got
}

pub open spec fn is_invalid_value(e: AeatError, field: Seq<char>, value: Seq<char>) -> bool {
    e matches AeatError::InvalidValue { field: f, value: v } && f@ == field && v@ == value
}

pub open spec fn is_short_record(e: AeatError, expected: int, got: int) -> bool {
    e matches AeatError::ShortRecord { expected: x, got: g } && x == expected && g == got
}

pub open spec fn is_invalid_delimiter(
    e: AeatError,
    context: Seq<char>,
    expected: Seq<char>,
    got: Seq<char>,
) -> bool {
    e matches AeatError::InvalidDelimiter { context: c, expected: x, got: g } && c@ == context
        && x@ == expected && g@ == got
}

/// The human-readable message of an error.
pub open spec fn error_message(e: AeatError) -> Seq<char> {
    match e {
        AeatError::FieldOverflow { field, width, got } => "field `"@ + field@
            + "`: value has "@ + nat_text(got as nat) + " chars but field width is "@ + nat_text(
            width as nat,
        ),
        AeatError::MissingRequired { field } => "field `"@ + field@ + "`: required value is empty"@,
        AeatError::InvalidValue { field, value } => "field `"@ + field@ + "`: invalid value `"@
            + value@ + "`"@,
        AeatError::ShortRecord { expected, got } => "record too short: expected "@ + nat_text(
            expected as nat,
        ) + " bytes, got "@ + nat_text(got as nat),
        AeatError::InvalidEncoding => "invalid ISO-8859-1 encoding"@,
        AeatError::InvalidDelimiter { context, expected, got } => "delimitador inválido en "@
            + context@ + ": esperaba `"@ + expected@ + "`, encontrado `"@ + got@ + "`"@,
    }
}

impl AeatError {
    /// The human-readable message of this error.
    pub fn to_string(&self) -> (res: String)
        ensures
            res@ == error_message(*self),
    {
        match self {
            AeatError::FieldOverflow { field, width, got } => {
                let mut m = string_from("field `");
                m.append(field.as_str());
                m.append("`: value has ");
                m.append(usize_string(*got).as_str());
                m.append(" chars but field width is ");
                m.append(usize_string(*width).as_str());
                m
            },
            AeatError::MissingRequired { field } => {
                let mut m = string_from("field `");
                m.append(field.as_str());
                m.append("`: required value is empty");
                m
            },
            AeatError::InvalidValue { field, value } => {
                let mut m = string_from("field `");
                m.append(field.as_str());
                m.append("`: invalid value `");
                m.append(value.as_str());
                m.append("`");
                m
            },
            AeatError::ShortRecord { expected, got } => {
                let mut m = string_from("record too short: expected ");
                m.append(usize_string(*expected).as_str());
                m.append(" bytes, got ");
                m.append(usize_string(*got).as_str());
                m
            },
            AeatError::InvalidEncoding => string_from("invalid ISO-8859-1 encoding"),
            AeatError::InvalidDelimiter { context, expected, got } => {
                let mut m = string_from("delimitador inválido en ");
                m.append(context.as_str());
                m.append(": esperaba `");
                m.append(expected.as_str());
                m.append("`, encontrado `");
                m.append(got.as_str());
                m.append("`");
                m
            },
        }
    }
}

} // verus!
