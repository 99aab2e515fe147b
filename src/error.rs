use vstd::prelude::*;

verus! {

/// Why an octal escape in a field could not be decoded.
#[derive(Debug, Clone, Copy, PartialEq, Eq, Structural)]
pub enum EscapeError {
    /// The field ended before three digits followed the backslash.
    Truncated,
    /// A byte after the backslash is not an octal digit.
    NotOctal,
}

/// Why a numeric field could not be read as a number.
#[derive(Debug, Clone, Copy, PartialEq, Eq, Structural)]
pub enum NumberError {
    /// The text is not an optional sign followed by decimal digits.
    Malformed,
    /// The number is well formed but does not fit the field's type.
    OutOfRange,
}

/// The fields of a mount line and of a swap line.
#[derive(Debug, Clone, Copy, PartialEq, Eq, Structural)]
pub enum Field {
    Source,
    Dest,
    FsType,
    Options,
    Dump,
    Pass,
    Kind,
    Size,
    Used,
    Priority,
}

/// The first failure met while parsing a table.
#[derive(Debug, Clone, Copy, PartialEq, Eq, Structural)]
pub enum ParseError {
    /// The line ended before this field.
    MissingField(Field),
    /// The line holds more fields than an entry has; the value is the
    /// number of fields found.
    TooManyFields(usize),
    /// This numeric field holds no valid number.
    InvalidField(Field, NumberError),
    /// A path field holds a broken octal escape.
    MalformedEscape(EscapeError),
    /// A decoded numeric field is not UTF-8 text.
    NonTextData,
}

} // verus!
