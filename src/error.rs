use vstd::prelude::*;

verus! {

/// Why a decimal number could not be read.
#[derive(Copy, Clone, PartialEq, Eq, Debug, Structural)]
pub enum NumberError {
    /// There were no characters to read.
    Empty,
    /// A character was not a decimal digit.
    InvalidDigit,
    /// The value does not fit the target integer type.
    Overflow,
}

/// A library error.
#[derive(Clone, PartialEq, Eq, Debug)]
pub enum CrontabError {
    /// Error parsing the crontab schedule.
    ErrCronFormat(String),
    /// Error parsing an integer in a crontab schedule.
    ErrParseInt(NumberError),
    /// When one of the cron schedule fields, or a UTC offset, is outside of
    /// the permitted range.
    FieldOutsideRange {
        /// Description of the error.
        description: String,
    },
}

/// The text of a number error.
pub open spec fn number_error_text(e: NumberError) -> Seq<char> {
    match e {
        NumberError::Empty => "cannot parse integer from empty string"@,
        NumberError::InvalidDigit => "invalid digit found in string"@,
        NumberError::Overflow => "number too large to fit in target type"@,
    }
}

/// The one-line description of an error: its kind in angle brackets, then
/// its text.
pub open spec fn error_message(e: CrontabError) -> Seq<char> {
    match e {
        CrontabError::ErrCronFormat(x) => "<ErrCronFormat> "@ + x@,
        CrontabError::ErrParseInt(n) => "<ErrParseInt> "@ + number_error_text(n),
        CrontabError::FieldOutsideRange { description } => "<FieldOutsideRange> "@ + description@,
    }
}

impl CrontabError {
    /// A one-line description of the error, naming its kind.
    pub fn message(&self) -> (r: String)
        ensures
            r@ == error_message(*self),
    {
        match self {
            CrontabError::ErrCronFormat(x) => String::from_str("<ErrCronFormat> ").concat(x.as_str()),
            CrontabError::ErrParseInt(e) => {
                let prefix = String::from_str("<ErrParseInt> ");
                match e {
                    NumberError::Empty => prefix.concat("cannot parse integer from empty string"),
                    NumberError::InvalidDigit => prefix.concat("invalid digit found in string"),
                    NumberError::Overflow => prefix.concat("number too large to fit in target type"),
                }
            },
            CrontabError::FieldOutsideRange { description } => String::from_str(
                "<FieldOutsideRange> ",
            ).concat(description.as_str()),
        }
    }
}

} // verus!
