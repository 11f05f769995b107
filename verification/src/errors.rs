//! The error every backend command reports: a message.
use vstd::prelude::*;
use crate::text::{IntErrorKind, int_error_message};

verus! {

/// An error with the message shown to the user.
#[derive(Debug)]
pub struct InError {
    pub a: String,
}

impl InError {
    /// An error with this message.
    pub fn new(message: &str) -> (res: InError)
        ensures
            res.a@ == message@,
    {
        InError { a: message.to_owned() }
    }

    /// The error for text that is not an integer (std's `ParseIntError`).
    pub fn from_int_error(kind: IntErrorKind) -> (res: InError)
        ensures
            res.a@ == int_error_message(kind),
    {
        match kind {
            IntErrorKind::Empty => InError::new("cannot parse integer from empty string"),
            IntErrorKind::InvalidDigit => InError::new("invalid digit found in string"),
            IntErrorKind::PosOverflow => InError::new("number too large to fit in target type"),
            IntErrorKind::NegOverflow => InError::new("number too small to fit in target type"),
        }
    }

    /// The message (what `Display` shows).
    pub fn to_string(&self) -> (res: String)
        ensures
            res@ == self.a@,
    {
        self.a.clone()
    }
}

/// The value of `option`, or an error when there is none.
pub fn ok<A>(option: Option<A>) -> (res: Result<A, InError>)
    ensures
        match option {
            Some(a) => res == Ok::<A, InError>(a),
            None => res matches Err(e) && e.a@ == "None in option"@,
        },
{
    match option {
        Some(a) => Ok(a),
        None => Err(InError::new("None in option")),
    }
}

} // verus!
