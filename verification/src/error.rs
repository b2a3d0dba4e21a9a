//! What can go wrong.

use vstd::prelude::*;
use vstd::string::*;

verus! {

/// Why a call failed.
#[derive(Debug, PartialEq, Eq)]
pub enum Error {
    /// The body was to be displayed as JSON and is not JSON; the text is the
    /// parser's message.
    BodyNotJson(String),
    /// The URL does not parse; the text is the parser's message.
    InvalidUrl(String),
    /// The selection of parts to display is not one to four of the letters
    /// `B`, `H`, `b` and `h`.
    InvalidPrint,
}

/// The message for a selection of parts that is not valid.
pub open spec fn invalid_print_message() -> Seq<char> {
    seq![
        'v', 'a', 'l', 'i', 'd', ' ', 'v', 'a', 'l', 'u', 'e', 's', ' ', 'a', 'r', 'e', ':', ' ',
        'B', 'H', 'b', 'h',
    ]
}

impl Error {
    /// The message of this error.
    pub open spec fn message_text(self) -> Seq<char> {
        match self {
            Error::BodyNotJson(m) => m@,
            Error::InvalidUrl(m) => m@,
            Error::InvalidPrint => invalid_print_message(),
        }
    }

    /// The message of this error, as it is shown to the user.
    pub fn message(&self) -> (m: String)
        ensures
            m@ == self.message_text(),
    {
        match self {
            Error::BodyNotJson(m) => m.clone(),
            Error::InvalidUrl(m) => m.clone(),
            Error::InvalidPrint => {
                proof {
                    reveal_strlit("valid values are: BHbh");
                }
                let m = String::from_str("valid values are: BHbh");
                assert(m@ =~= invalid_print_message());
                m
            },
        }
    }
}

} // verus!
