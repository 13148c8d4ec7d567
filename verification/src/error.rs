//! Why a token name in text form is rejected.

use vstd::prelude::*;
use vstd::string::*;

verus! {

/// The ways in which a token name in text form can be malformed.
#[derive(Copy, Clone, Debug, PartialEq, Eq, Structural)]
pub enum Error {
    /// A character that is neither an uppercase letter nor a separator.
    InvalidCharacter,
    /// A separator stands before the first letter.
    LeadingSeparator,
    /// Two separators stand next to each other.
    DoubleSeparator,
    /// A separator stands after the last letter, or the text has no letter.
    TrailingSeparator,
    /// The letters spell a number that does not fit in 128 bits.
    OutOfRange,
}

impl Error {
    /// The wording of the error, as a sequence of characters.
    pub open spec fn message(self) -> Seq<char> {
        match self {
            Error::InvalidCharacter => "invalid character"@,
            Error::LeadingSeparator => "leading spacer"@,
            Error::DoubleSeparator => "double spacer"@,
            Error::TrailingSeparator => "trailing spacer"@,
            Error::OutOfRange => "name out of range"@,
        }
    }

    /// The wording of the error.
    pub fn to_string(&self) -> (text: String)
        ensures
            text@ == self.message(),
    {
        match self {
            Error::InvalidCharacter => String::from_str("invalid character"),
            Error::LeadingSeparator => String::from_str("leading spacer"),
            Error::DoubleSeparator => String::from_str("double spacer"),
            Error::TrailingSeparator => String::from_str("trailing spacer"),
            Error::OutOfRange => String::from_str("name out of range"),
        }
    }
}

} // verus!
