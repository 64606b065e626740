//! The ways in which a run can fail.

use vstd::prelude::*;
use vstd::string::StringExecFns;

verus! {

/// A field of a pull request that the run needs.
#[derive(Clone, Copy, Debug, PartialEq, Eq, Structural)]
pub enum Field {
    /// The description.
    Body,
    /// The title.
    Title,
}

/// Why no new title was made. Each of these ends the run.
#[derive(Clone, Copy, Debug, PartialEq, Eq, Structural)]
pub enum Error {
    /// The reference holds no digit.
    MalformedReference,
    /// The first run of digits in the reference is more than 64 bits hold.
    IdentifierOverflow,
    /// The digits of a closing reference are more than 64 bits hold.
    UnparseableCapture,
    /// The pull request came without the named field.
    MissingPrecondition(Field),
}

impl Error {
    /// The text of `message`.
    pub open spec fn message_text(self) -> Seq<char> {
        match self {
            Error::MalformedReference => "the reference holds no pull request number"@,
            Error::IdentifierOverflow => "the pull request number in the reference is too large"@,
            Error::UnparseableCapture => "an issue number in the description is too large"@,
            Error::MissingPrecondition(Field::Body) => "the pull request has no description"@,
            Error::MissingPrecondition(Field::Title) => "the pull request has no title"@,
        }
    }

    /// A sentence that names what went wrong.
    pub fn message(&self) -> (r: String)
        ensures
            r@ == self.message_text(),
    {
        match self {
            Error::MalformedReference => String::from_str(
                "the reference holds no pull request number",
            ),
            Error::IdentifierOverflow => String::from_str(
                "the pull request number in the reference is too large",
            ),
            Error::UnparseableCapture => String::from_str(
                "an issue number in the description is too large",
            ),
            Error::MissingPrecondition(Field::Body) => String::from_str(
                "the pull request has no description",
            ),
            Error::MissingPrecondition(Field::Title) => String::from_str(
                "the pull request has no title",
            ),
        }
    }
}

} // verus!
