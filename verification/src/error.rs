//! The ways in which finding the changed tests can fail.

use vstd::prelude::*;
use vstd::string::StringExecFns;

verus! {

/// `std::io::Error`, carried through as it is: nothing inside it is read.
#[verifier::external_type_specification]
#[verifier::external_body]
pub struct ExIoError(std::io::Error);

/// Possible errors that can happen when trying to figure out the changed tests.
#[derive(Debug)]
pub enum ExtractNumberError {
    /// The repository could not be read: no HEAD, no diff, or no blob.
    GitError,
    /// A document of the working copy could not be read.
    Io(std::io::Error),
    /// A change names a line that the text it is read from does not have.
    OutOfRange,
}

/// `Display` of `std::io::Error`: the text that describes the error. Nothing
/// is claimed of that text.
#[verifier::external_body]
fn io_error_text(error: &std::io::Error) -> String {
    format!("{error}")
}

impl ExtractNumberError {
    /// A description of the error for the user.
    pub fn message(&self) -> (text: String)
        ensures
            self is GitError ==> text@ == "Failed to interact with git!"@,
            self is OutOfRange ==> text@ == "A changed line lies outside of its file!"@,
            self is Io ==> "IO Error: "@.is_prefix_of(text@),
    {
        match self {
            ExtractNumberError::GitError => String::from_str("Failed to interact with git!"),
            ExtractNumberError::OutOfRange => String::from_str(
                "A changed line lies outside of its file!",
            ),
            ExtractNumberError::Io(error) => {
                let detail = io_error_text(error);
                let text = String::from_str("IO Error: ").concat(detail.as_str());
                assert(text@.subrange(0, "IO Error: "@.len() as int) == "IO Error: "@);
                text
            },
        }
    }
}

impl From<std::io::Error> for ExtractNumberError {
    fn from(value: std::io::Error) -> (error: Self) {
        ExtractNumberError::Io(value)
    }
}

impl vstd::std_specs::convert::FromSpecImpl<std::io::Error> for ExtractNumberError {
    open spec fn obeys_from_spec() -> bool {
        true
    }

    open spec fn from_spec(value: std::io::Error) -> Self {
        ExtractNumberError::Io(value)
    }
}

} // verus!
