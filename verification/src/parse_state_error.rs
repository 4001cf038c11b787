//! The error raised when cells do not form a state.

use vstd::prelude::*;

verus! {

/// Why a matrix of cells was rejected as a state. The field is the reason, in
/// words.
#[derive(Debug)]
pub struct ParseStateError(pub String);

impl ParseStateError {
    /// The text shown for this error: the reason after a fixed prefix.
    pub fn message(&self) -> (text: String)
        ensures
            text@ == "Error parsing state: "@ + self.0@,
    {
        let mut text = "Error parsing state: ".to_string();
        text.append(self.0.as_str());
        text
    }
}

} // verus!
