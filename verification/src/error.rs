//! What can go wrong between a history and its encodings.

use vstd::prelude::*;

verus! {

/// A failure of the pipeline that is not a failure of reading or writing
/// files: those are the caller's.
#[derive(Debug, Clone, Copy, PartialEq, Eq)]
pub enum CrudError {
    /// The format `class` was handed a fragment of another kind than the
    /// kind `expected`, the one it works with.
    CapabilityMismatch { class: &'static str, expected: &'static str },
    /// The format `format` was asked for the capability `capability`, which
    /// it does not have.
    UnsupportedFormat { format: &'static str, capability: &'static str },
    /// Stored bytes are not an image that can be read.
    UnsupportedImage,
    /// Stored bytes are not text.
    InvalidText,
    /// An image is too large for this machine.
    ImageTooLarge,
    /// An image could not be encoded.
    EncodingFailed,
}

/// What an error says.
pub open spec fn error_text(error: CrudError) -> Seq<char> {
    match error {
        CrudError::CapabilityMismatch { class, expected } => class@
            + " Error: Invalid Render variant (TxtState), expected "@ + expected@,
        CrudError::UnsupportedFormat { format, capability } => format@ + " Error: no "@
            + capability@ + " for this format"@,
        CrudError::UnsupportedImage => "Unsupported image format"@,
        CrudError::InvalidText => "stream did not contain valid UTF-8"@,
        CrudError::ImageTooLarge => "Image is too large"@,
        CrudError::EncodingFailed => "Failed to encode PNG"@,
    }
}

impl CrudError {
    /// The error in words.
    pub fn message(&self) -> (text: String)
        ensures
            text@ == error_text(*self),
    {
        match *self {
            CrudError::CapabilityMismatch { class, expected } => {
                let mut text = class.to_string();
                text.append(" Error: Invalid Render variant (TxtState), expected ");
                text.append(expected);
                text
            },
            CrudError::UnsupportedFormat { format, capability } => {
                let mut text = format.to_string();
                text.append(" Error: no ");
                text.append(capability);
                text.append(" for this format");
                text
            },
            CrudError::UnsupportedImage => "Unsupported image format".to_string(),
            CrudError::InvalidText => "stream did not contain valid UTF-8".to_string(),
            CrudError::ImageTooLarge => "Image is too large".to_string(),
            CrudError::EncodingFailed => "Failed to encode PNG".to_string(),
        }
    }
}

} // verus!
