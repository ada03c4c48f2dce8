//! The errors that the transform can report.

use vstd::prelude::*;
use vstd::string::StringExecFns;

verus! {

/// What can go wrong while a reference string is converted.
#[derive(Debug, Clone)]
pub enum InterpolationError {
    /// An internal conversion did not fit the native index type.
    InvalidParameters(String),
    /// A field element that had to be inverted was zero.
    FieldError(String),
    /// The length is no power of two, or the scalar field has no evaluation
    /// domain of that size.
    SizeError,
}

impl InterpolationError {
    /// The text that describes this error.
    pub open spec fn description(self) -> Seq<char> {
        match self {
            InterpolationError::InvalidParameters(s) => "Invalid parameters: "@ + s@,
            InterpolationError::FieldError(s) => "Field error: "@ + s@,
            InterpolationError::SizeError =>
                "Size error: the provided SRS size was not a power of two"@,
        }
    }

    /// Renders the error as text: a prefix that names the kind, followed by
    /// the detail that the variant carries.
    pub fn message(&self) -> (text: String)
        ensures
            text@ == self.description(),
    {
        match self {
            InterpolationError::InvalidParameters(s) => {
                String::from_str("Invalid parameters: ").concat(s.as_str())
            },
            InterpolationError::FieldError(s) => {
                String::from_str("Field error: ").concat(s.as_str())
            },
            InterpolationError::SizeError => {
                String::from_str("Size error: the provided SRS size was not a power of two")
            },
        }
    }
}

} // verus!
