//! Why a hydration was given up.

use vstd::prelude::*;
use vstd::string::StringExecFns;

verus! {

/// The ways a hydration can fail. Every failure ends the whole request:
/// nothing is handed back half done.
#[derive(Clone, Copy, Debug, PartialEq, Eq, Structural)]
pub enum HydrateError {
    /// The bindings are no list of strings, or hold a name without a value.
    VariableParse,
    /// The template, once its placeholders are filled, has none of the
    /// supported message shapes.
    EnvelopeParse,
    /// A binary payload is not text.
    Decode,
    /// A binary payload is text but no JSON document.
    Parse,
    /// A hydrated document could not be written out again.
    Serialize,
    /// The payloads are nested deeper than the caller allowed.
    DepthExceeded,
}

impl HydrateError {
    /// A payload that fails this way was simply not a nested document.
    pub open spec fn not_a_document(self) -> bool {
        self == HydrateError::Decode || self == HydrateError::Parse
    }

    /// Exec twin of [`HydrateError::not_a_document`].
    pub fn is_not_a_document(&self) -> (b: bool)
        ensures
            b == self.not_a_document(),
    {
        match self {
            HydrateError::Decode => true,
            HydrateError::Parse => true,
            _ => false,
        }
    }

    /// The reason in words, for the caller to show.
    pub fn message(&self) -> (text: String)
        ensures
            text@ == match *self {
                HydrateError::VariableParse => "failed to read the variables as a list of name and value strings"@,
                HydrateError::EnvelopeParse => "failed to read the message as a supported message"@,
                HydrateError::Decode => "failed to decode a binary payload as text"@,
                HydrateError::Parse => "failed to read a binary payload as a document"@,
                HydrateError::Serialize => "failed to write a hydrated document"@,
                HydrateError::DepthExceeded => "binary payloads are nested too deep"@,
            },
    {
        match self {
            HydrateError::VariableParse => String::from_str(
                "failed to read the variables as a list of name and value strings",
            ),
            HydrateError::EnvelopeParse => String::from_str(
                "failed to read the message as a supported message",
            ),
            HydrateError::Decode => String::from_str("failed to decode a binary payload as text"),
            HydrateError::Parse => String::from_str("failed to read a binary payload as a document"),
            HydrateError::Serialize => String::from_str("failed to write a hydrated document"),
            HydrateError::DepthExceeded => String::from_str("binary payloads are nested too deep"),
        }
    }
}

} // verus!
