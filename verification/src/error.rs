//! The errors that cross the boundary, and the text each one carries.

use vstd::prelude::*;
use vstd::string::*;

verus! {

/// A failure of one boundary call. Each is final for the call that met it.
#[derive(Debug, PartialEq)]
pub enum BridgeError {
    /// The codec rejected the input text; holds the codec's own message.
    Decode(String),
    /// A dynamic value of a kind the tagged model has no variant for; holds
    /// the textual form of that value.
    UnsupportedType(String),
    /// An object entry whose key is not a string.
    InvalidKey,
    /// The host refused to set a property on an object under construction;
    /// holds the host's description of the refusal.
    Assignment(String),
}

/// The mathematical content of a [`BridgeError`].
pub enum BridgeErrorView {
    Decode(Seq<char>),
    UnsupportedType(Seq<char>),
    InvalidKey,
    Assignment(Seq<char>),
}

impl View for BridgeError {
    type V = BridgeErrorView;

    open spec fn view(&self) -> BridgeErrorView {
        match self {
            BridgeError::Decode(detail) => BridgeErrorView::Decode(detail@),
            BridgeError::UnsupportedType(text) => BridgeErrorView::UnsupportedType(text@),
            BridgeError::InvalidKey => BridgeErrorView::InvalidKey,
            BridgeError::Assignment(detail) => BridgeErrorView::Assignment(detail@),
        }
    }
}

impl BridgeErrorView {
    /// The text that describes the error to the caller.
    pub open spec fn message(self) -> Seq<char> {
        match self {
            BridgeErrorView::Decode(detail) => "Parse error: "@ + detail,
            BridgeErrorView::UnsupportedType(text) => "Unsupported JavaScript type: "@ + text,
            BridgeErrorView::InvalidKey => "Object key must be string"@,
            BridgeErrorView::Assignment(detail) => "Failed to set object property: "@ + detail,
        }
    }
}

impl BridgeError {
    /// The text that describes the error to the caller: a fixed prefix that
    /// names the kind of failure, followed by the detail the error holds.
    pub fn message(&self) -> (text: String)
        ensures
            text@ == self@.message(),
    {
        match self {
            BridgeError::Decode(detail) => String::from_str("Parse error: ").concat(
                detail.as_str(),
            ),
            BridgeError::UnsupportedType(text) => String::from_str(
                "Unsupported JavaScript type: ",
            ).concat(text.as_str()),
            BridgeError::InvalidKey => String::from_str("Object key must be string"),
            BridgeError::Assignment(detail) => String::from_str(
                "Failed to set object property: ",
            ).concat(detail.as_str()),
        }
    }
}

} // verus!
