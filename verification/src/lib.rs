//! A bridge between a tagged value model, in which every scalar carries its
//! width and signedness, and a dynamic value model with a single numeric kind.
//!
//! Numbers of the dynamic model are IEEE 754 binary64 values. They are held
//! as their 64-bit patterns, so that every rule about them is a statement
//! about integers.

pub mod binary32;
pub mod binary64;
pub mod dynamic;
pub mod error;
pub mod inbound;
pub mod laws;
pub mod outbound;
pub mod rounding;
pub mod value;

use crate::dynamic::Dynamic;
use crate::error::{BridgeError, BridgeErrorView};
use crate::inbound::{inbound, js_to_value};
use crate::outbound::{outbound, value_to_js};
use crate::value::Value;
use vstd::prelude::*;

verus! {

/// A tagged value on its way to the codec, and the layout asked of it.
#[derive(Debug, PartialEq)]
pub struct Encoding {
    /// The value to be written as text.
    pub value: Value,
    /// Whether the text is to be indented over several lines.
    pub pretty: bool,
}

/// Turns the codec's answer to a text into a dynamic value.
///
/// `decoded` is what the codec made of the text: the tagged value, or the
/// codec's message where it rejected the text. A value is converted
/// outbound; a message becomes a decode error that holds it.
pub fn parse(decoded: Result<Value, String>) -> (result: Result<Dynamic, BridgeError>)
    ensures
        match decoded {
            Ok(v) => result is Ok && result->Ok_0@ == outbound(v@),
            Err(detail) => result is Err && result->Err_0@ == BridgeErrorView::Decode(detail@),
        },
{
    match decoded {
        Ok(v) => Ok(value_to_js(&v)),
        Err(detail) => Err(BridgeError::Decode(detail)),
    }
}

/// Whether `result` asks the codec for the tagged value that `value`
/// converts to, in the given layout, or is the failure of that conversion.
pub open spec fn encodes(
    result: Result<Encoding, BridgeError>,
    value: &Dynamic,
    pretty: bool,
) -> bool {
    match inbound(value@) {
        Ok(v) => result is Ok && result->Ok_0.value@ == v && result->Ok_0.pretty == pretty,
        Err(e) => result is Err && result->Err_0@ == e,
    }
}

/// Prepares a dynamic value for the codec's compact layout.
pub fn to_string_js(value: &Dynamic) -> (result: Result<Encoding, BridgeError>)
    ensures
        encodes(result, value, false),
{
    match js_to_value(value) {
        Ok(v) => Ok(Encoding { value: v, pretty: false }),
        Err(e) => Err(e),
    }
}

/// Prepares a dynamic value for the codec's indented layout.
pub fn to_string_pretty_js(value: &Dynamic) -> (result: Result<Encoding, BridgeError>)
    ensures
        encodes(result, value, true),
{
    match js_to_value(value) {
        Ok(v) => Ok(Encoding { value: v, pretty: true }),
        Err(e) => Err(e),
    }
}

} // verus!
