//! From the tagged model to the dynamic model.
//!
//! Every numeric variant becomes a dynamic number. The integers of up to 32
//! bits and both floats keep their value. A 64-bit integer is rounded to the
//! nearest number that the dynamic model can hold, which loses precision
//! above `2^53`.

use crate::binary32::{widen, widened};
use crate::binary64::{from_i64, from_integer, from_u64};
use crate::dynamic;
use crate::dynamic::{Dynamic, DynamicView};
use crate::value;
use crate::value::{Value, ValueView};
use vstd::prelude::*;

verus! {

/// The dynamic value that a tagged value converts to.
pub open spec fn outbound(v: ValueView) -> DynamicView
    decreases v,
{
    match v {
        ValueView::I8(n) => DynamicView::Number(from_integer(n as int)),
        ValueView::I16(n) => DynamicView::Number(from_integer(n as int)),
        ValueView::I32(n) => DynamicView::Number(from_integer(n as int)),
        ValueView::I64(n) => DynamicView::Number(from_integer(n as int)),
        ValueView::U8(n) => DynamicView::Number(from_integer(n as int)),
        ValueView::U16(n) => DynamicView::Number(from_integer(n as int)),
        ValueView::U32(n) => DynamicView::Number(from_integer(n as int)),
        ValueView::U64(n) => DynamicView::Number(from_integer(n as int)),
        ValueView::F32(bits) => DynamicView::Number(widened(bits)),
        ValueView::F64(bits) => DynamicView::Number(bits),
        ValueView::Str(s) => DynamicView::Str(s),
        ValueView::Bool(b) => DynamicView::Bool(b),
        ValueView::Null => DynamicView::Null,
        ValueView::Object(entries) => DynamicView::Object(
            Seq::new(
                entries.len(),
                |i: int|
                    if 0 <= i < entries.len() {
                        (DynamicView::Str(entries[i].0), outbound(entries[i].1))
                    } else {
                        (DynamicView::Undefined, DynamicView::Undefined)
                    },
            ),
        ),
        ValueView::Array(items) => DynamicView::Array(
            Seq::new(
                items.len(),
                |i: int|
                    if 0 <= i < items.len() {
                        outbound(items[i])
                    } else {
                        DynamicView::Undefined
                    },
            ),
        ),
    }
}

/// Converts a tagged value to a dynamic value.
///
/// A scalar becomes the dynamic scalar of its kind. An array becomes an
/// array of its converted items, in order. An object becomes an object with
/// one entry for each of its own, in order, the key as a dynamic string.
pub fn value_to_js(value: &Value) -> (result: Dynamic)
    ensures
        result@ == outbound(value@),
    decreases value,
{
    match value {
        Value::I8(n) => Dynamic::Number(from_i64(*n as i64)),
        Value::I16(n) => Dynamic::Number(from_i64(*n as i64)),
        Value::I32(n) => Dynamic::Number(from_i64(*n as i64)),
        Value::I64(n) => Dynamic::Number(from_i64(*n)),
        Value::U8(n) => Dynamic::Number(from_u64(*n as u64)),
        Value::U16(n) => Dynamic::Number(from_u64(*n as u64)),
        Value::U32(n) => Dynamic::Number(from_u64(*n as u64)),
        Value::U64(n) => Dynamic::Number(from_u64(*n)),
        Value::F32(bits) => Dynamic::Number(widen(*bits)),
        Value::F64(bits) => Dynamic::Number(*bits),
        Value::Str(s) => Dynamic::Str(s.clone()),
        Value::Bool(b) => Dynamic::Bool(*b),
        Value::Null => Dynamic::Null,
        Value::Object(entries) => {
            let converted: Vec<(Dynamic, Dynamic)> = convert_entries(entries);
            proof {
                value::lemma_object_view(*entries);
                dynamic::lemma_object_view(converted);
                assert(dynamic::entry_views(converted@) =~= outbound(value@)->Object_0);
            }
            Dynamic::Object(converted)
        },
        Value::Array(items) => {
            let converted: Vec<Dynamic> = convert_items(items);
            proof {
                value::lemma_array_view(*items);
                dynamic::lemma_array_view(converted);
                assert(dynamic::item_views(converted@) =~= outbound(value@)->Array_0);
            }
            Dynamic::Array(converted)
        },
    }
}

/// Converts the entries of an object, in order.
fn convert_entries(entries: &Vec<(String, Value)>) -> (converted: Vec<(Dynamic, Dynamic)>)
    ensures
        converted@.len() == entries@.len(),
        forall|j: int|
            0 <= j < entries@.len() ==> (#[trigger] converted@[j]).0@ == DynamicView::Str(
                entries@[j].0@,
            ) && converted@[j].1@ == outbound(entries@[j].1@),
    decreases entries,
{
    let mut converted: Vec<(Dynamic, Dynamic)> = Vec::new();
    let mut i: usize = 0;
    while i < entries.len()
        invariant
            i <= entries.len(),
            converted@.len() == i,
            forall|j: int|
                0 <= j < i ==> (#[trigger] converted@[j]).0@ == DynamicView::Str(entries@[j].0@)
                    && converted@[j].1@ == outbound(entries@[j].1@),
        decreases entries.len() - i,
    {
        let key: Dynamic = Dynamic::Str(entries[i].0.clone());
        let item: Dynamic = value_to_js(&entries[i].1);
        converted.push((key, item));
        i += 1;
    }
    converted
}

/// Converts the items of an array, in order.
fn convert_items(items: &Vec<Value>) -> (converted: Vec<Dynamic>)
    ensures
        converted@.len() == items@.len(),
        forall|j: int| 0 <= j < items@.len() ==> (#[trigger] converted@[j])@ == outbound(items@[j]@),
    decreases items,
{
    let mut converted: Vec<Dynamic> = Vec::new();
    let mut i: usize = 0;
    while i < items.len()
        invariant
            i <= items.len(),
            converted@.len() == i,
            forall|j: int| 0 <= j < i ==> (#[trigger] converted@[j])@ == outbound(items@[j]@),
        decreases items.len() - i,
    {
        let item: Dynamic = value_to_js(&items[i]);
        converted.push(item);
        i += 1;
    }
    converted
}

} // verus!
