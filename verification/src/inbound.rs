//! From the dynamic model to the tagged model.
//!
//! A dynamic number carries neither width nor sign, so the tagged variant
//! is inferred from the number alone: an integer that 64 bits hold becomes
//! the narrowest integer variant that holds it, unsigned from zero upward
//! and signed below; every other number stays a 64-bit float.

use crate::binary64::{integer_value, is_integral, to_integer};
use crate::dynamic;
use crate::dynamic::{Dynamic, DynamicView};
use crate::error::{BridgeError, BridgeErrorView};
use crate::laws::lemma_inbound_well_formed;
use crate::value;
use crate::value::{distinct_keys, has_key, key_index, put, Value, ValueView};
use vstd::prelude::*;

verus! {

/// Whether a 64-bit integer variant holds `n`: the signed one below zero,
/// the unsigned one from zero upward.
pub open spec fn in_range(n: int) -> bool {
    i64::MIN <= n <= u64::MAX
}

/// The narrowest integer variant that holds `n`: unsigned from zero upward,
/// signed below, and of the least width among 8, 16, 32 and 64 bits whose
/// range contains `n`.
pub open spec fn narrowest(n: int) -> ValueView
    recommends
        in_range(n),
{
    if n >= 0 {
        if n <= u8::MAX {
            ValueView::U8(n as u8)
        } else if n <= u16::MAX {
            ValueView::U16(n as u16)
        } else if n <= u32::MAX {
            ValueView::U32(n as u32)
        } else {
            ValueView::U64(n as u64)
        }
    } else {
        if n >= i8::MIN {
            ValueView::I8(n as i8)
        } else if n >= i16::MIN {
            ValueView::I16(n as i16)
        } else if n >= i32::MIN {
            ValueView::I32(n as i32)
        } else {
            ValueView::I64(n as i64)
        }
    }
}

/// The tagged value inferred for the number with the given bit pattern: the
/// narrowest integer variant for an integer that 64 bits hold, and the
/// 64-bit float with the same pattern for every other number.
pub open spec fn narrowed(bits: u64) -> ValueView {
    if is_integral(bits) && in_range(integer_value(bits)) {
        narrowest(integer_value(bits))
    } else {
        ValueView::F64(bits)
    }
}

/// Infers the tagged variant of a dynamic number from its bit pattern.
///
/// No integer variant is inferred for a number that none holds exactly: a
/// number with a fractional part, an infinity, a NaN, or an integer from
/// `2^64` upward or below `-2^63`.
pub fn narrow(bits: u64) -> (v: Value)
    ensures
        v@ == narrowed(bits),
{
    match to_integer(bits) {
        None => Value::F64(bits),
        Some((negative, m)) => {
            if !negative || m == 0 {
                if m <= 0xff {
                    Value::U8(m as u8)
                } else if m <= 0xffff {
                    Value::U16(m as u16)
                } else if m <= 0xffff_ffff {
                    Value::U32(m as u32)
                } else {
                    Value::U64(m)
                }
            } else {
                if m <= 0x80 {
                    Value::I8((-(m as i16)) as i8)
                } else if m <= 0x8000 {
                    Value::I16((-(m as i32)) as i16)
                } else if m <= 0x8000_0000 {
                    Value::I32((-(m as i64)) as i32)
                } else if m < 0x8000_0000_0000_0000 {
                    Value::I64(-(m as i64))
                } else if m == 0x8000_0000_0000_0000 {
                    Value::I64(i64::MIN)
                } else {
                    Value::F64(bits)
                }
            }
        },
    }
}

/// The tagged value that a dynamic value converts to, or the error that the
/// conversion meets first when it walks the tree depth first, in order.
pub open spec fn inbound(d: DynamicView) -> Result<ValueView, BridgeErrorView>
    decreases d,
{
    match d {
        DynamicView::Undefined => Ok(ValueView::Null),
        DynamicView::Null => Ok(ValueView::Null),
        DynamicView::Bool(b) => Ok(ValueView::Bool(b)),
        DynamicView::Number(bits) => Ok(narrowed(bits)),
        DynamicView::Str(s) => Ok(ValueView::Str(s)),
        DynamicView::Array(items) => match inbound_items(items) {
            Ok(converted) => Ok(ValueView::Array(converted)),
            Err(e) => Err(e),
        },
        DynamicView::Object(entries) => match inbound_entries(entries) {
            Ok(converted) => Ok(ValueView::Object(converted)),
            Err(e) => Err(e),
        },
        DynamicView::Other(text) => Err(BridgeErrorView::UnsupportedType(text)),
    }
}

/// The items of an array, converted in order; the first failure ends it.
pub open spec fn inbound_items(items: Seq<DynamicView>) -> Result<Seq<ValueView>, BridgeErrorView>
    decreases items,
{
    if items.len() == 0 {
        Ok(Seq::empty())
    } else {
        match inbound_items(items.drop_last()) {
            Err(e) => Err(e),
            Ok(converted) => match inbound(items.last()) {
                Err(e) => Err(e),
                Ok(v) => Ok(converted.push(v)),
            },
        }
    }
}

/// The entries of an object, converted in order; the first failure ends it.
/// Of each entry the key is looked at before the value, and a key that
/// comes again replaces the value it had.
pub open spec fn inbound_entries(entries: Seq<(DynamicView, DynamicView)>) -> Result<
    Seq<(Seq<char>, ValueView)>,
    BridgeErrorView,
>
    decreases entries,
{
    if entries.len() == 0 {
        Ok(Seq::empty())
    } else {
        match inbound_entries(entries.drop_last()) {
            Err(e) => Err(e),
            Ok(converted) => match entries.last().0 {
                DynamicView::Str(key) => match inbound(entries.last().1) {
                    Err(e) => Err(e),
                    Ok(v) => Ok(put(converted, key, v)),
                },
                _ => Err(BridgeErrorView::InvalidKey),
            },
        }
    }
}

/// A failure among the first items is the failure of the whole list.
pub proof fn lemma_items_failure(items: Seq<DynamicView>, n: int)
    requires
        0 <= n <= items.len(),
        inbound_items(items.take(n)) is Err,
    ensures
        inbound_items(items) == inbound_items(items.take(n)),
    decreases items.len() - n,
{
    if n < items.len() {
        assert(items.take(n + 1).drop_last() =~= items.take(n));
        lemma_items_failure(items, n + 1);
    } else {
        assert(items.take(n) =~= items);
    }
}

/// A failure among the first entries is the failure of the whole list.
pub proof fn lemma_entries_failure(entries: Seq<(DynamicView, DynamicView)>, n: int)
    requires
        0 <= n <= entries.len(),
        inbound_entries(entries.take(n)) is Err,
    ensures
        inbound_entries(entries) == inbound_entries(entries.take(n)),
    decreases entries.len() - n,
{
    if n < entries.len() {
        assert(entries.take(n + 1).drop_last() =~= entries.take(n));
        lemma_entries_failure(entries, n + 1);
    } else {
        assert(entries.take(n) =~= entries);
    }
}

/// Whether `result` is the outcome that `expected` describes: the same
/// value, or the same failure.
pub open spec fn agrees(
    result: Result<Value, BridgeError>,
    expected: Result<ValueView, BridgeErrorView>,
) -> bool {
    match expected {
        Ok(v) => result is Ok && result->Ok_0@ == v,
        Err(e) => result is Err && result->Err_0@ == e,
    }
}

/// Converts a dynamic value to a tagged value.
///
/// Null and undefined become `Null`; a boolean and a string keep their
/// content; a number becomes the variant that [`narrowed`] infers; an array
/// becomes an array of its converted items, in order; an object becomes an
/// object of its converted entries. The conversion fails on the first value
/// of an unsupported kind and on the first entry whose key is no string.
/// In a value that it gives, no object holds a key twice.
pub fn js_to_value(value: &Dynamic) -> (result: Result<Value, BridgeError>)
    ensures
        agrees(result, inbound(value@)),
        result is Ok ==> result->Ok_0@.well_formed(),
    decreases value,
{
    proof {
        lemma_inbound_well_formed(value@);
    }
    match value {
        Dynamic::Undefined => Ok(Value::Null),
        Dynamic::Null => Ok(Value::Null),
        Dynamic::Bool(b) => Ok(Value::Bool(*b)),
        Dynamic::Number(bits) => Ok(narrow(*bits)),
        Dynamic::Str(s) => Ok(Value::Str(s.clone())),
        Dynamic::Array(items) => {
            proof {
                dynamic::lemma_array_view(*items);
            }
            match convert_items(items) {
                Ok(converted) => {
                    proof {
                        value::lemma_array_view(converted);
                    }
                    Ok(Value::Array(converted))
                },
                Err(e) => Err(e),
            }
        },
        Dynamic::Object(entries) => {
            proof {
                dynamic::lemma_object_view(*entries);
            }
            match convert_entries(entries) {
                Ok(converted) => {
                    proof {
                        value::lemma_object_view(converted);
                    }
                    Ok(Value::Object(converted))
                },
                Err(e) => Err(e),
            }
        },
        Dynamic::Other(text) => Err(BridgeError::UnsupportedType(text.clone())),
    }
}

/// Converts the items of an array in order, up to the first failure.
fn convert_items(items: &Vec<Dynamic>) -> (result: Result<Vec<Value>, BridgeError>)
    ensures
        match inbound_items(dynamic::item_views(items@)) {
            Ok(converted) => result is Ok && value::item_views(result->Ok_0@) == converted,
            Err(e) => result is Err && result->Err_0@ == e,
        },
    decreases items,
{
    let ghost views = dynamic::item_views(items@);
    let mut converted: Vec<Value> = Vec::new();
    let mut i: usize = 0;
    assert(value::item_views(converted@) =~= Seq::empty());
    assert(views.take(0) =~= Seq::empty());
    while i < items.len()
        invariant
            i <= items.len(),
            views == dynamic::item_views(items@),
            inbound_items(views.take(i as int)) == Ok::<_, BridgeErrorView>(
                value::item_views(converted@),
            ),
        decreases items.len() - i,
    {
        proof {
            assert(views.take(i + 1).drop_last() =~= views.take(i as int));
            assert(views.take(i + 1).last() == items@[i as int]@);
        }
        match js_to_value(&items[i]) {
            Ok(v) => {
                let ghost before = value::item_views(converted@);
                converted.push(v);
                assert(value::item_views(converted@) =~= before.push(v@));
            },
            Err(e) => {
                proof {
                    lemma_items_failure(views, i + 1);
                }
                return Err(e);
            },
        }
        i += 1;
    }
    assert(views.take(i as int) =~= views);
    Ok(converted)
}

/// Sets `key` to `value` among the entries of an object under construction.
fn put_entry(entries: &mut Vec<(String, Value)>, key: String, value: Value)
    requires
        distinct_keys(value::entry_views(old(entries)@)),
    ensures
        value::entry_views(final(entries)@) == put(
            value::entry_views(old(entries)@),
            key@,
            value@,
        ),
{
    let ghost before = value::entry_views(entries@);
    let mut i: usize = 0;
    while i < entries.len()
        invariant
            i <= entries.len(),
            *entries == *old(entries),
            before == value::entry_views(entries@),
            distinct_keys(before),
            forall|j: int| 0 <= j < i ==> (#[trigger] before[j]).0 != key@,
        decreases entries.len() - i,
    {
        if entries[i].0 == key {
            assert(before[i as int].0 == key@);
            assert(has_key(before, key@));
            let ghost k = key_index(before, key@);
            assert(k == i) by {
                assert(0 <= k < before.len() && before[k].0 == key@);
                if k > i {
                    assert(before[i as int].0 != before[k].0);
                }
            }
            let ghost key_view = key@;
            let ghost value_view = value@;
            entries.set(i, (key, value));
            assert(value::entry_views(entries@) =~= before.update(
                i as int,
                (key_view, value_view),
            ));
            return ;
        }
        i += 1;
    }
    assert(!has_key(before, key@));
    let ghost key_view = key@;
    let ghost value_view = value@;
    entries.push((key, value));
    assert(value::entry_views(entries@) =~= before.push((key_view, value_view)));
}

/// Converts the entries of an object in order, up to the first failure.
fn convert_entries(entries: &Vec<(Dynamic, Dynamic)>) -> (result: Result<
    Vec<(String, Value)>,
    BridgeError,
>)
    ensures
        match inbound_entries(dynamic::entry_views(entries@)) {
            Ok(converted) => result is Ok && value::entry_views(result->Ok_0@) == converted,
            Err(e) => result is Err && result->Err_0@ == e,
        },
    decreases entries,
{
    let ghost views = dynamic::entry_views(entries@);
    let mut converted: Vec<(String, Value)> = Vec::new();
    let mut i: usize = 0;
    assert(value::entry_views(converted@) =~= Seq::empty());
    assert(views.take(0) =~= Seq::empty());
    while i < entries.len()
        invariant
            i <= entries.len(),
            views == dynamic::entry_views(entries@),
            inbound_entries(views.take(i as int)) == Ok::<_, BridgeErrorView>(
                value::entry_views(converted@),
            ),
            distinct_keys(value::entry_views(converted@)),
        decreases entries.len() - i,
    {
        proof {
            assert(views.take(i + 1).drop_last() =~= views.take(i as int));
            assert(views.take(i + 1).last() == (entries@[i as int].0@, entries@[i as int].1@));
        }
        match &entries[i].0 {
            Dynamic::Str(key) => match js_to_value(&entries[i].1) {
                Ok(v) => {
                    proof {
                        value::lemma_put_distinct(value::entry_views(converted@), key@, v@);
                    }
                    put_entry(&mut converted, key.clone(), v);
                },
                Err(e) => {
                    proof {
                        lemma_entries_failure(views, i + 1);
                    }
                    return Err(e);
                },
            },
            _ => {
                proof {
                    lemma_entries_failure(views, i + 1);
                }
                return Err(BridgeError::InvalidKey);
            },
        }
        i += 1;
    }
    assert(views.take(i as int) =~= views);
    Ok(converted)
}

} // verus!
