//! What holds of the two conversions together.

use crate::binary64::{
    bit_length, from_integer, from_magnitude, integer_value, is_integral, lemma_bit_length_bounds,
    magnitude, sign_bit,
};
use crate::dynamic::DynamicView;
use crate::error::BridgeErrorView;
use crate::inbound::{
    in_range, inbound, inbound_entries, inbound_items, lemma_entries_failure, narrowed, narrowest,
};
use crate::outbound::outbound;
use crate::rounding::{
    lemma_bit_length_unique, lemma_from_integer_nearest, lemma_from_magnitude_nearest,
    lemma_magnitude_returns, lemma_sign_bit, spacing,
};
use crate::value::{distinct_keys, has_key, key_index, lemma_put_distinct, put, ValueView};
use vstd::arithmetic::div_mod::lemma_fundamental_div_mod;
use vstd::arithmetic::power2::{
    lemma2_to64, lemma2_to64_rest, lemma_pow2_pos, lemma_pow2_strictly_increases,
};
use vstd::prelude::*;

verus! {

/// Every integer of a magnitude below `2^64` goes out as an integral
/// number, and up to a magnitude of `2^53` comes back as the narrowest
/// variant that holds it.
pub proof fn lemma_integer_round_trip(n: int)
    requires
        -(u64::MAX as int) <= n <= u64::MAX,
    ensures
        is_integral(from_integer(n)),
        -0x20_0000_0000_0000 <= n <= 0x20_0000_0000_0000 ==> narrowed(from_integer(n))
            == narrowest(n),
{
    lemma_from_integer_nearest(n);
}

/// Which 64-bit unsigned integers come back from a round trip.
///
/// An integer that is a multiple of the spacing around it is a number of
/// the dynamic model and comes back as the narrowest variant that holds
/// it. No other integer comes back: it went out as its nearest neighbour,
/// and what comes back is that neighbour. The largest 64-bit integer goes
/// out as `2^64`, which no integer variant holds, and comes back as a float.
pub proof fn lemma_u64_round_trip(n: u64)
    ensures
        (n as nat) % spacing(n as nat) == 0 ==> inbound(outbound(ValueView::U64(n))) == Ok::<
            _,
            BridgeErrorView,
        >(narrowest(n as int)),
        (n as nat) % spacing(n as nat) != 0 ==> inbound(outbound(ValueView::U64(n))) != Ok::<
            _,
            BridgeErrorView,
        >(ValueView::U64(n)),
        n == u64::MAX ==> inbound(outbound(ValueView::U64(n))) == Ok::<_, BridgeErrorView>(
            ValueView::F64(from_integer(n as int)),
        ),
{
    let m = n as nat;
    let s = spacing(m);
    let v = magnitude(from_magnitude(m));
    lemma_from_magnitude_nearest(m);
    lemma_from_integer_nearest(n as int);
    lemma2_to64();
    lemma2_to64_rest();
    if bit_length(m) > 53 {
        lemma_pow2_pos((bit_length(m) - 53) as nat);
        lemma_bit_length_bounds(m);
        lemma_pow2_strictly_increases(53, bit_length(m));
    }
    assert(s >= 1);
    if n == u64::MAX {
        lemma_bit_length_unique(m, 64);
        assert(s == 0x800);
        assert(m % 0x800 == 0x7ff);
    }
    lemma_fundamental_div_mod(v as int, s as int);
    lemma_fundamental_div_mod(m as int, s as int);
    if m % s == 0 {
        let a = (v / s) as int;
        let b = (m / s) as int;
        assert(a == b) by (nonlinear_arith)
            requires
                v == s * a,
                m == s * b,
                2 * (v - m) <= s,
                2 * (m - v) <= s,
                s >= 1,
        ;
        assert(v == m);
    } else {
        assert(v != m);
        assert(bit_length(m) > 53);
        assert(m >= 0x10_0000_0000_0000);
        if n == u64::MAX {
            let a = (v / s) as int;
            assert(v == s * a + v % s);
            assert(v == 0x800 * a) by (nonlinear_arith)
                requires
                    v == s * a + 0,
                    s == 0x800,
            ;
            assert(m == 0xffff_ffff_ffff_ffff);
            assert(v >= 0xffff_ffff_ffff_fbff);
            assert(v > 0xffff_ffff_ffff_ffff) by (nonlinear_arith)
                requires
                    v == 0x800 * a,
                    v >= 0xffff_ffff_ffff_fbff,
            ;
        } else if v <= u64::MAX {
            assert(v >= 0x8_0000_0000_0000) by {
                assert(2 * (m - v) <= s);
                assert(s <= 0x800) by {
                    assert(bit_length(m) <= 64) by {
                        if bit_length(m) > 64 {
                            lemma_pow2_strictly_increases(64, (bit_length(m) - 1) as nat);
                        }
                    }
                    if bit_length(m) < 64 {
                        lemma_pow2_strictly_increases((bit_length(m) - 53) as nat, 11);
                    }
                }
            }
        }
    }
}

/// Every integer from 0 to 255, sent out from any integer variant that
/// holds it, comes back as the 8-bit unsigned variant that holds it.
pub proof fn lemma_small_integer_round_trip(n: u8)
    ensures
        inbound(outbound(ValueView::U8(n))) == Ok::<_, BridgeErrorView>(ValueView::U8(n)),
        inbound(outbound(ValueView::U16(n as u16))) == Ok::<_, BridgeErrorView>(ValueView::U8(n)),
        inbound(outbound(ValueView::U32(n as u32))) == Ok::<_, BridgeErrorView>(ValueView::U8(n)),
        inbound(outbound(ValueView::U64(n as u64))) == Ok::<_, BridgeErrorView>(ValueView::U8(n)),
        n <= 127 ==> inbound(outbound(ValueView::I8(n as i8))) == Ok::<_, BridgeErrorView>(
            ValueView::U8(n),
        ),
        inbound(outbound(ValueView::I16(n as i16))) == Ok::<_, BridgeErrorView>(ValueView::U8(n)),
        inbound(outbound(ValueView::I32(n as i32))) == Ok::<_, BridgeErrorView>(ValueView::U8(n)),
        inbound(outbound(ValueView::I64(n as i64))) == Ok::<_, BridgeErrorView>(ValueView::U8(n)),
{
    lemma_integer_round_trip(n as int);
}

/// The variant that narrowing infers, by the number's value.
///
/// An integer that 64 bits hold becomes an integer variant: unsigned from
/// zero upward, signed below, of the least width among 8, 16, 32 and 64
/// bits whose range contains the integer, and holding the integer itself.
/// Every other number stays the 64-bit float with the same pattern.
pub proof fn lemma_narrowing(bits: u64)
    ensures
        narrowed(bits) is F64 <==> !(is_integral(bits) && in_range(integer_value(bits))),
        narrowed(bits) is F64 ==> narrowed(bits) == ValueView::F64(bits),
        is_integral(bits) && in_range(integer_value(bits)) ==> {
            let n = integer_value(bits);
            &&& (0 <= n <= 0xff <==> narrowed(bits) == ValueView::U8(n as u8))
            &&& (0xff < n <= 0xffff <==> narrowed(bits) == ValueView::U16(n as u16))
            &&& (0xffff < n <= 0xffff_ffff <==> narrowed(bits) == ValueView::U32(n as u32))
            &&& (0xffff_ffff < n <==> narrowed(bits) == ValueView::U64(n as u64))
            &&& (-0x80 <= n < 0 <==> narrowed(bits) == ValueView::I8(n as i8))
            &&& (-0x8000 <= n < -0x80 <==> narrowed(bits) == ValueView::I16(n as i16))
            &&& (-0x8000_0000 <= n < -0x8000 <==> narrowed(bits) == ValueView::I32(n as i32))
            &&& (n < -0x8000_0000 <==> narrowed(bits) == ValueView::I64(n as i64))
        },
{
}

/// The numbers that come back unchanged when they are narrowed and sent out
/// again: every number but negative zero, which comes back as zero.
pub open spec fn number_survives(bits: u64) -> bool {
    bits != 0x8000_0000_0000_0000
}

/// A number that [`number_survives`] names is narrowed to a variant that
/// goes out as the same number.
pub proof fn lemma_number_returns(bits: u64)
    requires
        number_survives(bits),
    ensures
        outbound(narrowed(bits)) == DynamicView::Number(bits),
{
    if is_integral(bits) && in_range(integer_value(bits)) {
        let n = integer_value(bits);
        if sign_bit(bits) {
            let rest = (bits - 0x8000_0000_0000_0000) as u64;
            lemma_sign_bit(rest);
            lemma_magnitude_returns(rest);
            assert(magnitude(rest) > 0) by {
                if magnitude(rest) == 0 {
                    assert(bit_length(0) == 0);
                    assert(from_magnitude(0) == 0);
                }
            }
            assert(from_integer(n) == bits);
        } else {
            lemma_magnitude_returns(bits);
            assert(from_integer(n) == bits);
        }
        assert(outbound(narrowest(n)) == DynamicView::Number(from_integer(n)));
    }
}

/// Null and undefined both become the null variant.
pub proof fn lemma_null_and_undefined()
    ensures
        inbound(DynamicView::Null) == Ok::<_, BridgeErrorView>(ValueView::Null),
        inbound(DynamicView::Undefined) == Ok::<_, BridgeErrorView>(ValueView::Null),
{
}

/// A value of a kind that the tagged model has no variant for fails the
/// conversion, and the failure holds the value's textual form.
pub proof fn lemma_unsupported(text: Seq<char>)
    ensures
        inbound(DynamicView::Other(text)) == Err::<ValueView, _>(
            BridgeErrorView::UnsupportedType(text),
        ),
{
}

/// An object with a key that is no string fails the conversion. Where all
/// entries before that key convert, the failure is the invalid key.
pub proof fn lemma_invalid_key(entries: Seq<(DynamicView, DynamicView)>, i: int)
    requires
        0 <= i < entries.len(),
        !(entries[i].0 is Str),
    ensures
        inbound(DynamicView::Object(entries)) is Err,
        inbound_entries(entries.take(i)) is Ok ==> inbound(DynamicView::Object(entries)) == Err::<
            ValueView,
            _,
        >(BridgeErrorView::InvalidKey),
{
    let upto = entries.take(i + 1);
    assert(upto.drop_last() =~= entries.take(i));
    assert(upto.last() == entries[i]);
    assert(inbound_entries(upto) is Err);
    lemma_entries_failure(entries, i + 1);
}

/// An array whose items all convert becomes the array of the converted
/// items, each in its place.
pub proof fn lemma_array_of_converted(items: Seq<DynamicView>)
    requires
        forall|i: int| 0 <= i < items.len() ==> (#[trigger] inbound(items[i])) is Ok,
    ensures
        inbound_items(items) is Ok,
        inbound_items(items)->Ok_0.len() == items.len(),
        forall|i: int|
            0 <= i < items.len() ==> (#[trigger] inbound_items(items)->Ok_0[i]) == inbound(
                items[i],
            )->Ok_0,
        inbound(DynamicView::Array(items)) == Ok::<_, BridgeErrorView>(
            ValueView::Array(inbound_items(items)->Ok_0),
        ),
    decreases items.len(),
{
    if items.len() > 0 {
        let front = items.drop_last();
        assert forall|i: int| 0 <= i < front.len() implies (#[trigger] inbound(front[i])) is Ok by {
            assert(front[i] == items[i]);
            assert(inbound(items[i]) is Ok);
        }
        lemma_array_of_converted(front);
        assert(inbound(items.last()) is Ok) by {
            assert(items.last() == items[items.len() - 1]);
        }
    }
}

/// An object whose keys are all strings and whose values all convert
/// becomes an object.
pub proof fn lemma_object_of_converted(entries: Seq<(DynamicView, DynamicView)>)
    requires
        forall|i: int|
            0 <= i < entries.len() ==> (#[trigger] entries[i]).0 is Str && inbound(
                entries[i].1,
            ) is Ok,
    ensures
        inbound_entries(entries) is Ok,
        inbound(DynamicView::Object(entries)) is Ok,
    decreases entries.len(),
{
    if entries.len() > 0 {
        let front = entries.drop_last();
        assert forall|i: int| 0 <= i < front.len() implies (#[trigger] front[i]).0 is Str
            && inbound(front[i].1) is Ok by {
            assert(front[i] == entries[i]);
        }
        lemma_object_of_converted(front);
        assert(entries.last() == entries[entries.len() - 1]);
    }
}

/// Whatever the outbound conversion gives, the inbound conversion accepts.
pub proof fn lemma_outbound_converts_back(v: ValueView)
    ensures
        inbound(outbound(v)) is Ok,
    decreases v,
{
    match v {
        ValueView::Array(items) => {
            let out = outbound(v)->Array_0;
            assert forall|i: int| 0 <= i < out.len() implies (#[trigger] inbound(out[i])) is Ok by {
                lemma_outbound_converts_back(items[i]);
            }
            lemma_array_of_converted(out);
        },
        ValueView::Object(entries) => {
            let out = outbound(v)->Object_0;
            assert forall|i: int| 0 <= i < out.len() implies (#[trigger] out[i]).0 is Str
                && inbound(out[i].1) is Ok by {
                lemma_outbound_converts_back(entries[i].1);
            }
            lemma_object_of_converted(out);
        },
        _ => {},
    }
}

/// An object whose keys are distinct strings and whose values all convert
/// becomes an object with the same keys in the same order, each with its
/// converted value.
pub proof fn lemma_object_in_order(entries: Seq<(DynamicView, DynamicView)>)
    requires
        forall|i: int|
            0 <= i < entries.len() ==> (#[trigger] entries[i]).0 is Str && inbound(
                entries[i].1,
            ) is Ok,
        forall|i: int, j: int|
            0 <= i < j < entries.len() ==> (#[trigger] entries[i]).0 != (#[trigger] entries[j]).0,
    ensures
        inbound_entries(entries) is Ok,
        inbound_entries(entries)->Ok_0.len() == entries.len(),
        forall|i: int|
            0 <= i < entries.len() ==> (#[trigger] inbound_entries(entries)->Ok_0[i]) == (
                entries[i].0->Str_0,
                inbound(entries[i].1)->Ok_0,
            ),
        inbound(DynamicView::Object(entries)) == Ok::<_, BridgeErrorView>(
            ValueView::Object(inbound_entries(entries)->Ok_0),
        ),
    decreases entries.len(),
{
    if entries.len() > 0 {
        let front = entries.drop_last();
        let last = entries[entries.len() - 1];
        assert(entries.last() == last);
        assert forall|i: int| 0 <= i < front.len() implies (#[trigger] front[i]).0 is Str
            && inbound(front[i].1) is Ok by {
            assert(front[i] == entries[i]);
        }
        assert forall|i: int, j: int| 0 <= i < j < front.len() implies (#[trigger] front[i]).0 != (
        #[trigger] front[j]).0 by {
            assert(front[i] == entries[i]);
            assert(front[j] == entries[j]);
        }
        lemma_object_in_order(front);
        let converted = inbound_entries(front)->Ok_0;
        let key = last.0->Str_0;
        assert(!has_key(converted, key)) by {
            if has_key(converted, key) {
                let i = key_index(converted, key);
                assert(converted[i].0 == key);
                assert(front[i] == entries[i]);
                assert(entries[i].0 == DynamicView::Str(key));
                assert(entries[i].0 != last.0);
            }
        }
        let after = inbound_entries(entries)->Ok_0;
        assert(after == converted.push((key, inbound(last.1)->Ok_0)));
        assert forall|i: int| 0 <= i < entries.len() implies (#[trigger] after[i]) == (
            entries[i].0->Str_0,
            inbound(entries[i].1)->Ok_0,
        ) by {
            if i < front.len() {
                assert(after[i] == converted[i]);
                assert(front[i] == entries[i]);
            }
        }
    }
}

/// The dynamic values that come back unchanged from a round trip through
/// the tagged model: those without undefined and without a value of an
/// unsupported kind, whose numbers all return unchanged and whose objects
/// have strings for keys, none of them twice.
pub open spec fn survives(d: DynamicView) -> bool
    decreases d,
{
    match d {
        DynamicView::Undefined => false,
        DynamicView::Other(_) => false,
        DynamicView::Null => true,
        DynamicView::Bool(_) => true,
        DynamicView::Str(_) => true,
        DynamicView::Number(bits) => number_survives(bits),
        DynamicView::Array(items) => forall|i: int|
            0 <= i < items.len() ==> survives(#[trigger] items[i]),
        DynamicView::Object(entries) => {
            &&& forall|i: int|
                0 <= i < entries.len() ==> (#[trigger] entries[i]).0 is Str && survives(
                    entries[i].1,
                )
            &&& forall|i: int, j: int|
                0 <= i < j < entries.len() ==> (#[trigger] entries[i]).0 != (
                #[trigger] entries[j]).0
        },
    }
}

/// Inbound, then outbound, gives back every dynamic value that
/// [`survives`] names.
pub proof fn lemma_dynamic_round_trip(d: DynamicView)
    requires
        survives(d),
    ensures
        inbound(d) is Ok,
        outbound(inbound(d)->Ok_0) == d,
    decreases d,
{
    match d {
        DynamicView::Number(bits) => {
            lemma_number_returns(bits);
        },
        DynamicView::Array(items) => {
            assert forall|i: int| 0 <= i < items.len() implies (#[trigger] inbound(
                items[i],
            )) is Ok && outbound(inbound(items[i])->Ok_0) == items[i] by {
                lemma_dynamic_round_trip(items[i]);
            }
            lemma_array_of_converted(items);
            let converted = inbound_items(items)->Ok_0;
            assert(outbound(ValueView::Array(converted))->Array_0 =~= items);
        },
        DynamicView::Object(entries) => {
            assert forall|i: int| 0 <= i < entries.len() implies inbound(
                (#[trigger] entries[i]).1,
            ) is Ok && outbound(inbound(entries[i].1)->Ok_0) == entries[i].1 by {
                lemma_dynamic_round_trip(entries[i].1);
            }
            lemma_object_in_order(entries);
            let converted = inbound_entries(entries)->Ok_0;
            let back = outbound(ValueView::Object(converted))->Object_0;
            assert forall|i: int| 0 <= i < entries.len() implies back[i] == entries[i] by {
                assert(converted[i] == (entries[i].0->Str_0, inbound(entries[i].1)->Ok_0));
                assert(entries[i].0 == DynamicView::Str(entries[i].0->Str_0));
            }
            assert(back =~= entries);
        },
        _ => {},
    }
}

/// Setting a key to a well-formed value keeps all values well formed.
proof fn lemma_put_well_formed(
    entries: Seq<(Seq<char>, ValueView)>,
    key: Seq<char>,
    value: ValueView,
)
    requires
        forall|i: int| 0 <= i < entries.len() ==> (#[trigger] entries[i]).1.well_formed(),
        value.well_formed(),
    ensures
        forall|i: int|
            0 <= i < put(entries, key, value).len() ==> (#[trigger] put(
                entries,
                key,
                value,
            )[i]).1.well_formed(),
{
    let after = put(entries, key, value);
    assert forall|i: int| 0 <= i < after.len() implies (#[trigger] after[i]).1.well_formed() by {
        if i < entries.len() && after[i] != (key, value) {
            assert(after[i] == entries[i]);
        }
    }
}

/// The converted items of an array are well formed.
proof fn lemma_items_well_formed(items: Seq<DynamicView>)
    ensures
        inbound_items(items) is Ok ==> forall|i: int|
            0 <= i < inbound_items(items)->Ok_0.len() ==> (#[trigger] inbound_items(
                items,
            )->Ok_0[i]).well_formed(),
    decreases items,
{
    if items.len() > 0 {
        lemma_items_well_formed(items.drop_last());
        lemma_inbound_well_formed(items.last());
    }
}

/// The converted entries of an object have distinct keys and well-formed
/// values.
proof fn lemma_entries_well_formed(entries: Seq<(DynamicView, DynamicView)>)
    ensures
        inbound_entries(entries) is Ok ==> {
            &&& distinct_keys(inbound_entries(entries)->Ok_0)
            &&& forall|i: int|
                0 <= i < inbound_entries(entries)->Ok_0.len() ==> (#[trigger] inbound_entries(
                    entries,
                )->Ok_0[i]).1.well_formed()
        },
    decreases entries,
{
    if entries.len() > 0 {
        lemma_entries_well_formed(entries.drop_last());
        lemma_inbound_well_formed(entries.last().1);
        if inbound_entries(entries) is Ok {
            let front = inbound_entries(entries.drop_last())->Ok_0;
            let key = entries.last().0->Str_0;
            let v = inbound(entries.last().1)->Ok_0;
            lemma_put_distinct(front, key, v);
            lemma_put_well_formed(front, key, v);
        }
    }
}

/// Every tagged value that the inbound conversion gives is well formed: no
/// object in it holds a key twice.
pub proof fn lemma_inbound_well_formed(d: DynamicView)
    ensures
        inbound(d) is Ok ==> inbound(d)->Ok_0.well_formed(),
    decreases d,
{
    match d {
        DynamicView::Array(items) => {
            lemma_items_well_formed(items);
        },
        DynamicView::Object(entries) => {
            lemma_entries_well_formed(entries);
        },
        _ => {},
    }
}

} // verus!
