use gbln_wasm::dynamic::{classify, Dynamic, Kind, Probe};
use gbln_wasm::error::BridgeError;
use gbln_wasm::inbound::js_to_value;
use gbln_wasm::outbound::value_to_js;
use gbln_wasm::value::Value;
use gbln_wasm::{parse, to_string_js, to_string_pretty_js, Encoding};

fn number(n: f64) -> Dynamic {
    Dynamic::Number(n.to_bits())
}

fn text(s: &str) -> Dynamic {
    Dynamic::Str(s.to_string())
}

fn object(entries: Vec<(&str, Dynamic)>) -> Dynamic {
    Dynamic::Object(entries.into_iter().map(|(k, v)| (text(k), v)).collect())
}

fn record(entries: Vec<(&str, Value)>) -> Value {
    Value::Object(entries.into_iter().map(|(k, v)| (k.to_string(), v)).collect())
}

#[test]
fn small_integers_round_trip() {
    for n in 0..=255u8 {
        assert_eq!(value_to_js(&Value::U8(n)), number(n as f64));
        assert_eq!(js_to_value(&value_to_js(&Value::U8(n))), Ok(Value::U8(n)));
        assert_eq!(js_to_value(&value_to_js(&Value::I64(n as i64))), Ok(Value::U8(n)));
        assert_eq!(js_to_value(&value_to_js(&Value::U32(n as u32))), Ok(Value::U8(n)));
    }
}

#[test]
fn inbound_narrowing_boundaries() {
    assert_eq!(js_to_value(&number(256.0)), Ok(Value::U16(256)));
    assert_eq!(js_to_value(&number(65536.0)), Ok(Value::U32(65536)));
    assert_eq!(js_to_value(&number(4294967296.0)), Ok(Value::U64(4294967296)));
    assert_eq!(js_to_value(&number(-129.0)), Ok(Value::I16(-129)));
    assert_eq!(js_to_value(&number(-1.0)), Ok(Value::I8(-1)));
}

#[test]
fn inbound_float_classification() {
    assert_eq!(js_to_value(&number(3.14)), Ok(Value::F64(3.14f64.to_bits())));
    assert_eq!(js_to_value(&number(3.0)), Ok(Value::U8(3)));
}

#[test]
fn null_and_undefined_collapse() {
    assert_eq!(js_to_value(&Dynamic::Null), Ok(Value::Null));
    assert_eq!(js_to_value(&Dynamic::Undefined), Ok(Value::Null));
}

#[test]
fn booleans_and_strings_keep_their_content() {
    assert_eq!(js_to_value(&Dynamic::Bool(true)), Ok(Value::Bool(true)));
    assert_eq!(js_to_value(&Dynamic::Bool(false)), Ok(Value::Bool(false)));
    assert_eq!(js_to_value(&text("Alice")), Ok(Value::Str("Alice".to_string())));
    assert_eq!(js_to_value(&text("")), Ok(Value::Str(String::new())));
}

#[test]
fn empty_containers() {
    assert_eq!(js_to_value(&Dynamic::Array(vec![])), Ok(Value::Array(vec![])));
    assert_eq!(js_to_value(&Dynamic::Object(vec![])), Ok(Value::Object(vec![])));
    assert_eq!(value_to_js(&Value::Array(vec![])), Dynamic::Array(vec![]));
    assert_eq!(value_to_js(&Value::Object(vec![])), Dynamic::Object(vec![]));
}

#[test]
fn container_recursion() {
    let dynamic = object(vec![(
        "a",
        Dynamic::Array(vec![number(1.0), number(2.0), object(vec![("b", number(3.0))])]),
    )]);
    let tagged = record(vec![(
        "a",
        Value::Array(vec![Value::U8(1), Value::U8(2), record(vec![("b", Value::U8(3))])]),
    )]);
    assert_eq!(js_to_value(&dynamic), Ok(tagged));
    let back = value_to_js(&js_to_value(&dynamic).unwrap());
    assert_eq!(back, dynamic);
}

#[test]
fn arrays_keep_their_order() {
    let dynamic = Dynamic::Array(vec![number(300.0), text("x"), Dynamic::Null, number(-7.0)]);
    assert_eq!(
        js_to_value(&dynamic),
        Ok(Value::Array(vec![
            Value::U16(300),
            Value::Str("x".to_string()),
            Value::Null,
            Value::I8(-7)
        ]))
    );
}

#[test]
fn a_repeated_key_keeps_its_place_and_takes_the_last_value() {
    let dynamic = object(vec![("a", number(1.0)), ("b", number(2.0)), ("a", number(3.0))]);
    assert_eq!(
        js_to_value(&dynamic),
        Ok(record(vec![("a", Value::U8(3)), ("b", Value::U8(2))]))
    );
}

#[test]
fn outbound_scalars() {
    assert_eq!(value_to_js(&Value::I8(-5)), number(-5.0));
    assert_eq!(value_to_js(&Value::I16(-300)), number(-300.0));
    assert_eq!(value_to_js(&Value::I32(i32::MIN)), number(-2147483648.0));
    assert_eq!(value_to_js(&Value::I64(-1)), number(-1.0));
    assert_eq!(value_to_js(&Value::U8(200)), number(200.0));
    assert_eq!(value_to_js(&Value::U16(65535)), number(65535.0));
    assert_eq!(value_to_js(&Value::U32(u32::MAX)), number(4294967295.0));
    assert_eq!(value_to_js(&Value::U64(123)), number(123.0));
    assert_eq!(value_to_js(&Value::F32(1.5f32.to_bits())), number(1.5));
    assert_eq!(value_to_js(&Value::F32(0.1f32.to_bits())), number(0.1f32 as f64));
    assert_eq!(value_to_js(&Value::F64(3.14f64.to_bits())), number(3.14));
    assert_eq!(value_to_js(&Value::Str("hi".to_string())), text("hi"));
    assert_eq!(value_to_js(&Value::Bool(true)), Dynamic::Bool(true));
    assert_eq!(value_to_js(&Value::Null), Dynamic::Null);
}

#[test]
fn outbound_containers() {
    let tagged = record(vec![
        ("list", Value::Array(vec![Value::I8(-1), Value::U64(7)])),
        ("name", Value::Str("n".to_string())),
    ]);
    let dynamic = object(vec![
        ("list", Dynamic::Array(vec![number(-1.0), number(7.0)])),
        ("name", text("n")),
    ]);
    assert_eq!(value_to_js(&tagged), dynamic);
}

#[test]
fn lossy_64_bit_round_trip() {
    // The number that stands for the largest 64-bit integer is 2^64, not the integer,
    // and what comes back is that number.
    let sent = Value::U64(18446744073709551615);
    let out = value_to_js(&sent);
    assert_eq!(out, number(18446744073709551616.0));
    assert_ne!(js_to_value(&out), Ok(Value::U64(18446744073709551615)));
    assert_eq!(js_to_value(&out), Ok(Value::F64(18446744073709551616.0f64.to_bits())));
    // Above 2^53 an integer between two numbers comes back as its neighbour.
    let sent = Value::U64(9007199254740993);
    let back = js_to_value(&value_to_js(&sent)).unwrap();
    assert_ne!(back, sent);
    assert_eq!(back, Value::U64(9007199254740992));
    let sent = Value::I64(-9007199254740993);
    let back = js_to_value(&value_to_js(&sent)).unwrap();
    assert_ne!(back, sent);
    assert_eq!(back, Value::I64(-9007199254740992));
    let sent = Value::U64(18446744073709551614);
    assert_ne!(js_to_value(&value_to_js(&sent)).unwrap(), sent);
}

#[test]
fn integers_near_the_64_bit_bounds_come_back_as_what_went_out() {
    for n in [u64::MAX, u64::MAX - 1, u64::MAX - 1023] {
        let back = js_to_value(&value_to_js(&Value::U64(n)));
        assert_eq!(back, Ok(Value::F64(18446744073709551616.0f64.to_bits())));
    }
    let back = js_to_value(&value_to_js(&Value::U64(u64::MAX - 1024)));
    assert_eq!(back, Ok(Value::U64(u64::MAX - 2047)));
    assert_eq!(js_to_value(&value_to_js(&Value::I64(i64::MIN))), Ok(Value::I64(i64::MIN)));
    assert_eq!(js_to_value(&value_to_js(&Value::I64(i64::MAX))), Ok(Value::U64(1 << 63)));
}

#[test]
fn exact_64_bit_round_trip() {
    assert_eq!(value_to_js(&Value::U64(100)), number(100.0));
    assert_eq!(js_to_value(&value_to_js(&Value::U64(100))), Ok(Value::U8(100)));
    let wide = Value::U64(1 << 40);
    assert_eq!(js_to_value(&value_to_js(&wide)), Ok(Value::U64(1 << 40)));
    let wide = Value::I64(-(1 << 40));
    assert_eq!(js_to_value(&value_to_js(&wide)), Ok(Value::I64(-(1 << 40))));
}

#[test]
fn a_key_that_is_no_string_is_an_invalid_key() {
    let dynamic = Dynamic::Object(vec![(number(1.0), number(2.0))]);
    assert_eq!(js_to_value(&dynamic), Err(BridgeError::InvalidKey));
    let nested = Dynamic::Array(vec![
        number(1.0),
        Dynamic::Object(vec![(text("ok"), Dynamic::Null), (Dynamic::Null, Dynamic::Null)]),
    ]);
    assert_eq!(js_to_value(&nested), Err(BridgeError::InvalidKey));
    assert_eq!(BridgeError::InvalidKey.message(), "Object key must be string");
}

#[test]
fn an_unsupported_kind_is_named_in_the_error() {
    let dynamic = Dynamic::Other("JsValue(Symbol(tag))".to_string());
    let error = js_to_value(&dynamic).unwrap_err();
    assert_eq!(error, BridgeError::UnsupportedType("JsValue(Symbol(tag))".to_string()));
    assert_eq!(error.message(), "Unsupported JavaScript type: JsValue(Symbol(tag))");
    let nested = object(vec![("f", Dynamic::Other("JsValue(Function)".to_string()))]);
    assert_eq!(
        js_to_value(&nested),
        Err(BridgeError::UnsupportedType("JsValue(Function)".to_string()))
    );
}

#[test]
fn the_first_failure_in_order_is_reported() {
    let dynamic = Dynamic::Array(vec![
        Dynamic::Other("first".to_string()),
        Dynamic::Object(vec![(Dynamic::Null, Dynamic::Null)]),
    ]);
    assert_eq!(js_to_value(&dynamic), Err(BridgeError::UnsupportedType("first".to_string())));
    let dynamic = Dynamic::Object(vec![
        (Dynamic::Bool(true), Dynamic::Other("value".to_string())),
        (text("k"), Dynamic::Other("later".to_string())),
    ]);
    assert_eq!(js_to_value(&dynamic), Err(BridgeError::InvalidKey));
}

#[test]
fn a_decode_failure_carries_the_codec_message() {
    let result = parse(Err("unexpected end of input at line 1".to_string()));
    let error = result.unwrap_err();
    assert_eq!(error, BridgeError::Decode("unexpected end of input at line 1".to_string()));
    assert_eq!(error.message(), "Parse error: unexpected end of input at line 1");
}

#[test]
fn an_assignment_failure_is_wrapped_with_context() {
    let error = BridgeError::Assignment("JsValue(TypeError)".to_string());
    assert_eq!(error.message(), "Failed to set object property: JsValue(TypeError)");
}

#[test]
fn end_to_end_example() {
    let decoded = record(vec![(
        "user",
        record(vec![("id", Value::U32(123)), ("name", Value::Str("Alice".to_string()))]),
    )]);
    let dynamic = parse(Ok(decoded)).unwrap();
    assert_eq!(
        dynamic,
        object(vec![("user", object(vec![("id", number(123.0)), ("name", text("Alice"))]))])
    );
    let encoding = to_string_js(&dynamic).unwrap();
    assert_eq!(
        encoding,
        Encoding {
            value: record(vec![(
                "user",
                record(vec![("id", Value::U8(123)), ("name", Value::Str("Alice".to_string()))]),
            )]),
            pretty: false,
        }
    );
}

#[test]
fn the_layout_is_the_one_asked_for() {
    let dynamic = Dynamic::Array(vec![number(1.0)]);
    assert!(!to_string_js(&dynamic).unwrap().pretty);
    assert!(to_string_pretty_js(&dynamic).unwrap().pretty);
    assert_eq!(to_string_pretty_js(&dynamic).unwrap().value, Value::Array(vec![Value::U8(1)]));
    let bad = Dynamic::Other("x".to_string());
    assert_eq!(to_string_js(&bad), Err(BridgeError::UnsupportedType("x".to_string())));
    assert_eq!(to_string_pretty_js(&bad), Err(BridgeError::UnsupportedType("x".to_string())));
}

fn probe() -> Probe {
    Probe {
        is_null: false,
        is_undefined: false,
        is_boolean: false,
        is_number: false,
        is_string: false,
        is_array: false,
        is_object: false,
    }
}

#[test]
fn an_array_is_classified_before_an_object() {
    assert_eq!(classify(&Probe { is_array: true, is_object: true, ..probe() }), Kind::Array);
    assert_eq!(classify(&Probe { is_object: true, ..probe() }), Kind::Object);
}

#[test]
fn kinds_are_tried_in_order() {
    assert_eq!(classify(&Probe { is_null: true, ..probe() }), Kind::Null);
    assert_eq!(classify(&Probe { is_undefined: true, ..probe() }), Kind::Undefined);
    assert_eq!(classify(&Probe { is_boolean: true, is_object: true, ..probe() }), Kind::Bool);
    assert_eq!(classify(&Probe { is_number: true, is_object: true, ..probe() }), Kind::Number);
    assert_eq!(classify(&Probe { is_string: true, is_object: true, ..probe() }), Kind::Str);
    assert_eq!(classify(&probe()), Kind::Other);
}

#[test]
fn dynamic_values_survive_a_round_trip() {
    let dynamic = object(vec![
        ("numbers", Dynamic::Array(vec![
            number(0.0),
            number(0.25),
            number(-40000.0),
            number(9007199254740994.0),
            number(-9223372036854775808.0),
            number(18446744073709551616.0),
            number(1e300),
            number(-1e300),
            number(f64::INFINITY),
        ])),
        ("flags", Dynamic::Array(vec![Dynamic::Bool(true), Dynamic::Null])),
        ("inner", object(vec![("name", text("Alice")), ("empty", Dynamic::Array(vec![]))])),
    ]);
    let tagged = js_to_value(&dynamic).unwrap();
    assert_eq!(value_to_js(&tagged), dynamic);
}

#[test]
fn some_dynamic_values_do_not_survive_a_round_trip() {
    let back = |d: &Dynamic| value_to_js(&js_to_value(d).unwrap());
    assert_eq!(back(&Dynamic::Undefined), Dynamic::Null);
    assert_eq!(back(&number(-0.0)), number(0.0));
    assert_eq!(
        back(&object(vec![("k", number(1.0)), ("k", number(2.0))])),
        object(vec![("k", number(2.0))])
    );
}

#[test]
fn integers_on_the_spacing_round_trip_exactly() {
    for n in [1u64 << 53, (1 << 53) + 2, (1 << 60) + 256, u64::MAX - 2047, 1 << 63] {
        assert_eq!(js_to_value(&value_to_js(&Value::U64(n))), Ok(Value::U64(n)));
    }
    for n in [(1u64 << 53) + 1, (1 << 60) + 255, u64::MAX - 1, u64::MAX, (1 << 63) + 1] {
        assert_ne!(js_to_value(&value_to_js(&Value::U64(n))), Ok(Value::U64(n)));
    }
}
