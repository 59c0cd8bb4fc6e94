use jmap_tools::{
    decode_events, decode_key, decode_string, DecodeError, DecodeEvent, Element, Key, KeyView,
    Null, Number, Property, Text, Value,
};

/// The events a JSON decoder announces for a parsed document.
fn events_of<'a>(v: &'a serde_json::Value, out: &mut Vec<DecodeEvent<'a>>) {
    match v {
        serde_json::Value::Null => out.push(DecodeEvent::Null),
        serde_json::Value::Bool(b) => out.push(DecodeEvent::Bool(*b)),
        serde_json::Value::Number(n) => {
            if let Some(u) = n.as_u64() {
                out.push(DecodeEvent::Unsigned(u));
            } else if let Some(i) = n.as_i64() {
                out.push(DecodeEvent::Signed(i));
            } else {
                out.push(DecodeEvent::Float(n.as_f64().unwrap().to_bits()));
            }
        }
        serde_json::Value::String(s) => out.push(DecodeEvent::Str(Text::Borrowed(s.as_str()))),
        serde_json::Value::Array(items) => {
            out.push(DecodeEvent::SeqStart);
            for item in items {
                events_of(item, out);
            }
            out.push(DecodeEvent::End);
        }
        serde_json::Value::Object(map) => {
            out.push(DecodeEvent::MapStart);
            for (k, item) in map {
                out.push(DecodeEvent::Key(Text::Borrowed(k.as_str())));
                events_of(item, out);
            }
            out.push(DecodeEvent::End);
        }
    }
}

fn decode<'a>(doc: &'a serde_json::Value) -> Value<'a, Null, Null> {
    let mut events = Vec::new();
    events_of(doc, &mut events);
    decode_events(&events).unwrap()
}

fn as_f64(v: &Value<'_, Null, Null>) -> Option<f64> {
    match v {
        Value::Number(n) => match n.float_bits() {
            Some(bits) => Some(f64::from_bits(bits)),
            None => n
                .as_u64()
                .map(|u| u as f64)
                .or_else(|| n.as_i64().map(|i| i as f64)),
        },
        _ => None,
    }
}

#[test]
fn deserialize_json_test() {
    let json_obj = r#"
            {
                "bool": true,
                "string_key": "string_val",
                "float": 1.23,
                "i64": -123,
                "u64": 123
            }
       "#;

    let doc: serde_json::Value = serde_json::from_str(json_obj).unwrap();
    let val = decode(&doc);
    assert_eq!(val.get("bool"), &Value::Bool(true));
    assert_eq!(val.get("string_key"), &Value::Str(Text::Borrowed("string_val")));
    assert_eq!(
        val.get("float"),
        &Value::Number(Number::from_f64_bits(1.23f64.to_bits()))
    );
    assert_eq!(val.get("i64"), &Value::Number((-123i64).into()));
    assert_eq!(val.get("u64"), &Value::Number(123u64.into()));
}

#[test]
fn deserialize_json_allow_escaped_strings_in_values() {
    let json_obj = r#"
            {
                "bool": true,
                "string_key": "string\"_val",
                "u64": 123
            }
       "#;

    let doc: serde_json::Value = serde_json::from_str(json_obj).unwrap();
    let val = decode(&doc);
    assert_eq!(val.get("bool"), &Value::Bool(true));
    assert_eq!(val.get("string_key"), &Value::Str(Text::Borrowed("string\"_val")));
}

#[test]
fn from_serde() {
    let doc: serde_json::Value =
        serde_json::from_str(r#"{"a": 1, "b": "2", "c": [3, 4], "d": {"e": "alo"}}"#).unwrap();
    let value = decode(&doc);
    assert_eq!(value.get("a"), &Value::Number(1i64.into()));
    assert_eq!(value.get("b"), &Value::Str(Text::Borrowed("2")));
    assert_eq!(value.get("c").get(0), &Value::Number(3i64.into()));
    assert_eq!(value.get("c").get(1), &Value::Number(4i64.into()));
    assert_eq!(value.get("d").get("e"), &Value::Str(Text::Borrowed("alo")));
}

#[test]
fn number_test() {
    let data = r#"{"val1": 123.5, "val2": 123, "val3": -123}"#;
    let doc: serde_json::Value = serde_json::from_str(data).unwrap();
    let value = decode(&doc);
    assert!(value.get("val1").is_f64());
    assert!(!value.get("val1").is_u64());
    assert!(!value.get("val1").is_i64());

    assert!(!value.get("val2").is_f64());
    assert!(value.get("val2").is_u64());
    assert!(value.get("val2").is_i64());

    assert!(!value.get("val3").is_f64());
    assert!(!value.get("val3").is_u64());
    assert!(value.get("val3").is_i64());

    assert!(as_f64(value.get("val1")).is_some());
    assert!(as_f64(value.get("val2")).is_some());
    assert!(as_f64(value.get("val3")).is_some());

    assert!(value.get("val1").as_u64().is_none());
    assert!(value.get("val2").as_u64().is_some());
    assert!(value.get("val3").as_u64().is_none());

    assert!(value.get("val1").as_i64().is_none());
    assert!(value.get("val2").as_i64().is_some());
    assert!(value.get("val3").as_i64().is_some());
}

#[test]
fn integers_print_back_as_written() {
    for text in ["-123", "123", "0", "18446744073709551615", "-9223372036854775808"] {
        let doc: serde_json::Value = serde_json::from_str(text).unwrap();
        let value = decode(&doc);
        match value {
            Value::Number(n) => assert_eq!(n.integer_text().unwrap(), text),
            other => panic!("not a number: {:?}", other),
        }
    }
    let doc: serde_json::Value = serde_json::from_str("-123").unwrap();
    assert_eq!(decode(&doc).as_i64(), Some(-123));
    assert!(Number::from_f64_bits(1.5f64.to_bits()).integer_text().is_none());
}

#[test]
fn duplicate_keys_are_kept_in_order() {
    let events = vec![
        DecodeEvent::MapStart,
        DecodeEvent::Key(Text::Borrowed("a")),
        DecodeEvent::Unsigned(1),
        DecodeEvent::Key(Text::Borrowed("a")),
        DecodeEvent::Unsigned(2),
        DecodeEvent::End,
    ];
    let value: Value<'_, Null, Null> = decode_events(&events).unwrap();
    let obj = value.as_object().unwrap();
    assert_eq!(obj.len(), 2);
    assert_eq!(value.get("a"), &Value::Number(1u64.into()));
}

#[test]
fn malformed_and_trailing_events() {
    let unterminated = vec![DecodeEvent::SeqStart, DecodeEvent::Null];
    assert_eq!(
        decode_events::<Null, Null>(&unterminated).unwrap_err(),
        DecodeError::Malformed
    );
    let stray_end = vec![DecodeEvent::End];
    assert_eq!(decode_events::<Null, Null>(&stray_end).unwrap_err(), DecodeError::Malformed);
    let two = vec![DecodeEvent::Null, DecodeEvent::Bool(true)];
    assert_eq!(decode_events::<Null, Null>(&two).unwrap_err(), DecodeError::Trailing);
    let empty: Vec<DecodeEvent<'_>> = Vec::new();
    assert_eq!(decode_events::<Null, Null>(&empty).unwrap_err(), DecodeError::Malformed);
}

#[test]
fn nested_containers_decode() {
    let events = vec![
        DecodeEvent::SeqStart,
        DecodeEvent::SeqStart,
        DecodeEvent::End,
        DecodeEvent::MapStart,
        DecodeEvent::Key(Text::Owned("k".to_string())),
        DecodeEvent::Signed(-5),
        DecodeEvent::End,
        DecodeEvent::Float(2.5f64.to_bits()),
        DecodeEvent::End,
    ];
    let value: Value<'_, Null, Null> = decode_events(&events).unwrap();
    assert_eq!(value.as_array().unwrap().len(), 3);
    assert_eq!(value.get(0).as_array().unwrap().len(), 0);
    assert_eq!(value.get(1).get("k").as_i64(), Some(-5));
    assert!(value.get(2).is_f64());
}

/// Property symbols for tests: "name" and "kind" are recognized, "kind" only
/// right after "name".
#[derive(Debug, Clone, PartialEq, Eq)]
enum Prop {
    Name,
    Kind,
}

// The ghost items of the traits exist in compiled code only as signatures;
// nothing calls them at run time.
impl Property for Prop {
    fn text(&self) -> vstd::seq::Seq<char> {
        unreachable!()
    }

    fn classify(_: Option<KeyView<Self>>, _: vstd::seq::Seq<char>) -> Option<Self> {
        unreachable!()
    }

    fn lemma_clone_exact(_: Self, _: Self) {
        unreachable!()
    }

    fn try_parse(key: Option<&Key<'_, Self>>, value: &str) -> Option<Self> {
        match value {
            "name" => Some(Prop::Name),
            "kind" if matches!(key, Some(Key::Property(Prop::Name))) => Some(Prop::Kind),
            _ => None,
        }
    }

    fn to_text(&self) -> String {
        match self {
            Prop::Name => "name".to_string(),
            Prop::Kind => "kind".to_string(),
        }
    }
}

/// Element symbols for tests: the text "red" or "blue" under a "color" key.
#[derive(Debug, Clone, PartialEq, Eq)]
enum Color {
    Red,
    Blue,
}

impl Element for Color {
    fn text(&self) -> vstd::seq::Seq<char> {
        unreachable!()
    }

    fn classify(_: vstd::seq::Seq<char>, _: vstd::seq::Seq<char>) -> Option<Self> {
        unreachable!()
    }

    fn lemma_clone_exact(_: Self, _: Self) {
        unreachable!()
    }

    fn try_parse<P: Property>(key: &Key<'_, P>, value: &str) -> Option<Self> {
        if key.to_string() != "color" {
            return None;
        }
        match value {
            "red" => Some(Color::Red),
            "blue" => Some(Color::Blue),
            _ => None,
        }
    }

    fn to_text(&self) -> String {
        match self {
            Color::Red => "red".to_string(),
            Color::Blue => "blue".to_string(),
        }
    }
}

#[test]
fn string_under_recognizing_key_becomes_element() {
    let events = vec![
        DecodeEvent::MapStart,
        DecodeEvent::Key(Text::Borrowed("color")),
        DecodeEvent::Str(Text::Borrowed("red")),
        DecodeEvent::Key(Text::Borrowed("label")),
        DecodeEvent::Str(Text::Borrowed("red")),
        DecodeEvent::Key(Text::Borrowed("color")),
        DecodeEvent::Str(Text::Borrowed("green")),
        DecodeEvent::End,
    ];
    let value: Value<'_, Null, Color> = decode_events(&events).unwrap();
    let entries = value.as_object().unwrap().as_vec();
    assert!(matches!(entries[0].1, Value::Element(Color::Red)));
    assert!(matches!(&entries[1].1, Value::Str(t) if t.as_str() == "red"));
    assert!(matches!(&entries[2].1, Value::Str(t) if t.as_str() == "green"));
    assert_eq!(value.get("color").as_str().unwrap().as_str(), "red");
}

#[test]
fn array_elements_are_not_classified() {
    let events = vec![
        DecodeEvent::MapStart,
        DecodeEvent::Key(Text::Borrowed("color")),
        DecodeEvent::SeqStart,
        DecodeEvent::Str(Text::Borrowed("blue")),
        DecodeEvent::End,
        DecodeEvent::End,
    ];
    let value: Value<'_, Null, Color> = decode_events(&events).unwrap();
    assert!(value.get("color").get(0).is_string());
}

#[test]
fn keys_are_classified_after_their_previous_sibling() {
    let events = vec![
        DecodeEvent::MapStart,
        DecodeEvent::Key(Text::Borrowed("kind")),
        DecodeEvent::Null,
        DecodeEvent::Key(Text::Borrowed("name")),
        DecodeEvent::Null,
        DecodeEvent::Key(Text::Borrowed("kind")),
        DecodeEvent::Null,
        DecodeEvent::End,
    ];
    let value: Value<'_, Prop, Null> = decode_events(&events).unwrap();
    let entries = value.as_object().unwrap().as_vec();
    assert!(matches!(entries[0].0, Key::Borrowed("kind")));
    assert!(matches!(entries[1].0, Key::Property(Prop::Name)));
    assert!(matches!(entries[2].0, Key::Property(Prop::Kind)));
}

#[test]
fn decode_helpers_keep_the_given_form() {
    let key: Key<'_, Prop> = decode_key(None, Text::Borrowed("x"));
    assert!(matches!(key, Key::Borrowed("x")));
    let key: Key<'_, Prop> = decode_key(None, Text::Owned("name".to_string()));
    assert!(matches!(key, Key::Property(Prop::Name)));
    let parent: Key<'_, Prop> = Key::Borrowed("color");
    let leaf: Value<'_, Prop, Color> = decode_string(Some(&parent), Text::Owned("blue".to_string()));
    assert!(matches!(leaf, Value::Element(Color::Blue)));
    let leaf: Value<'_, Prop, Color> = decode_string(None, Text::Borrowed("blue"));
    assert!(matches!(leaf, Value::Str(Text::Borrowed("blue"))));
}

#[test]
fn decimal_text_of_integers() {
    assert_eq!(jmap_tools::text::u64_to_text(0), "0");
    assert_eq!(jmap_tools::text::u64_to_text(1234567890), "1234567890");
    assert_eq!(Number::from_i64(i64::MIN).integer_text().unwrap(), "-9223372036854775808");
    assert_eq!(Number::from_i64(42).kind(), jmap_tools::N::PosInt(42));
    assert_eq!(Number::from_i64(-42).kind(), jmap_tools::N::NegInt(-42));
}
