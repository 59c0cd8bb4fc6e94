use jmap_tools::{JsonPointer, JsonPointerItem, Key, Null};

#[test]
fn json_pointer_parse() {
    for (input, output) in vec![
        ("hello", vec![JsonPointerItem::<Null>::Key("hello".into())]),
        ("9a", vec![JsonPointerItem::Key("9a".into())]),
        ("a9", vec![JsonPointerItem::Key("a9".into())]),
        ("*a", vec![JsonPointerItem::Key("*a".into())]),
        (
            "/hello/world",
            vec![
                JsonPointerItem::Key("hello".into()),
                JsonPointerItem::Key("world".into()),
            ],
        ),
        ("*", vec![JsonPointerItem::Wildcard]),
        (
            "/hello/*",
            vec![
                JsonPointerItem::Key("hello".into()),
                JsonPointerItem::Wildcard,
            ],
        ),
        ("1234", vec![JsonPointerItem::Number(1234)]),
        (
            "/hello/1234",
            vec![
                JsonPointerItem::Key("hello".into()),
                JsonPointerItem::Number(1234),
            ],
        ),
        ("~0~1", vec![JsonPointerItem::Key("~/".into())]),
        (
            "/hello/~0~1",
            vec![
                JsonPointerItem::Key("hello".into()),
                JsonPointerItem::Key("~/".into()),
            ],
        ),
        (
            "/hello/1~0~1/*~1~0",
            vec![
                JsonPointerItem::Key("hello".into()),
                JsonPointerItem::Key("1~/".into()),
                JsonPointerItem::Key("*/~".into()),
            ],
        ),
        (
            "/hello/world/*/99",
            vec![
                JsonPointerItem::Key("hello".into()),
                JsonPointerItem::Key("world".into()),
                JsonPointerItem::Wildcard,
                JsonPointerItem::Number(99),
            ],
        ),
        ("/", vec![JsonPointerItem::Key("".into())]),
        (
            "///",
            vec![
                JsonPointerItem::Key("".into()),
                JsonPointerItem::Key("".into()),
                JsonPointerItem::Key("".into()),
            ],
        ),
        ("", vec![JsonPointerItem::Root]),
    ] {
        assert_eq!(JsonPointer::parse(input).0, output, "{input}");
    }
}

fn parse(s: &str) -> Vec<JsonPointerItem<Null>> {
    JsonPointer::<Null>::parse(s).into_inner()
}

#[test]
fn escaped_segment_renders_back() {
    let ptr = JsonPointer::<Null>::parse("~0~1");
    assert_eq!(ptr.len(), 1);
    assert_eq!(ptr.0[0], JsonPointerItem::Key("~/".into()));
    assert_eq!(ptr.to_string(), "~0~1");
}

#[test]
fn rendering_joins_and_escapes() {
    let ptr = JsonPointer::<Null>::parse("/hello/1~0~1/*~1~0/*/42");
    assert_eq!(ptr.to_string(), "hello/1~0~1/*~1~0/*/42");
    assert_eq!(JsonPointer::<Null>::parse("").to_string(), "");
    assert_eq!(JsonPointer::<Null>::parse("/").to_string(), "");
    assert_eq!(JsonPointer::<Null>::parse("a/b").to_string(), "a/b");
}

#[test]
fn lone_tilde_is_dropped() {
    assert_eq!(parse("a~b"), vec![JsonPointerItem::Key("ab".into())]);
    assert_eq!(parse("~~"), vec![JsonPointerItem::Key("~".into())]);
}

#[test]
fn trailing_tilde_keeps_text_for_next_segment() {
    assert_eq!(parse("abc~"), vec![JsonPointerItem::Root]);
    assert_eq!(parse("abc~/d"), vec![JsonPointerItem::Key("abcd".into())]);
}

#[test]
fn backslash_takes_next_character() {
    assert_eq!(parse("a\\/b"), vec![JsonPointerItem::Key("a/b".into())]);
    assert_eq!(parse("\\*"), vec![JsonPointerItem::Key("*".into())]);
    assert_eq!(parse("\\5"), vec![JsonPointerItem::Key("5".into())]);
    assert_eq!(parse("ab\\"), vec![JsonPointerItem::Key("ab\\".into())]);
}

#[test]
fn index_overflow_saturates() {
    assert_eq!(
        parse("99999999999999999999999"),
        vec![JsonPointerItem::Number(u64::MAX)]
    );
    assert_eq!(
        parse("18446744073709551615"),
        vec![JsonPointerItem::Number(u64::MAX)]
    );
}

#[test]
fn wildcard_followed_by_text_is_a_key() {
    assert_eq!(parse("**"), vec![JsonPointerItem::Key("**".into())]);
    assert_eq!(parse("*1"), vec![JsonPointerItem::Key("*1".into())]);
    assert_eq!(parse("12*"), vec![JsonPointerItem::Key("12*".into())]);
}

#[test]
fn empty_segments_after_separators() {
    assert_eq!(
        parse("a//b"),
        vec![
            JsonPointerItem::Key("a".into()),
            JsonPointerItem::Key("".into()),
            JsonPointerItem::Key("b".into()),
        ]
    );
    assert_eq!(
        parse("a/"),
        vec![JsonPointerItem::Key("a".into()), JsonPointerItem::Key("".into())]
    );
}

#[test]
fn encode_escapes_each_item() {
    assert_eq!(JsonPointer::<Null>::encode(&["a/b", "c~d", "e"]), "a~1b/c~0d/e");
    assert_eq!(JsonPointer::<Null>::encode(&[]), "");
    assert_eq!(JsonPointer::<Null>::encode(&["only"]), "only");
}

#[test]
fn item_accessors() {
    let ptr = JsonPointer::<Null>::parse("/name/3/*");
    assert_eq!(ptr.first().and_then(|i| i.as_string_key()), Some("name"));
    assert!(ptr.first().and_then(|i| i.as_property_key()).is_none());
    assert_eq!(ptr.last(), Some(&JsonPointerItem::Wildcard));
    assert!(ptr.0[1].as_key().is_none());
    assert_eq!(ptr.0[0].as_key(), Some(&Key::Owned("name".to_string())));
    assert!(!ptr.is_empty());
}

#[test]
fn cursor_next_and_peek() {
    let ptr = JsonPointer::<Null>::parse("a/1");
    let mut it = ptr.iter();
    assert_eq!(it.peek(), Some(&JsonPointerItem::Key("a".into())));
    assert_eq!(it.next(), Some(&JsonPointerItem::Key("a".into())));
    assert_eq!(it.next(), Some(&JsonPointerItem::Number(1)));
    assert_eq!(it.peek(), None);
    assert_eq!(it.next(), None);
}

#[test]
fn digit_run_value_does_not_leak() {
    assert_eq!(
        parse("1a/2"),
        vec![JsonPointerItem::Key("1a".into()), JsonPointerItem::Number(2)]
    );
    assert_eq!(parse("5~/7"), vec![JsonPointerItem::Number(7)]);
}

#[test]
fn text_pointer_renders_back() {
    for text in ["a/b~1c/d~0", "hello/world", "x*/*y/a9/9a", "~0~1"] {
        assert_eq!(JsonPointer::<Null>::parse(text).to_string(), text);
    }
}

#[test]
fn mixed_pointer_renders_back() {
    for text in ["hello/1234/*/a~1b", "1a/5", "*/0/x", "18446744073709551615/k"] {
        assert_eq!(JsonPointer::<Null>::parse(text).to_string(), text);
    }
}
