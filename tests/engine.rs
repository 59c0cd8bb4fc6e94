use jmap_tools::{
    decode_events, DecodeEvent, ItemView, JsonPointer, JsonPointerHandler, JsonPointerItem,
    JsonPointerIter, Key, Null, ObjectAsVec, Snapshot, StringMap, Text, Value, ValueView, N,
};

fn events_of<'a>(v: &'a serde_json::Value, out: &mut Vec<DecodeEvent<'a>>) {
    match v {
        serde_json::Value::Null => out.push(DecodeEvent::Null),
        serde_json::Value::Bool(b) => out.push(DecodeEvent::Bool(*b)),
        serde_json::Value::Number(n) => {
            if let Some(u) = n.as_u64() {
                out.push(DecodeEvent::Unsigned(u));
            } else if let Some(i) = n.as_i64() {
                out.push(DecodeEvent::Signed(i));
            } else {
                out.push(DecodeEvent::Float(n.as_f64().unwrap().to_bits()));
            }
        }
        serde_json::Value::String(s) => out.push(DecodeEvent::Str(Text::Borrowed(s.as_str()))),
        serde_json::Value::Array(items) => {
            out.push(DecodeEvent::SeqStart);
            for item in items {
                events_of(item, out);
            }
            out.push(DecodeEvent::End);
        }
        serde_json::Value::Object(map) => {
            out.push(DecodeEvent::MapStart);
            for (k, item) in map {
                out.push(DecodeEvent::Key(Text::Borrowed(k.as_str())));
                events_of(item, out);
            }
            out.push(DecodeEvent::End);
        }
    }
}

fn parse_value(doc: &serde_json::Value) -> Value<'static, Null, Null> {
    let mut events = Vec::new();
    events_of(doc, &mut events);
    let value: Value<'_, Null, Null> = decode_events(&events).unwrap();
    value.into_owned()
}

fn json(text: &str) -> Value<'static, Null, Null> {
    let doc: serde_json::Value = serde_json::from_str(text).unwrap();
    parse_value(&doc)
}

/// Compact JSON text of a value, keys in stored order.
fn to_json(v: &Value<'_, Null, Null>) -> String {
    match v {
        Value::Null => "null".to_string(),
        Value::Bool(b) => b.to_string(),
        Value::Number(n) => match n.kind() {
            N::Float(bits) => serde_json::to_string(&f64::from_bits(bits)).unwrap(),
            _ => n.integer_text().unwrap(),
        },
        Value::Element(_) => "\"\"".to_string(),
        Value::Str(t) => serde_json::to_string(t.as_str()).unwrap(),
        Value::Array(items) => {
            let parts: Vec<String> = items.iter().map(to_json).collect();
            format!("[{}]", parts.join(","))
        }
        Value::Object(obj) => {
            let parts: Vec<String> = obj
                .as_vec()
                .iter()
                .map(|(k, v)| {
                    format!("{}:{}", serde_json::to_string(&k.to_string()).unwrap(), to_json(v))
                })
                .collect();
            format!("{{{}}}", parts.join(","))
        }
    }
}

fn eval(value: &Value<'static, Null, Null>, pointer: &str) -> Vec<String> {
    let ptr = JsonPointer::<Null>::parse(pointer);
    let mut results: Vec<Snapshot<'_, 'static, Null, Null>> = Vec::new();
    value.eval_jptr(ptr.iter(), &mut results);
    results.iter().map(|r| to_json(r.value())).collect()
}

const TEST: &str = r#"
        {
            "map": {
                "key1": {"text": "value1", "number": 1, "boolean": true},
                "key2": {"text": "value2", "number": 2, "boolean": false}
            },
            "array": [
                {"text": "item1", "number": 10, "boolean": true},
                {"text": "item2", "number": 20, "boolean": false}
            ],
            "value": {"text": "single", "number": 100, "boolean": true}
        }
        "#;

fn test_json_pointer<T: JsonPointerHandler<'static, Null, Null>>(obj: &T, test: &str) {
    for (pointer, expected) in [
        ("value/text", r#"["single"]"#),
        ("value/number", r#"[100]"#),
        ("value/boolean", r#"[true]"#),
        (
            "value",
            r#"[{"text":"single","number":100,"boolean":true}]"#,
        ),
        ("map/key1/text", r#"["value1"]"#),
        ("map/key1/number", r#"[1]"#),
        ("map/key1/boolean", r#"[true]"#),
        ("map/key2/text", r#"["value2"]"#),
        ("map/key2/number", r#"[2]"#),
        ("map/key2/boolean", r#"[false]"#),
        ("array/0/text", r#"["item1"]"#),
        ("array/0/number", r#"[10]"#),
        ("array/0/boolean", r#"[true]"#),
        ("array/1/text", r#"["item2"]"#),
        ("array/1/number", r#"[20]"#),
        ("array/1/boolean", r#"[false]"#),
        ("map/*/text", r#"["value1","value2"]"#),
        ("map/*/number", r#"[1,2]"#),
        ("map/*/boolean", r#"[false,true]"#),
        ("map/*/*", r#"["value1","value2",1,2,false,true]"#),
        ("array/*/text", r#"["item1","item2"]"#),
        ("array/*/number", r#"[10,20]"#),
        ("array/*/boolean", r#"[false,true]"#),
        ("array/*/*", r#"["item1","item2",10,20,false,true]"#),
        ("/*/text", r#"["single"]"#),
        ("/*/*/text", r#"["item1","item2","value1","value2"]"#),
        ("/*/*/number", r#"[1,10,2,20]"#),
        ("/*/*/boolean", r#"[false,false,true,true]"#),
    ] {
        let ptr = JsonPointer::parse(pointer);
        let mut results = Vec::new();
        obj.eval_jptr(ptr.iter(), &mut results);
        let mut results: Vec<String> = results.iter().map(|r| to_json(r.value())).collect();
        results.sort_unstable();
        let results = format!("[{}]", results.join(","));
        if results != expected {
            panic!(
                "Pointer: {}\nTest: {}\nExpected: {}\nResults: {}",
                pointer, test, expected, results
            );
        }
    }
}

fn test_json_patch<T: JsonPointerHandler<'static, Null, Null> + Clone>(obj: T, test: &str) {
    for (pointer, patch, expected) in [
        (
            "value/text",
            r#""hello""#,
            r#""value":{"text":"hello","number":100,"boolean":true}"#,
        ),
        (
            "value/number",
            "123",
            r#""value":{"text":"single","number":123,"boolean":true}"#,
        ),
        (
            "value/boolean",
            "false",
            r#""value":{"text":"single","number":100,"boolean":false}"#,
        ),
        (
            "value",
            r#"{"text":"blah","number":999,"boolean":true}"#,
            r#""value":{"text":"blah","number":999,"boolean":true}"#,
        ),
        (
            "map/key1/text",
            r#""hola""#,
            r#"{"key1":{"text":"hola","number":1,"boolean":true},"key2":{"text":"value2","number":2,"boolean":false}}"#,
        ),
        (
            "map/key1",
            r#"{"text":"adios","number":123,"boolean":false}"#,
            r#"{"key1":{"text":"adios","number":123,"boolean":false},"key2":{"text":"value2","number":2,"boolean":false}}"#,
        ),
        (
            "array/1/text",
            r#""nihao""#,
            r#":[{"text":"item1","number":10,"boolean":true},{"text":"nihao","number":20,"boolean":false}]"#,
        ),
        (
            "array/0",
            r#"{"text":"bonjour","number":42,"boolean":true}"#,
            r#"[{"text":"bonjour","number":42,"boolean":true},{"text":"item2","number":20,"boolean":false}]"#,
        ),
    ] {
        let mut obj = obj.clone();
        obj.patch_jptr(JsonPointer::parse(pointer).iter(), json(patch));
        let results = to_json(obj.to_value().value());
        if !results.contains(expected) {
            panic!(
                "Pointer: {}\nTest: {}\nExpected: {}\nResults: {}",
                pointer, test, expected, results
            );
        }
    }
}

#[test]
fn json_pointer() {
    let obj = Object::from_value(json(TEST)).unwrap();
    let value = json(TEST);

    test_json_pointer(&obj, "object");
    test_json_pointer(&value, "value");

    test_json_patch(obj, "object");
    test_json_patch(value, "value");
}

#[derive(Debug, Clone)]
struct SubObject {
    text: String,
    number: u64,
    boolean: bool,
}

#[derive(Debug, Clone)]
struct Object {
    map: StringMap<SubObject>,
    array: Vec<SubObject>,
    value: SubObject,
}

// The ghost items of the trait exist in compiled code only as signatures;
// nothing calls them at run time.
impl JsonPointerHandler<'static, Null, Null> for Object {
    fn model(&self) -> ValueView<Null, Null> {
        unreachable!()
    }

    fn eval_model(&self, _: vstd::seq::Seq<ItemView<Null>>) -> vstd::seq::Seq<ValueView<Null, Null>> {
        unreachable!()
    }

    fn patch_model(
        &self,
        _: vstd::seq::Seq<ItemView<Null>>,
        _: ValueView<Null, Null>,
    ) -> Option<ValueView<Null, Null>> {
        unreachable!()
    }

    fn converts(_: ValueView<Null, Null>) -> Option<ValueView<Null, Null>> {
        unreachable!()
    }

    fn eval_jptr<'y>(
        &'y self,
        mut pointer: JsonPointerIter<'_, Null>,
        results: &mut Vec<Snapshot<'y, 'static, Null, Null>>,
    ) {
        match pointer.next() {
            Some(JsonPointerItem::Key(key)) => {
                let key = key.to_string();
                if key == "map" {
                    self.map.eval_jptr(pointer, results);
                } else if key == "array" {
                    self.array.eval_jptr(pointer, results);
                } else if key == "value" {
                    if pointer.peek().is_none() {
                        results.push(self.value.to_value());
                    } else {
                        self.value.eval_jptr(pointer, results);
                    }
                }
            }
            Some(JsonPointerItem::Wildcard) => {
                self.map.eval_jptr(pointer, results);
                self.array.eval_jptr(pointer, results);
                self.value.eval_jptr(pointer, results);
            }
            Some(JsonPointerItem::Root) | None => {
                results.push(self.to_value());
            }
            _ => {}
        }
    }

    fn patch_jptr(&mut self, mut pointer: JsonPointerIter<'_, Null>, value: Value<'static, Null, Null>) -> bool {
        if let Some(JsonPointerItem::Key(key)) = pointer.next() {
            let key = key.to_string();
            if pointer.peek().is_some() {
                if key == "map" {
                    return self.map.patch_jptr(pointer, value);
                } else if key == "array" {
                    return self.array.patch_jptr(pointer, value);
                } else if key == "value" {
                    return self.value.patch_jptr(pointer, value);
                }
            } else if key == "map" {
                if let Some(v) = StringMap::<SubObject>::from_value(value) {
                    self.map = v;
                    return true;
                }
            } else if key == "array" {
                if let Some(v) = Vec::<SubObject>::from_value(value) {
                    self.array = v;
                    return true;
                }
            } else if key == "value" {
                if let Some(v) = SubObject::from_value(value) {
                    self.value = v;
                    return true;
                }
            }
        }
        false
    }

    fn to_value<'y>(&'y self) -> Snapshot<'y, 'static, Null, Null> {
        Snapshot::Owned(Value::Object(ObjectAsVec::from(vec![
            (Key::Borrowed("map"), self.map.to_value().into_owned()),
            (Key::Borrowed("array"), self.array.to_value().into_owned()),
            (Key::Borrowed("value"), self.value.to_value().into_owned()),
        ])))
    }

    fn from_value(value: Value<'static, Null, Null>) -> Option<Self> {
        let (mut map, mut array, mut sub) = (None, None, None);
        for (key, item) in value.into_object()?.into_vec() {
            match key.to_string().as_str() {
                "map" => map = StringMap::<SubObject>::from_value(item),
                "array" => array = Vec::<SubObject>::from_value(item),
                "value" => sub = SubObject::from_value(item),
                _ => {}
            }
        }
        Some(Object { map: map?, array: array?, value: sub? })
    }
}

impl JsonPointerHandler<'static, Null, Null> for SubObject {
    fn model(&self) -> ValueView<Null, Null> {
        unreachable!()
    }

    fn eval_model(&self, _: vstd::seq::Seq<ItemView<Null>>) -> vstd::seq::Seq<ValueView<Null, Null>> {
        unreachable!()
    }

    fn patch_model(
        &self,
        _: vstd::seq::Seq<ItemView<Null>>,
        _: ValueView<Null, Null>,
    ) -> Option<ValueView<Null, Null>> {
        unreachable!()
    }

    fn converts(_: ValueView<Null, Null>) -> Option<ValueView<Null, Null>> {
        unreachable!()
    }

    fn eval_jptr<'y>(
        &'y self,
        mut pointer: JsonPointerIter<'_, Null>,
        results: &mut Vec<Snapshot<'y, 'static, Null, Null>>,
    ) {
        match pointer.next() {
            Some(JsonPointerItem::Key(s)) => match s.to_string().as_ref() {
                "text" => results.push(Snapshot::Owned(Value::Str(Text::Owned(self.text.clone())))),
                "number" => results.push(Snapshot::Owned(Value::Number(self.number.into()))),
                "boolean" => results.push(Snapshot::Owned(Value::Bool(self.boolean))),
                _ => {}
            },
            Some(JsonPointerItem::Wildcard) if pointer.peek().is_none() => {
                results.push(Snapshot::Owned(Value::Str(Text::Owned(self.text.clone()))));
                results.push(Snapshot::Owned(Value::Number(self.number.into())));
                results.push(Snapshot::Owned(Value::Bool(self.boolean)));
            }
            _ => {}
        }
    }

    fn patch_jptr(&mut self, mut pointer: JsonPointerIter<'_, Null>, value: Value<'static, Null, Null>) -> bool {
        if let Some(JsonPointerItem::Key(s)) = pointer.next() {
            let has_next = pointer.next().is_some();
            match s.to_string().as_ref() {
                "text" if !has_next => {
                    if let Some(text) = value.into_string() {
                        self.text = text;
                        return true;
                    }
                }
                "number" if !has_next => {
                    if let Some(number) = value.as_u64() {
                        self.number = number;
                        return true;
                    }
                }
                "boolean" if !has_next => {
                    if let Some(boolean) = value.as_bool() {
                        self.boolean = boolean;
                        return true;
                    }
                }
                _ => {}
            }
        }
        false
    }

    fn to_value<'y>(&'y self) -> Snapshot<'y, 'static, Null, Null> {
        Snapshot::Owned(Value::Object(ObjectAsVec::from(vec![
            (Key::Borrowed("text"), Value::Str(Text::Owned(self.text.clone()))),
            (Key::Borrowed("number"), Value::Number(self.number.into())),
            (Key::Borrowed("boolean"), Value::Bool(self.boolean)),
        ])))
    }

    fn from_value(value: Value<'static, Null, Null>) -> Option<Self> {
        if let Value::Object(map) = value {
            let text = map
                .get(&Key::Borrowed("text"))
                .and_then(|v| v.as_str().map(|t| t.as_str().to_string()))
                .unwrap_or_default();
            let number = map
                .get(&Key::Borrowed("number"))
                .and_then(Value::as_u64)
                .unwrap_or(0);
            let boolean = map
                .get(&Key::Borrowed("boolean"))
                .and_then(Value::as_bool)
                .unwrap_or(false);
            Some(SubObject { text, number, boolean })
        } else {
            None
        }
    }
}

#[test]
fn wildcard_results_follow_document_order() {
    let value = json(TEST);
    assert_eq!(eval(&value, "map/*/number"), vec!["1", "2"]);
    assert_eq!(eval(&value, "/*/*/number"), vec!["1", "2", "10", "20"]);
    let dup = json(r#"{"a": {"x": 1}, "b": {"x": 1}}"#);
    assert_eq!(eval(&dup, "*/x"), vec!["1", "1"]);
}

#[test]
fn evaluation_misses_contribute_nothing() {
    let value = json(TEST);
    assert!(eval(&value, "missing/text").is_empty());
    assert!(eval(&value, "array/5").is_empty());
    assert!(eval(&value, "value/text/deeper").is_empty());
    assert_eq!(eval(&value, ""), vec![to_json(&value)]);
    let numbered = json(r#"{"7": "seven"}"#);
    assert_eq!(eval(&numbered, "7"), vec!["\"seven\""]);
}

#[test]
fn patch_missing_terminal_key_appends() {
    let mut empty = json("{}");
    assert!(empty.patch_jptr(JsonPointer::parse("newkey").iter(), json("5")));
    assert_eq!(to_json(&empty), r#"{"newkey":5}"#);

    let mut nested = json(r#"{"a":{}}"#);
    assert!(nested.patch_jptr(JsonPointer::parse("a/newkey").iter(), json("true")));
    assert_eq!(to_json(&nested), r#"{"a":{"newkey":true}}"#);

    let mut none = json("{}");
    assert!(!none.patch_jptr(JsonPointer::parse("missing/x").iter(), json("1")));
    assert_eq!(to_json(&none), "{}");
}

#[test]
fn patch_refuses_wildcard_root_and_misses() {
    let mut value = json(TEST);
    let before = to_json(&value);
    assert!(!value.patch_jptr(JsonPointer::parse("map/*").iter(), json("1")));
    assert!(!value.patch_jptr(JsonPointer::parse("").iter(), json("1")));
    assert!(!value.patch_jptr(JsonPointer::parse("array/9").iter(), json("1")));
    assert!(!value.patch_jptr(JsonPointer::parse("array/x").iter(), json("1")));
    assert!(!value.patch_jptr(JsonPointer::parse("map/key1/text/x").iter(), json("1")));
    assert_eq!(to_json(&value), before);
}

#[test]
fn patch_number_segment_on_object_uses_decimal_key() {
    let mut value = json(r#"{"3": 0}"#);
    assert!(value.patch_jptr(JsonPointer::parse("3").iter(), json("9")));
    assert_eq!(to_json(&value), r#"{"3":9}"#);
    assert!(!value.patch_jptr(JsonPointer::parse("4").iter(), json("9")));
}

#[test]
fn absent_key_or_index_yields_null() {
    let value = json(r#"{"a": [1, 2]}"#);
    assert!(value.get("absent").is_null());
    assert!(value.get(0).is_null());
    assert!(value.get("a").get(2).is_null());
    assert!(value.get("a").get("a").is_null());
    let number = json("5");
    assert!(number.get("absent").is_null());
    assert_eq!(value.get("a").get(1), &Value::Number(2u64.into()));
}

#[derive(Debug, Clone)]
struct Counter(u64);

// The ghost items of the trait exist in compiled code only as signatures;
// nothing calls them at run time.
impl JsonPointerHandler<'static, Null, Null> for Counter {
    fn model(&self) -> ValueView<Null, Null> {
        unreachable!()
    }

    fn eval_model(&self, _: vstd::seq::Seq<ItemView<Null>>) -> vstd::seq::Seq<ValueView<Null, Null>> {
        unreachable!()
    }

    fn patch_model(
        &self,
        _: vstd::seq::Seq<ItemView<Null>>,
        _: ValueView<Null, Null>,
    ) -> Option<ValueView<Null, Null>> {
        unreachable!()
    }

    fn converts(_: ValueView<Null, Null>) -> Option<ValueView<Null, Null>> {
        unreachable!()
    }

    fn eval_jptr<'y>(
        &'y self,
        mut pointer: jmap_tools::JsonPointerIter<'_, Null>,
        results: &mut Vec<Snapshot<'y, 'static, Null, Null>>,
    ) {
        if pointer.next().is_none() {
            results.push(self.to_value());
        }
    }

    fn patch_jptr(
        &mut self,
        _pointer: jmap_tools::JsonPointerIter<'_, Null>,
        _value: Value<'static, Null, Null>,
    ) -> bool {
        false
    }

    fn to_value<'y>(&'y self) -> Snapshot<'y, 'static, Null, Null> {
        Snapshot::Owned(Value::Number(self.0.into()))
    }

    fn from_value(value: Value<'static, Null, Null>) -> Option<Self> {
        value.as_u64().map(Counter)
    }
}

#[test]
fn sequence_adapter_reads_and_patches() {
    let mut counters = vec![Counter(1), Counter(2), Counter(3)];
    let ptr = JsonPointer::<Null>::parse("*");
    let mut results = Vec::new();
    counters.eval_jptr(ptr.iter(), &mut results);
    let found: Vec<String> = results.iter().map(|r| to_json(r.value())).collect();
    assert_eq!(found, vec!["1", "2", "3"]);

    assert!(counters.patch_jptr(JsonPointer::parse("1").iter(), json("20")));
    assert_eq!(counters[1].0, 20);
    assert!(!counters.patch_jptr(JsonPointer::parse("1").iter(), json("\"x\"")));
    assert_eq!(counters[1].0, 20);
    assert!(!counters.patch_jptr(JsonPointer::parse("7").iter(), json("1")));
    assert_eq!(to_json(counters.to_value().value()), "[1,20,3]");

    let converted = <Vec<Counter> as JsonPointerHandler<'static, Null, Null>>::from_value(json("[4,5]"));
    assert_eq!(converted.map(|v| v.len()), Some(2));
    let refused = <Vec<Counter> as JsonPointerHandler<'static, Null, Null>>::from_value(json("[4,\"x\"]"));
    assert!(refused.is_none());
}

#[test]
fn snapshot_into_owned_copies_borrowed() {
    let value = json(r#"{"a": "b"}"#);
    let snap: Snapshot<'_, 'static, Null, Null> = Snapshot::Borrowed(&value);
    let owned = snap.into_owned();
    assert_eq!(owned, value);
    let keyed: Key<'static, Null> = Key::Owned("a".to_string());
    assert!(value.is_object_and_contains_key(&keyed));
    assert_eq!(ObjectAsVec::<Null, Null>::new().len(), 0);
}

#[test]
fn string_map_final_numeric_segment_replaces_entry() {
    let mut map: StringMap<Value<'static, Null, Null>> = StringMap::new();
    map.insert("7".to_string(), json("1"));
    map.insert("x".to_string(), json("2"));
    assert!(map.patch_jptr(JsonPointer::parse("7").iter(), json("\"seven\"")));
    assert_eq!(map.get("7"), Some(&json("\"seven\"")));
    assert_eq!(map.get("x"), Some(&json("2")));
    assert!(!map.patch_jptr(JsonPointer::parse("8").iter(), json("0")));
    assert!(map.patch_jptr(JsonPointer::parse("x").iter(), json("3")));
    assert!(map.patch_jptr(JsonPointer::parse("new").iter(), json("4")));
    assert_eq!(to_json(map.to_value().value()), r#"{"7":"seven","x":3,"new":4}"#);
}

#[test]
fn into_owned_leaves_nothing_borrowed() {
    let doc: serde_json::Value = serde_json::from_str(r#"{"a": ["b", {"c": "d"}]}"#).unwrap();
    let mut events = Vec::new();
    events_of(&doc, &mut events);
    let borrowed: Value<'_, Null, Null> = decode_events(&events).unwrap();
    assert!(matches!(
        &borrowed.as_object().unwrap().as_vec()[0].0,
        Key::Borrowed("a")
    ));
    let owned: Value<'static, Null, Null> = borrowed.into_owned();
    let entries = owned.as_object().unwrap().as_vec();
    assert!(matches!(&entries[0].0, Key::Owned(k) if k == "a"));
    assert!(matches!(owned.get("a").get(0), Value::Str(Text::Owned(s)) if s == "b"));
    let inner = owned.get("a").get(1).as_object().unwrap().as_vec();
    assert!(matches!(&inner[0].0, Key::Owned(k) if k == "c"));
    assert!(matches!(&inner[0].1, Value::Str(Text::Owned(s)) if s == "d"));
}
