use param_resolver::table::StrMap;
use param_resolver::value::{merge, Value};

fn from_json(v: &serde_json::Value) -> Value {
    match v {
        serde_json::Value::Null => Value::Null,
        serde_json::Value::Bool(b) => Value::Bool(*b),
        serde_json::Value::Number(n) => Value::Number(n.clone()),
        serde_json::Value::String(s) => Value::String(s.clone()),
        serde_json::Value::Array(items) => Value::Array(items.iter().map(from_json).collect()),
        serde_json::Value::Object(map) => {
            let mut table = StrMap::new();
            for (k, item) in map {
                table.insert(k.clone(), from_json(item));
            }
            Value::Object(table)
        }
    }
}

fn to_json(v: &Value) -> serde_json::Value {
    match v {
        Value::Null => serde_json::Value::Null,
        Value::Bool(b) => serde_json::Value::Bool(*b),
        Value::Number(n) => serde_json::Value::Number(n.clone()),
        Value::String(s) => serde_json::Value::String(s.clone()),
        Value::Array(items) => serde_json::Value::Array(items.iter().map(to_json).collect()),
        Value::Object(table) => {
            let mut map = serde_json::Map::new();
            for i in 0..table.len() {
                map.insert(table.key_at(i).clone(), to_json(table.value_at(i)));
            }
            serde_json::Value::Object(map)
        }
    }
}

fn json(text: &str) -> serde_json::Value {
    serde_json::from_str(text).expect("valid JSON")
}

fn value(text: &str) -> Value {
    from_json(&json(text))
}

#[test]
fn merge_agrees_with_json_patch() {
    let docs = [
        "null",
        "1",
        "\"text\"",
        "[1,2]",
        "{}",
        "{\"a\":1}",
        "{\"a\":{\"b\":1,\"c\":2},\"d\":[1]}",
        "{\"title\":\"Goodbye!\",\"author\":{\"givenName\":\"John\",\"familyName\":\"Doe\"},\"tags\":[\"example\",\"sample\"],\"content\":\"This will be unchanged\"}",
    ];
    let patches = [
        "null",
        "true",
        "\"other\"",
        "[3]",
        "{}",
        "{\"a\":null}",
        "{\"a\":2,\"z\":{\"y\":null,\"x\":1}}",
        "{\"a\":{\"b\":null,\"e\":{\"f\":null}},\"d\":{\"g\":1}}",
        "{\"title\":\"Hello!\",\"phoneNumber\":\"+01-123-456-7890\",\"author\":{\"familyName\":null},\"tags\":[\"example\"]}",
    ];
    for d in docs {
        for p in patches {
            let mut expected = json(d);
            json_patch::merge(&mut expected, &json(p));
            let mut doc = value(d);
            merge(&mut doc, &value(p));
            assert_eq!(to_json(&doc), expected, "doc {} patch {}", d, p);
            assert_eq!(to_json(&value(d).merged_with(&value(p))), expected);
            assert_eq!(doc, from_json(&expected));
        }
    }
}

#[test]
fn merge_unites_members_and_the_patch_wins() {
    let mut doc = value("{\"a\":1,\"b\":2}");
    merge(&mut doc, &value("{\"b\":3,\"c\":4}"));
    assert_eq!(doc, value("{\"a\":1,\"b\":3,\"c\":4}"));
}

#[test]
fn merge_of_a_value_that_is_no_object_replaces() {
    let mut doc = value("{\"a\":1}");
    merge(&mut doc, &value("\"plain\""));
    assert_eq!(doc, Value::String("plain".to_string()));
    let mut doc = value("7");
    merge(&mut doc, &value("{\"a\":{\"b\":null,\"c\":1}}"));
    assert_eq!(doc, value("{\"a\":{\"c\":1}}"));
}

#[test]
fn empty_object_is_recognised() {
    assert!(Value::object().is_empty_object());
    assert!(value("{}").is_empty_object());
    assert!(!value("{\"a\":null}").is_empty_object());
    assert!(!value("[]").is_empty_object());
    assert!(!Value::Null.is_empty_object());
    assert_eq!(Value::object(), value("{}"));
}

#[test]
fn clone_keeps_the_whole_value() {
    let v = value("{\"n\":1.5,\"i\":-3,\"u\":18446744073709551615,\"s\":\"x\",\"l\":[true,null,{\"k\":[]}],\"o\":{\"p\":{}}}");
    assert_eq!(v.clone(), v);
    assert_eq!(to_json(&v.clone()), to_json(&v));
}

#[test]
fn tables_keep_their_rows_in_key_order() {
    let mut table: StrMap<u8> = StrMap::new();
    for (k, v) in [("b", 1u8), ("a", 2), ("ä", 3), ("B", 4), ("", 5), ("ab", 6), ("a", 7)] {
        table.insert(k.to_string(), v);
    }
    let keys: Vec<String> = (0..table.len()).map(|i| table.key_at(i).clone()).collect();
    assert_eq!(keys, vec!["", "B", "a", "ab", "b", "ä"]);
    assert_eq!(table.get("a"), Some(&7));
    assert_eq!(table.get("c"), None);
    assert!(table.contains_key("ä"));
    assert_eq!(table.remove("a"), Some(7));
    assert_eq!(table.remove("a"), None);
    assert_eq!(table.len(), 5);
    assert_eq!(table.clone(), table);
    let mut other: StrMap<u8> = StrMap::new();
    for (k, v) in [("ä", 3u8), ("ab", 6), ("", 5), ("B", 4), ("b", 1)] {
        other.insert(k.to_string(), v);
    }
    assert_eq!(other, table);
}
