use param_resolver::attrs::Attributes;
use param_resolver::document::{
    deser_overrides, match_to_string, str2attr, str2list_of_attrs, Document, DocumentError,
    DocumentInfo, DocumentSource, DocumentValueType, Matcher,
};
use param_resolver::table::StrMap;
use param_resolver::value::Value;

fn from_yaml(v: &serde_yaml::Value) -> Value {
    match v {
        serde_yaml::Value::Null => Value::Null,
        serde_yaml::Value::Bool(b) => Value::Bool(*b),
        serde_yaml::Value::Number(n) => {
            Value::Number(serde_json::from_str(&n.to_string()).expect("a JSON number"))
        }
        serde_yaml::Value::String(s) => Value::String(s.clone()),
        serde_yaml::Value::Sequence(items) => Value::Array(items.iter().map(from_yaml).collect()),
        serde_yaml::Value::Mapping(map) => {
            let mut table = StrMap::new();
            for (k, item) in map {
                table.insert(k.as_str().expect("a string key").to_string(), from_yaml(item));
            }
            Value::Object(table)
        }
        serde_yaml::Value::Tagged(tagged) => from_yaml(&tagged.value),
    }
}

fn flag(v: &serde_yaml::Value, name: &str) -> bool {
    v[name].as_bool().expect("a boolean")
}

fn text(v: &serde_yaml::Value, name: &str) -> String {
    v[name].as_str().expect("a string").to_string()
}

fn value_type(name: &str) -> DocumentValueType {
    match name {
        "array" => DocumentValueType::Array,
        "boolean" => DocumentValueType::Boolean,
        "hash" => DocumentValueType::Hash,
        "number" => DocumentValueType::Number,
        "json" => DocumentValueType::Json,
        "yaml" => DocumentValueType::Yaml,
        "string" => DocumentValueType::String,
        other => panic!("unknown parameter type {}", other),
    }
}

fn parse_document(buffer: &str) -> Result<Document, DocumentError> {
    let v: serde_yaml::Value = serde_yaml::from_str(buffer).map_err(DocumentError::from)?;
    let source = DocumentSource {
        description: text(&v, "description"),
        default_value: from_yaml(&v["default_value"]),
        enabled: flag(&v, "override"),
        value_type: value_type(v["parameter_type"].as_str().expect("a string")),
        name: text(&v, "parameter"),
        collection: text(&v, "puppetclass_name"),
        omit: flag(&v, "omit"),
        merge_default: flag(&v, "merge_default"),
        merge_overrides: flag(&v, "merge_overrides"),
        override_values: v["override_values"]
            .as_sequence()
            .expect("a list")
            .iter()
            .map(|item| Matcher {
                key: text(item, "match"),
                omit: flag(item, "omit"),
                value: from_yaml(&item["value"]),
            })
            .collect(),
        override_value_order: v["override_value_order"]
            .as_sequence()
            .expect("a list")
            .iter()
            .map(|item| item.as_str().expect("a string").to_string())
            .collect(),
        hidden_value: v["hidden_value"].as_bool(),
        validator_rule: v["validator_rule"].as_str().map(|s| s.to_string()),
        validator_type: v["validator_type"].as_str().map(|s| s.to_string()),
    };
    Ok(Document::new(source))
}

fn attrs(pairs: &[(&str, &str)]) -> Attributes {
    Attributes::from_pairs(pairs.iter().map(|(k, v)| (k.to_string(), v.to_string())).collect())
}

fn string(s: &str) -> Value {
    Value::String(s.to_string())
}

fn object(members: &[(&str, Value)]) -> Value {
    let mut table = StrMap::new();
    for (k, v) in members {
        table.insert(k.to_string(), v.clone());
    }
    Value::Object(table)
}

fn source(
    value_type: DocumentValueType,
    default_value: Value,
    merge_default: bool,
    merge_overrides: bool,
    overrides: Vec<(&str, bool, Value)>,
    order: &[&str],
) -> DocumentSource {
    DocumentSource {
        description: "A test".to_string(),
        default_value,
        enabled: true,
        value_type,
        name: "Param".to_string(),
        collection: "Class".to_string(),
        omit: false,
        merge_default,
        merge_overrides,
        override_values: overrides
            .into_iter()
            .map(|(key, omit, value)| Matcher { key: key.to_string(), omit, value })
            .collect(),
        override_value_order: order.iter().map(|s| s.to_string()).collect(),
        hidden_value: None,
        validator_rule: None,
        validator_type: None,
    }
}

const DOC1_YAML: &str = r#"
    description: Test document
    default_value: "Hello, World"
    override: true
    parameter_type: string
    parameter: hello
    puppetclass_name: world
    omit: false
    merge_default: false
    merge_overrides: false
    override_values:
      - match: key1=value1,key2=value2
        omit: false
        value: Hello, key1, key2
      - match: key2=value2,key3=value3
        omit: false
        value: Hello, key2, key3
    override_value_order:
      - key1,key2
      - key2,key3
    hidden_value: false
    validator_rule: null
    validator_type: null
    "#;

#[test]
fn test_doc_v2() {
    let doc = parse_document(DOC1_YAML).expect("could not parse document");
    assert_eq!(doc.total_overrides(), 2);
    assert_eq!(doc.default_value, string("Hello, World"));
    assert_eq!(
        doc.get_value(&attrs(&[("key2", "value2"), ("key3", "value3")])),
        string("Hello, key2, key3")
    );
}

#[test]
fn test_deser_overrides() {
    let table = deser_overrides(vec![
        Matcher { key: "key1=value1,key2=value2".to_string(), omit: false, value: string("Hello, World") },
        Matcher { key: "key3=value1,key3=value2".to_string(), omit: false, value: string("Hello, everyone") },
    ]);
    assert_eq!(table.len(), 2);
    assert_eq!(table.get("key1=value1,key2=value2").map(|e| &e.value), Some(&string("Hello, World")));
    assert_eq!(table.get("key3=value1,key3=value2").map(|e| &e.value), Some(&string("Hello, everyone")));
}

#[test]
fn overrides_are_stored_under_canonical_keys_and_the_later_wins() {
    let table = deser_overrides(vec![
        Matcher { key: " B = 2 , a=1".to_string(), omit: false, value: string("first") },
        Matcher { key: "x=y".to_string(), omit: true, value: Value::Null },
        Matcher { key: "A=1,b=2".to_string(), omit: false, value: string("second") },
    ]);
    assert_eq!(table.len(), 2);
    assert_eq!(table.get("a=1,b=2").map(|e| &e.value), Some(&string("second")));
    assert_eq!(table.get("x=y").map(|e| e.omit), Some(true));
    assert_eq!(table.get(" B = 2 , a=1").map(|e| e.omit), None);
    assert_eq!(match_to_string(" B = 2 , a=1"), "a=1,b=2");
}

#[test]
fn earliest_matching_tier_wins_without_merge() {
    let doc = Document::new(source(
        DocumentValueType::String,
        string("default"),
        false,
        false,
        vec![("k1=v1,k2=v2", false, string("A")), ("k2=v2,k3=v3", false, string("B"))],
        &["k1,k2", "k2,k3"],
    ));
    assert_eq!(doc.get_value(&attrs(&[("k2", "v2"), ("k3", "v3")])), string("B"));
    assert_eq!(doc.get_value(&attrs(&[("k1", "v1"), ("k2", "v2")])), string("A"));
    assert_eq!(doc.get_value(&attrs(&[("k1", "v1"), ("k2", "v2"), ("k3", "v3")])), string("A"));
    // Values are compared without regard to case or surrounding blanks.
    assert_eq!(doc.get_value(&attrs(&[("k2", " V2 "), ("k3", "V3")])), string("B"));
}

#[test]
fn no_matching_tier_gives_the_default() {
    let doc = Document::new(source(
        DocumentValueType::String,
        string("default"),
        false,
        false,
        vec![("k1=v1", false, string("A"))],
        &["k1", "k2"],
    ));
    assert_eq!(doc.get_value(&attrs(&[])), string("default"));
    assert_eq!(doc.get_value(&attrs(&[("k1", "other")])), string("default"));
    assert_eq!(doc.get_value(&attrs(&[("K1", "v1")])), string("default"));
    let composite = Document::new(source(
        DocumentValueType::Hash,
        object(&[("a", string("1"))]),
        true,
        true,
        vec![("k1=v1", false, object(&[("b", string("2"))]))],
        &["k1"],
    ));
    assert_eq!(composite.get_value(&attrs(&[("k1", "zz")])), object(&[("a", string("1"))]));
}

#[test]
fn merge_mode_gathers_all_matching_tiers() {
    let doc = Document::new(source(
        DocumentValueType::Hash,
        Value::object(),
        false,
        true,
        vec![
            ("domain=example.com", false, object(&[("a", string("domain")), ("shared", string("domain"))])),
            ("fqdn=host.example.com", false, object(&[("b", string("host")), ("shared", string("host"))])),
        ],
        &["domain", "fqdn"],
    ));
    assert_eq!(
        doc.get_value(&attrs(&[("domain", "example.com"), ("fqdn", "host.example.com")])),
        object(&[("a", string("domain")), ("b", string("host")), ("shared", string("host"))])
    );
    assert_eq!(
        doc.get_value(&attrs(&[("fqdn", "host.example.com")])),
        object(&[("b", string("host")), ("shared", string("host"))])
    );
    assert_eq!(doc.get_value(&attrs(&[("fqdn", "other")])), Value::object());
}

#[test]
fn merge_mode_starts_from_the_default_when_asked() {
    let overrides =
        || vec![("k=v", false, object(&[("b", string("2")), ("a", string("over"))]))];
    let with = Document::new(source(
        DocumentValueType::Json,
        object(&[("a", string("1")), ("d", string("4"))]),
        true,
        true,
        overrides(),
        &["k"],
    ));
    assert_eq!(
        with.get_value(&attrs(&[("k", "v")])),
        object(&[("a", string("over")), ("b", string("2")), ("d", string("4"))])
    );
    let without = Document::new(source(
        DocumentValueType::Yaml,
        object(&[("a", string("1")), ("d", string("4"))]),
        false,
        true,
        overrides(),
        &["k"],
    ));
    assert_eq!(
        without.get_value(&attrs(&[("k", "v")])),
        object(&[("a", string("over")), ("b", string("2"))])
    );
    // A type that is not composite is never merged.
    let atomic = Document::new(source(
        DocumentValueType::Array,
        object(&[("a", string("1"))]),
        true,
        true,
        overrides(),
        &["k"],
    ));
    assert_eq!(
        atomic.get_value(&attrs(&[("k", "v")])),
        object(&[("b", string("2")), ("a", string("over"))])
    );
}

#[test]
fn omit_is_honoured_in_merge_mode_only() {
    let overrides = || {
        vec![
            ("a=1", true, object(&[("skipped", string("x"))])),
            ("b=2", false, object(&[("kept", string("y"))])),
        ]
    };
    let merging = Document::new(source(
        DocumentValueType::Hash,
        Value::object(),
        false,
        true,
        overrides(),
        &["a", "b"],
    ));
    assert_eq!(
        merging.get_value(&attrs(&[("a", "1"), ("b", "2")])),
        object(&[("kept", string("y"))])
    );
    let replacing = Document::new(source(
        DocumentValueType::Hash,
        string("default"),
        false,
        false,
        overrides(),
        &["a", "b"],
    ));
    assert_eq!(
        replacing.get_value(&attrs(&[("a", "1"), ("b", "2")])),
        object(&[("skipped", string("x"))])
    );
}

#[test]
fn an_empty_object_result_gives_the_default() {
    let doc = Document::new(source(
        DocumentValueType::String,
        string("default"),
        false,
        false,
        vec![("a=1", false, Value::object())],
        &["a"],
    ));
    assert_eq!(doc.get_value(&attrs(&[("a", "1")])), string("default"));
}

#[test]
fn an_empty_tier_probes_the_empty_key() {
    let doc = Document::new(source(
        DocumentValueType::String,
        string("default"),
        false,
        false,
        vec![("", false, string("everyone"))],
        &[""],
    ));
    assert_eq!(doc.order_list, vec![Vec::<String>::new()]);
    assert_eq!(doc.get_value(&attrs(&[("a", "1")])), string("everyone"));
}

#[test]
fn new_documents_have_lowercase_names_and_parsed_tiers() {
    let doc = Document::new(source(
        DocumentValueType::Number,
        Value::Number(serde_json::Number::from(5u64)),
        false,
        false,
        vec![],
        &["HostGroup,Domain,hostgroup", "fqdn", ""],
    ));
    assert_eq!(doc.name, "param");
    assert_eq!(doc.collection, "class");
    assert_eq!(doc.description, "A test");
    assert_eq!(doc.value_type, DocumentValueType::Number);
    assert!(doc.enabled);
    assert_eq!(
        doc.order_list,
        vec![vec!["domain".to_string(), "hostgroup".to_string()], vec!["fqdn".to_string()], vec![]]
    );
    assert_eq!(doc.override_order(), vec!["domain,hostgroup", "fqdn", ""]);
    assert_eq!(doc.override_attrs(), vec!["domain", "fqdn", "hostgroup"]);
    assert_eq!(doc.total_overrides(), 0);
    assert_eq!(doc.get_value(&attrs(&[])), Value::Number(serde_json::Number::from(5u64)));
}

#[test]
fn override_order_splits_back_into_the_authored_names() {
    let authored = ["Is_Virtual,domain", "fqdn", "c,b,a,b", "x,,y"];
    let doc = Document::new(source(
        DocumentValueType::String,
        Value::Null,
        false,
        false,
        vec![],
        &authored,
    ));
    let written = doc.override_order();
    assert_eq!(written.len(), authored.len());
    for (entry, back) in authored.iter().zip(written.iter()) {
        let mut expected: Vec<String> =
            entry.split_terminator(',').map(|n| n.to_lowercase()).collect();
        expected.sort();
        expected.dedup();
        let names: Vec<String> = back.split_terminator(',').map(|n| n.to_string()).collect();
        assert_eq!(names, expected);
    }
}

#[test]
fn str2list_of_attrs_keeps_the_order_of_the_tiers() {
    let tiers = str2list_of_attrs(&vec![
        "fqdn".to_string(),
        "domain,is_virtual".to_string(),
        "hostgroup,Is_Virtual,hostgroup".to_string(),
    ]);
    assert_eq!(
        tiers,
        vec![
            vec!["fqdn".to_string()],
            vec!["domain".to_string(), "is_virtual".to_string()],
            vec!["hostgroup".to_string(), "is_virtual".to_string()],
        ]
    );
}

#[test]
fn str2attr_splits_pairs_and_reports_the_first_bare_token() {
    let parsed = str2attr("Domain=Example.com,is_virtual=true,a=b=c,Domain=local").expect("pairs");
    assert_eq!(parsed.len(), 3);
    assert_eq!(parsed.get("domain"), Some(&"local".to_string()));
    assert_eq!(parsed.get("is_virtual"), Some(&"true".to_string()));
    assert_eq!(parsed.get("a"), Some(&"b=c".to_string()));
    assert_eq!(str2attr("").expect("nothing").len(), 0);
    assert_eq!(str2attr("a=1,bare,other,c=2"), Err("matcher a=1,bare,other,c=2, attr bare".to_string()));
    assert_eq!(str2attr(","), Err("matcher ,, attr ".to_string()));
}

#[test]
fn get_overrides_copies_the_table() {
    let doc = Document::new(source(
        DocumentValueType::String,
        Value::Null,
        false,
        false,
        vec![("b=2", true, string("B")), ("a=1", false, string("A"))],
        &["a"],
    ));
    let copy = doc.get_overrides();
    assert_eq!(copy, doc.overrides);
    assert_eq!(copy.len(), 2);
    assert_eq!(copy.get("b=2").map(|e| (e.omit, e.value.clone())), Some((true, string("B"))));
}

#[test]
fn document_info_reports_the_document() {
    let doc = Document::new(source(
        DocumentValueType::Boolean,
        Value::Bool(true),
        false,
        false,
        vec![("a=1", false, Value::Bool(false))],
        &["b,a", "c"],
    ));
    let info = DocumentInfo::from(&doc);
    assert_eq!(info.name, "param");
    assert_eq!(info.collection_name, "class");
    assert!(info.overrides_enabled);
    assert_eq!(info.total_overrides, 1);
    assert_eq!(info.order_list, vec!["a,b", "c"]);
    assert_eq!(info.override_attrs, vec!["a", "b", "c"]);
    assert_eq!(info.value_type, DocumentValueType::Boolean);
    assert_eq!(info.default_value, Value::Bool(true));
}

#[test]
fn document_errors_come_from_their_sources() {
    assert!(matches!(DocumentError::from("bad".to_string()), DocumentError::ContentError(m) if m == "bad"));
    let io = std::io::Error::new(std::io::ErrorKind::NotFound, "gone");
    assert!(matches!(DocumentError::from(io), DocumentError::StdIoError(e) if e.kind() == std::io::ErrorKind::NotFound));
    assert!(matches!(parse_document("a: [unclosed"), Err(DocumentError::ParseError(_))));
    assert_eq!(DocumentValueType::default(), DocumentValueType::String);
    assert!(DocumentValueType::Yaml.is_composite());
    assert!(!DocumentValueType::Array.is_composite());
}

#[test]
fn an_override_is_taken_apart_into_attributes() {
    let entry = param_resolver::document::Override::new(Matcher {
        key: "Domain=example.com,is_virtual=true".to_string(),
        omit: true,
        value: string("v"),
    })
    .expect("pairs");
    assert!(entry.omit);
    assert_eq!(entry.value, string("v"));
    assert_eq!(entry.attrs, attrs(&[("domain", "example.com"), ("is_virtual", "true")]));
    assert_eq!(
        param_resolver::document::Override::new(Matcher {
            key: "all".to_string(),
            omit: false,
            value: Value::Null,
        }),
        Err("matcher all, attr all".to_string())
    );
}
