use param_resolver::api::ApiError;
use param_resolver::attrs::Attributes;
use param_resolver::collection::{Collection, CollectionError};
use param_resolver::config::LogLevel;
use param_resolver::document::{
    Document, DocumentError, DocumentSource, DocumentValueType, Matcher,
};
use param_resolver::handlers::{
    get_collection, get_collection_attrs, get_collection_values, get_collections,
    get_collections_stat, get_document, get_document_attrs, get_document_overrides,
    get_document_value, get_documents, remove_trailing_slash,
};
use param_resolver::loader::{is_definition_file, CollectionLoader};
use param_resolver::models::{
    CollectionInfo, CollectionList, CollectionResponse, DocumentAttrs, DocumentInfo,
    DocumentOverrides,
};
use param_resolver::value::Value;

fn string(s: &str) -> Value {
    Value::String(s.to_string())
}

fn attrs(pairs: &[(&str, &str)]) -> Attributes {
    Attributes::from_pairs(pairs.iter().map(|(k, v)| (k.to_string(), v.to_string())).collect())
}

fn document(collection: &str, name: &str, default: &str, overrides: &[(&str, &str)], order: &[&str]) -> Document {
    Document::new(DocumentSource {
        description: format!("{} of {}", name, collection),
        default_value: string(default),
        enabled: true,
        value_type: DocumentValueType::String,
        name: name.to_string(),
        collection: collection.to_string(),
        omit: false,
        merge_default: false,
        merge_overrides: false,
        override_values: overrides
            .iter()
            .map(|(key, value)| Matcher { key: key.to_string(), omit: false, value: string(value) })
            .collect(),
        override_value_order: order.iter().map(|s| s.to_string()).collect(),
        hidden_value: None,
        validator_rule: None,
        validator_type: None,
    })
}

fn broken(message: &str) -> DocumentError {
    DocumentError::ContentError(message.to_string())
}

fn store() -> Collection {
    Collection::load(
        vec![
            Ok(document("Web", "Port", "80", &[("env=dev", "8080")], &["env"])),
            Ok(document("db", "port", "5432", &[], &["fqdn", "env,domain"])),
            Ok(document("web", "root", "/srv", &[("domain=x.org,env=dev", "/tmp")], &["fqdn", "domain,env"])),
            Ok(document("web", "port", "81", &[], &[])),
        ],
        false,
    )
    .expect("a store")
}

#[test]
fn load_groups_documents_by_collection() {
    let s = store();
    assert_eq!(s.total_collections(), 2);
    assert_eq!(s.total_documents(), 4);
    let web = s.get_documents(&"web".to_string()).expect("web");
    let names: Vec<&str> = web.iter().map(|d| d.name.as_str()).collect();
    assert_eq!(names, vec!["port", "root", "port"]);
    assert!(web.iter().all(|d| d.collection == "web"));
    assert_eq!(s.get_documents(&"db".to_string()).map(|d| d.len()), Some(1));
    assert!(s.get_documents(&"Web".to_string()).is_none());
}

#[test]
fn load_without_documents_fails_with_documents_not_found() {
    assert!(matches!(Collection::load(vec![], false), Err(CollectionError::DocumentsNotFound)));
    assert!(matches!(Collection::load(vec![], true), Err(CollectionError::DocumentsNotFound)));
    assert!(matches!(
        Collection::load(vec![Err(broken("one")), Err(broken("two"))], true),
        Err(CollectionError::DocumentsNotFound)
    ));
}

#[test]
fn load_with_a_corrupt_file_aborts_or_skips() {
    let outcomes = || {
        vec![
            Ok(document("a", "x", "1", &[], &[])),
            Err(broken("first")),
            Ok(document("b", "y", "2", &[], &[])),
            Err(broken("second")),
        ]
    };
    match Collection::load(outcomes(), false) {
        Err(CollectionError::DocumentError(DocumentError::ContentError(m))) => assert_eq!(m, "first"),
        other => panic!("unexpected {:?}", other),
    }
    let s = Collection::load(outcomes(), true).expect("a store");
    assert_eq!(s.total_collections(), 2);
    assert_eq!(s.total_documents(), 2);
    assert!(matches!(
        Collection::load(vec![Err(broken("only"))], false),
        Err(CollectionError::DocumentError(DocumentError::ContentError(m))) if m == "only"
    ));
}

#[test]
fn loader_takes_one_outcome_at_a_time() {
    let mut strict = CollectionLoader::new(false);
    assert!(strict.accept(Ok(document("a", "x", "1", &[], &[]))).is_ok());
    assert!(matches!(
        strict.accept(Err(broken("bad"))),
        Err(CollectionError::DocumentError(DocumentError::ContentError(m))) if m == "bad"
    ));
    assert_eq!(strict.finish().expect("a store").total_documents(), 1);

    let mut lenient = CollectionLoader::new(true);
    assert!(lenient.accept(Err(broken("bad"))).is_ok());
    assert!(!lenient.has_documents());
    assert!(matches!(lenient.finish(), Err(CollectionError::DocumentsNotFound)));
}

#[test]
fn definition_files_are_told_by_their_names() {
    for name in ["a.yml", "a.yaml", "dir.d.yml", "x.YAML.yml", "é.yaml"] {
        assert!(is_definition_file(name), "{}", name);
    }
    for name in [".a.yml", ".yml", ".yaml", "a.yml~", "a.YML", "a.json", "yml", "", "a.yaml.bak"] {
        assert!(!is_definition_file(name), "{}", name);
    }
}

#[test]
fn get_document_finds_the_first_of_a_name() {
    let s = store();
    let doc = s.get_document(&"web".to_string(), &"port".to_string()).expect("port");
    assert_eq!(doc.default_value, string("80"));
    assert!(s.get_document(&"web".to_string(), &"Port".to_string()).is_none());
    assert!(s.get_document(&"web".to_string(), &"missing".to_string()).is_none());
    assert!(s.get_document(&"none".to_string(), &"port".to_string()).is_none());
}

#[test]
fn get_values_resolves_every_document_of_a_collection() {
    let s = store();
    let values = s.get_values(&"web".to_string(), &attrs(&[("env", "DEV"), ("domain", "x.org")])).expect("web");
    assert_eq!(values.len(), 2);
    // Of two documents with one name the later one counts.
    assert_eq!(values.get("port"), Some(&string("81")));
    assert_eq!(values.get("root"), Some(&string("/tmp")));
    let values = s.get_values(&"web".to_string(), &attrs(&[])).expect("web");
    assert_eq!(values.get("root"), Some(&string("/srv")));
    assert!(s.get_values(&"none".to_string(), &attrs(&[])).is_none());
}

#[test]
fn summaries_report_documents_and_collections() {
    let s = store();
    let info = DocumentInfo::try_from((&s, &"web".to_string(), &"root".to_string())).expect("root");
    assert_eq!(info.document, "root");
    assert_eq!(info.collection, "web");
    assert_eq!(info.description, "root of web");
    assert!(info.enabled);
    assert_eq!(info.total_overrides, 1);
    assert_eq!(info.override_order, vec!["fqdn", "domain,env"]);
    assert_eq!(info.default_value, string("/srv"));
    assert_eq!(info.value_type, DocumentValueType::String);
    assert!(matches!(
        DocumentInfo::try_from((&s, &"web".to_string(), &"none".to_string())),
        Err(CollectionError::DocumentNotFound(c, d)) if c == "web" && d == "none"
    ));

    let web = CollectionInfo::try_from((&s, &"web".to_string())).expect("web");
    assert_eq!(web.collection, "web");
    assert_eq!(web.total_documents, 3);
    assert_eq!(web.documents.len(), 3);
    assert_eq!(web.documents[1].document, "root");
    assert_eq!(web.attrs(), vec!["domain", "env", "fqdn"]);
    assert!(matches!(
        CollectionInfo::try_from((&s, &"none".to_string())),
        Err(CollectionError::CollectionNotFound(c)) if c == "none"
    ));

    let db = CollectionInfo::from((s.get_documents(&"db".to_string()).expect("db"), &"db".to_string()));
    let list = CollectionList::from(vec![db, web]);
    assert_eq!(list.total_collections, 2);
    assert_eq!(list.total_documents, 4);
    assert_eq!(list.collections[0].collection, "db");

    let doc = s.get_document(&"web".to_string(), &"root".to_string()).expect("root");
    assert_eq!(DocumentAttrs::from(doc).0, vec!["domain", "env", "fqdn"]);
    assert_eq!(DocumentOverrides::from(doc).0, doc.overrides);
}

#[test]
fn handlers_answer_queries() {
    let s = store();
    let web = "web".to_string();
    let none = "none".to_string();
    let root = "root".to_string();

    let stat = get_collections_stat(&s);
    assert_eq!((stat.ping, stat.total_collections, stat.total_documents), ("pong", 2, 4));

    match get_collections(&s) {
        Ok(CollectionResponse::Collections(list)) => {
            assert_eq!(list.total_collections, 2);
            assert_eq!(list.total_documents, 4);
            let names: Vec<&str> = list.collections.iter().map(|c| c.collection.as_str()).collect();
            assert_eq!(names, vec!["db", "web"]);
        }
        other => panic!("unexpected {:?}", other),
    }
    assert!(matches!(get_collection(&s, &web), Ok(CollectionResponse::CollectionInfo(i)) if i.total_documents == 3));
    assert!(matches!(get_collection(&s, &none), Err(CollectionResponse::CollectionNotFound(c)) if c == "none"));
    assert!(matches!(get_documents(&s, &web), Ok(CollectionResponse::CollectionInfo(i)) if i.documents.len() == 3));
    assert!(matches!(get_documents(&s, &none), Err(CollectionResponse::CollectionNotFound(_))));
    assert!(matches!(get_collection_attrs(&s, &web), Ok(CollectionResponse::CollectionAttrs(a)) if a == vec!["domain", "env", "fqdn"]));
    assert!(matches!(get_collection_attrs(&s, &none), Err(CollectionResponse::CollectionNotFound(_))));
    assert!(matches!(
        get_collection_values(&s, &web, &attrs(&[("env", "dev")])),
        Ok(CollectionResponse::CollectionValues(v)) if v.get("root") == Some(&string("/srv")) && v.len() == 2
    ));
    assert!(matches!(get_collection_values(&s, &none, &attrs(&[])), Err(CollectionResponse::CollectionNotFound(_))));

    assert!(matches!(get_document(&s, &web, &root), Ok(CollectionResponse::DocumentInfo(i)) if i.document == "root"));
    assert!(matches!(
        get_document(&s, &web, &none),
        Err(CollectionResponse::DocumentNotFound(c, d)) if c == "web" && d == "none"
    ));
    assert!(matches!(get_document_attrs(&s, &web, &root), Ok(CollectionResponse::DocumentAttrs(a)) if a.0 == vec!["domain", "env", "fqdn"]));
    assert!(matches!(get_document_attrs(&s, &none, &root), Err(CollectionResponse::DocumentNotFound(_, _))));
    assert!(matches!(
        get_document_value(&s, &web, &root, &attrs(&[("env", "dev"), ("domain", "X.org")])),
        Ok(CollectionResponse::DocumentValue(v)) if v == string("/tmp")
    ));
    assert!(matches!(get_document_value(&s, &web, &none, &attrs(&[])), Err(CollectionResponse::DocumentNotFound(_, _))));
    assert!(matches!(
        get_document_overrides(&s, &web, &root, &attrs(&[])),
        Ok(CollectionResponse::DocumentOverrides(t)) if t.0.len() == 1 && t.0.contains_key("domain=x.org,env=dev")
    ));
    assert!(matches!(get_document_overrides(&s, &web, &none, &attrs(&[])), Err(CollectionResponse::DocumentNotFound(_, _))));
}

#[test]
fn responses_map_to_status_codes() {
    assert_eq!(CollectionResponse::CollectionAttrs(vec![]).status_code(), 200);
    assert_eq!(CollectionResponse::DocumentValue(Value::Null).status_code(), 200);
    assert_eq!(CollectionResponse::DocumentNotFound("c".into(), "d".into()).status_code(), 404);
    assert_eq!(CollectionResponse::CollectionNotFound("c".into()).status_code(), 404);
}

#[test]
fn trailing_slashes_are_removed() {
    for path in ["/collection/", "/collection///", "/", "", "/a/b", "//", "a/ "] {
        assert_eq!(remove_trailing_slash(path), path.trim_end_matches('/'), "{:?}", path);
    }
}

#[test]
fn log_levels_have_names() {
    let names: Vec<String> = [LogLevel::Info, LogLevel::Warn, LogLevel::Debug, LogLevel::Trace, LogLevel::Error]
        .into_iter()
        .map(String::from)
        .collect();
    assert_eq!(names, vec!["info", "warn", "debug", "trace", "error"]);
    assert_eq!(LogLevel::default(), LogLevel::Info);
    assert_eq!(LogLevel::Trace.as_str(), "trace");
    let text: String = LogLevel::Warn.into();
    assert_eq!(text, "warn");
}

#[test]
fn errors_wrap_their_causes() {
    let inner = CollectionError::from(DocumentError::ContentError("bad".to_string()));
    assert!(matches!(&inner, CollectionError::DocumentError(DocumentError::ContentError(m)) if m == "bad"));
    assert!(matches!(ApiError::from(inner), ApiError::CollectionError(CollectionError::DocumentError(_))));
}
