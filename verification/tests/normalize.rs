use param_resolver::attrs::Attributes;
use param_resolver::normalize::{
    build_compare_key, extract_attrs, normalize_attrs, normalize_override_key, sorted_unique,
};

fn attrs(pairs: &[(&str, &str)]) -> Attributes {
    Attributes::from_pairs(pairs.iter().map(|(k, v)| (k.to_string(), v.to_string())).collect())
}

#[test]
fn test_normalize_override_key() {
    let tests: Vec<(&str, &str)> = vec![
        ("is_virtual=TruE,HostGroup=Dev", "hostgroup=dev,is_virtual=true"),
        ("domain=example.com ,  HostGroup=pRODd", "domain=example.com,hostgroup=prodd"),
        (
            "ad-group=true,domain=example.com , HostGroup=pRODd",
            "ad-group=true,domain=example.com,hostgroup=prodd",
        ),
        (" HostGroup=pRODd,any=", "any=,hostgroup=prodd"),
        (" all,HostGroup=pRODd,any=", "all,any=,hostgroup=prodd"),
        (
            " all=NO,HostGroup=pRODd, any= ,ZED=always ",
            "all=no,any=,hostgroup=prodd,zed=always",
        ),
        (" HostGroup=pRO d, any  =  AAA BBB ", "any=aaa bbb,hostgroup=pro d"),
    ];
    for (s1, s2) in tests {
        assert_eq!(s2, normalize_override_key(s1));
    }
}

#[test]
fn test_normalize_attrs() {
    let a = attrs(&[("KEY_a ", "value_1  "), ("kEY_z", "   VALUE_2"), ("  key_D", "valUE_3  ")]);
    let r1 = normalize_attrs(&a, false);
    assert_eq!(&r1, "key_a=value_1,key_d=valUE_3,key_z=VALUE_2");
    let r1 = normalize_attrs(&a, true);
    assert_eq!(&r1, "key_a=value_1,key_d=value_3,key_z=value_2");

    let a = attrs(&[("key_a", "value_1  "), ("key_z", "   VALUE_2"), ("key_d", "valUE_3  ")]);
    let r1 = build_compare_key(
        &a,
        &vec!["key_a".to_string(), "key_z".to_string(), "a_key".to_string()],
        true,
    );
    assert_eq!(&r1, "a_key=,key_a=value_1,key_z=value_2");
}

#[test]
fn normalize_is_idempotent_on_examples() {
    for s in [
        "is_virtual=TruE,HostGroup=Dev",
        " all=NO,HostGroup=pRODd, any= ,ZED=always ",
        " HostGroup=pRO d, any  =  AAA BBB ",
        "a = = b, c==d ,e",
        "",
        ",a",
        "b,,a",
    ] {
        let once = normalize_override_key(s);
        assert_eq!(normalize_override_key(&once), once, "input {:?}", s);
    }
}

#[test]
fn normalize_of_only_empty_tokens_is_not_a_fixed_point() {
    // Two empty tokens give a lone comma; a lone comma has one empty token.
    assert_eq!(normalize_override_key(",,"), ",");
    assert_eq!(normalize_override_key(","), "");
    assert_eq!(normalize_override_key(" , "), ",");
}

#[test]
fn normalize_ignores_case_whitespace_and_order() {
    assert_eq!(
        normalize_attrs(&attrs(&[("HostGroup", " Dev ")]), true),
        normalize_attrs(&attrs(&[("hostgroup", "dev")]), true)
    );
    assert_eq!(normalize_attrs(&attrs(&[("HostGroup", " Dev ")]), true), "hostgroup=dev");
    assert_eq!(
        normalize_override_key("B=2 , a=1,C = 3"),
        normalize_override_key("c=3,b=2,A=1")
    );
    assert_eq!(
        normalize_attrs(&attrs(&[("b", "2"), ("a", "1")]), true),
        normalize_attrs(&attrs(&[("a", "1"), ("b", "2")]), true)
    );
}

#[test]
fn normalize_keeps_empty_values_and_bare_tokens() {
    assert_eq!(normalize_override_key("name="), "name=");
    assert_eq!(normalize_override_key(" ALL "), "all");
    assert_eq!(normalize_override_key("=x"), "=x");
    assert_eq!(normalize_override_key("a=b=c"), "a=b=c");
    assert_eq!(normalize_override_key("a,"), "a");
    assert_eq!(normalize_attrs(&attrs(&[("name", "")]), true), "name=");
    assert_eq!(normalize_attrs(&attrs(&[]), true), "");
}

#[test]
fn normalize_sorts_by_full_token_text() {
    // '-' sorts before '=', so "a-b=1" comes before "a=2".
    assert_eq!(normalize_override_key("a=2,a-b=1"), "a-b=1,a=2");
    assert_eq!(normalize_override_key("b=1,a=2,a=1"), "a=1,a=2,b=1");
    assert_eq!(normalize_override_key("x=1,x=1"), "x=1,x=1");
}

#[test]
fn normalize_handles_text_beyond_ascii() {
    // Lowercase and whitespace outside ASCII come from the standard library.
    assert_eq!(normalize_override_key("Stadt=KÖLN"), "stadt=köln");
    assert_eq!(normalize_override_key("ÄRGER=1,Zebra=2"), "zebra=2,ärger=1");
    assert_eq!(normalize_override_key("\u{a0}name\u{3000}=\u{2003}Wert\u{a0}"), "name=wert");
    assert_eq!(normalize_override_key("\u{b}tab\u{c}=\tv\r\n"), "tab=v");
    for s in ["Stadt=KÖLN", "ΟΔΟΣ=Σ", "İ=1"] {
        assert_eq!(normalize_override_key(s), {
            let mut tokens: Vec<String> = s
                .split_terminator(',')
                .map(|t| match t.split_once('=') {
                    Some((k, v)) => format!("{}={}", k.trim(), v.trim()).to_lowercase(),
                    None => t.trim().to_lowercase(),
                })
                .collect();
            tokens.sort();
            tokens.join(",")
        });
    }
}

#[test]
fn compare_key_takes_only_the_named_attributes() {
    let a = attrs(&[("k1", "V1"), ("k2", "v2"), ("k3", "v3")]);
    assert_eq!(build_compare_key(&a, &vec!["k2".into(), "k3".into()], true), "k2=v2,k3=v3");
    assert_eq!(build_compare_key(&a, &vec!["k1".into()], true), "k1=v1");
    assert_eq!(build_compare_key(&a, &vec!["k1".into()], false), "k1=V1");
    assert_eq!(build_compare_key(&a, &vec!["missing".into()], true), "missing=");
    assert_eq!(build_compare_key(&a, &vec![], true), "");
    // The name is looked up as written and listed in lowercase.
    assert_eq!(build_compare_key(&a, &vec!["K1".into()], true), "k1=");
}

#[test]
fn extract_attrs_lists_each_name_once_in_order() {
    let lists = vec![
        vec!["fqdn".to_string()],
        vec!["domain".to_string()],
        vec!["hostgroup".to_string(), "is_virtual".to_string(), "domain".to_string()],
    ];
    assert_eq!(extract_attrs(&lists), vec!["domain", "fqdn", "hostgroup", "is_virtual"]);
    assert_eq!(extract_attrs(&vec![]), Vec::<String>::new());
    assert_eq!(
        sorted_unique(&vec!["b".to_string(), "a".to_string(), "b".to_string(), "B".to_string()]),
        vec!["B", "a", "b"]
    );
}

#[test]
fn attributes_keep_the_later_of_two_pairs() {
    let a = attrs(&[("k", "1"), ("j", "x"), ("k", "2")]);
    assert_eq!(a.len(), 2);
    assert_eq!(a.get("k"), Some(&"2".to_string()));
    assert_eq!(a.get("j"), Some(&"x".to_string()));
    assert_eq!(a.get("K"), None);
    assert_eq!(a.name_at(0), "j");
    assert_eq!(a.value_at(1), "2");
    assert_eq!(a.clone(), a);
}
