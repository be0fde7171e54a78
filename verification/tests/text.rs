use param_resolver::order::{chars_le, sort_chars};
use param_resolver::text::{
    find_char, from_chars, is_space_char, join_chars, join_strings, lowercase_string,
    split_terminator_chars, split_terminator_string, to_chars, to_lowercase, trim,
};

fn chars(s: &str) -> Vec<char> {
    s.chars().collect()
}

#[test]
fn chars_and_strings_convert_both_ways() {
    assert_eq!(to_chars("héllo"), chars("héllo"));
    assert_eq!(from_chars(&chars("héllo wörld")), "héllo wörld");
    assert_eq!(from_chars(&vec![]), "");
}

#[test]
fn trim_agrees_with_the_standard_library() {
    for s in ["", " ", "  a b  ", "\t\n x \r\n", "\u{a0}x\u{2003}", "x", " \u{b}\u{c}y", "\u{85}z\u{1680}"] {
        assert_eq!(from_chars(&trim(&chars(s))), s.trim(), "input {:?}", s);
    }
}

#[test]
fn whitespace_agrees_with_the_standard_library() {
    for code in 0u32..0x3100 {
        if let Some(c) = char::from_u32(code) {
            assert_eq!(is_space_char(c), c.is_whitespace(), "char {:?}", c);
        }
    }
}

#[test]
fn lowercase_agrees_with_the_standard_library() {
    for s in ["", "ABC xyz 09 _-=,", "MiXeD", "ÄÖÜ", "ΟΔΟΣ", "İstanbul", "ǅ", "Straße"] {
        assert_eq!(from_chars(&to_lowercase(&chars(s))), s.to_lowercase(), "input {:?}", s);
        assert_eq!(lowercase_string(s), s.to_lowercase());
    }
    for code in 0u32..128 {
        let s = char::from_u32(code).unwrap().to_string();
        assert_eq!(lowercase_string(&s), s.to_lowercase());
    }
}

#[test]
fn split_agrees_with_the_standard_library() {
    for s in ["", ",", ",,", "a", "a,", ",a", "a,b", "a,,b,", " x , y "] {
        let expected: Vec<String> = s.split_terminator(',').map(|t| t.to_string()).collect();
        assert_eq!(split_terminator_string(s, ','), expected, "input {:?}", s);
        let pieces: Vec<String> =
            split_terminator_chars(&chars(s), ',').iter().map(|p| from_chars(p)).collect();
        assert_eq!(pieces, expected);
    }
}

#[test]
fn find_char_gives_the_first_index_or_the_length() {
    assert_eq!(find_char(&chars("a=b=c"), '='), 1);
    assert_eq!(find_char(&chars("abc"), '='), 3);
    assert_eq!(find_char(&chars(""), '='), 0);
    assert_eq!(find_char(&chars("=a"), '='), 0);
}

#[test]
fn join_agrees_with_the_standard_library() {
    let cases: Vec<Vec<&str>> = vec![vec![], vec![""], vec!["a"], vec!["a", "b"], vec!["", ""], vec!["x", "", "y"]];
    for parts in cases {
        let owned: Vec<String> = parts.iter().map(|p| p.to_string()).collect();
        assert_eq!(join_strings(&owned, ','), parts.join(","));
        let as_chars: Vec<Vec<char>> = parts.iter().map(|p| chars(p)).collect();
        assert_eq!(from_chars(&join_chars(&as_chars, ',')), parts.join(","));
    }
}

#[test]
fn order_and_sort_agree_with_the_standard_library() {
    let words = ["", "a", "A", "ab", "b", "a=", "a-", "ä", "z", "Z", "\u{10000}", "\u{ffff}", "a"];
    for x in words {
        for y in words {
            assert_eq!(chars_le(&chars(x), &chars(y)), x <= y, "{:?} <= {:?}", x, y);
        }
    }
    let mut expected: Vec<String> = words.iter().map(|w| w.to_string()).collect();
    expected.sort();
    let sorted: Vec<String> =
        sort_chars(words.iter().map(|w| chars(w)).collect()).iter().map(|w| from_chars(w)).collect();
    assert_eq!(sorted, expected);
}
