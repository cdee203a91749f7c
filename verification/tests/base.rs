use shuttle::calendar::{civil_from_days, days_from_civil, iso_date, to_padded};
use shuttle::digest::hex_sha256;
use shuttle::glob::glob_match;
use shuttle::json_doc::{array, object, parse_json, Json};
use shuttle::ordered::{name_set, sort_texts, Ordered};
use shuttle::source_url::{classify_source_url, python_file};
use shuttle::text::{
    after_last, before_first, is_rooted, is_same_path, join, join_path, parse_unsigned,
    path_components, replace, rsplit_once, second_piece, split_char, split_lines, split_once,
    split_whitespace, str_lt, to_decimal, to_lowercase, to_signed_decimal, trim,
};
use shuttle::wheel::{is_http_url, normalize_name, parse_simple_index, resolve_url};

#[test]
fn documents_are_read_and_written_back() {
    let text = r#"{"b":[1,-2.5e3,true,null,"x\"é"],"a":{}}"#;
    let doc = parse_json(text.as_bytes()).unwrap();
    assert_eq!(doc.items_at("b").unwrap().len(), 5);
    let again = parse_json(doc.to_text().as_bytes()).unwrap();
    assert_eq!(again.to_text(), doc.to_text());
    assert_eq!(doc.copy().to_text(), doc.to_text());
    assert!(matches!(doc.get("a"), Some(Json::Object(_))));
    assert!(doc.get("c").is_none() && doc.text_at("a").is_none());
    assert_eq!(doc.items_at("b").unwrap()[4].as_text().map(String::as_str), Some("x\"é"));
    for bad in [&b"{"[..], b"", b"{} x", b"\xff"] {
        assert!(parse_json(bad).is_err(), "{bad:?}");
    }
}

#[test]
fn documents_are_built() {
    let doc = object(vec![
        ("k".to_string(), array(vec![Json::Text("v\n".to_string()), Json::Bool(false)])),
        ("n".to_string(), Json::Number("7".to_string())),
    ]);
    assert_eq!(doc.to_text(), r#"{"k":["v\n",false],"n":7}"#);
}

#[test]
fn entries_are_kept_in_order() {
    let mut m = Ordered::new();
    for (k, v) in [("b", 1), ("a", 2), ("b", 3), ("é", 4), ("Z", 5)] {
        m.insert(k.to_string(), v);
    }
    let all: Vec<_> = (0..m.len()).map(|i| (m.key_at(i).as_str(), *m.value_at(i))).collect();
    assert_eq!(all, vec![("Z", 5), ("a", 2), ("b", 3), ("é", 4)]);
    assert_eq!(m.get("b"), Some(&3));
    assert_eq!(m.get("c"), None);
}

#[test]
fn names_are_sorted_and_counted_once() {
    let names = |v: &[&str]| v.iter().map(|s| s.to_string()).collect::<Vec<_>>();
    assert_eq!(name_set(&names(&["b", "a", "b", "c", "a"])), names(&["a", "b", "c"]));
    assert_eq!(sort_texts(names(&["b", "a", "b"])), names(&["a", "b", "b"]));
    assert!(str_lt("a", "aa") && str_lt("a", "b") && !str_lt("b", "b"));
}

#[test]
fn texts_are_cut() {
    assert_eq!(split_once("a=b=c", "="), Some(("a".to_string(), "b=c".to_string())));
    assert_eq!(rsplit_once("a=b=c", "="), Some(("a=b".to_string(), "c".to_string())));
    assert_eq!(split_once("abc", "="), None);
    assert_eq!(after_last("x/y/z", "/"), "z");
    assert_eq!(before_first("x#y#z", "#"), "x");
    assert_eq!(second_piece("k: v: w", ": ").as_deref(), Some("v"));
    assert_eq!(split_char("a//b", '/'), vec!["a", "", "b"]);
    assert_eq!(split_whitespace(" a \t b\n"), vec!["a", "b"]);
    assert_eq!(split_lines("a\r\nb\n\nc"), vec!["a", "b", "", "c"]);
    assert_eq!(trim("\u{a0} x \n"), "x");
    assert_eq!(replace("aXbXc", "X", "--"), "a--b--c");
    assert_eq!(join(&vec!["a".to_string(), "b".to_string()], ", "), "a, b");
}

#[test]
fn numbers_are_written_and_read() {
    assert_eq!(to_decimal(0), "0");
    assert_eq!(to_decimal(u64::MAX), "18446744073709551615");
    assert_eq!(to_signed_decimal(i32::MIN), "-2147483648");
    assert_eq!(parse_unsigned("18446744073709551615", u64::MAX), Some(u64::MAX));
    assert_eq!(parse_unsigned("18446744073709551616", u64::MAX), None);
    assert_eq!(parse_unsigned("256", 255), None);
    assert_eq!(parse_unsigned("+7", 255), Some(7));
    assert_eq!(parse_unsigned("", 255), None);
    assert_eq!(parse_unsigned("1x", 255), None);
    assert_eq!(to_padded(7, 4), "0007");
    assert_eq!(to_padded(12345, 4), "12345");
}

#[test]
fn paths_are_compared_by_their_parts() {
    assert!(is_rooted("/a") && !is_rooted("a"));
    assert!(is_same_path("/a//b/./c/", "/a/b/c") && !is_same_path("/a/b", "a/b"));
    assert_eq!(path_components("/a/./b//c").last().unwrap(), "c");
    assert_eq!(join_path("a", "b"), "a/b");
    assert_eq!(join_path("a", "/b"), "/b");
}

#[test]
fn dates_are_counted_from_the_epoch() {
    assert_eq!(days_from_civil(1970, 1, 1), 0);
    assert_eq!(days_from_civil(2000, 2, 29), 11_016);
    assert_eq!(civil_from_days(11_016), (2000, 2, 29));
    for days in [0u64, 58, 59, 365, 789, 11_015, 20_000, 146_096, 146_097, 1_000_000] {
        let (y, m, d) = civil_from_days(days);
        assert_eq!(days_from_civil(y, m as u32, d as u32), days as i128);
    }
    assert_eq!(iso_date(951_782_400), "2000-02-29");
    assert_eq!(iso_date(1_709_164_799), "2024-02-28");
}

#[test]
fn digests_and_case_folding_are_those_of_their_standards() {
    assert_eq!(
        hex_sha256(b"abc"),
        "ba7816bf8f01cfea414140de5dae2223b00361a396177a9cb410ff61f20015ad"
    );
    assert_eq!(to_lowercase("Flask-X"), "flask-x");
    assert_eq!(normalize_name(&normalize_name("A__b..C")), normalize_name("A__b..C"));
}

#[test]
fn plain_patterns_match_themselves() {
    assert!(glob_match("a/b", "a/b") && !glob_match("a/b", "a/c"));
    assert!(glob_match("", "") && !glob_match("", "a"));
    assert!(glob_match("*a*b", "xxaybzb") && !glob_match("*a*b", "xxayz"));
}

#[test]
fn index_addresses_resolve() {
    assert_eq!(resolve_url("http://h/s/p/", "w.whl"), "http://h/s/p/w.whl");
    assert_eq!(resolve_url("http://h/s/p/", "./w.whl"), "http://h/s/p/w.whl");
    assert!(is_http_url("https://x") && is_http_url("http://x") && !is_http_url("ftp://x"));
    let anchors = parse_simple_index("<A HREF='x'>t</A><a>none</a>");
    assert!(anchors.len() <= 1, "{anchors:?}");
}

#[test]
fn ecosystems_come_with_names_and_versions() {
    for url in [
        "https://registry.npmjs.org/lodash/-/lodash-4.17.20.tgz",
        "https://crates.io/api/v1/crates/libc/0.2.100/download",
        "https://registry.npmjs.org/",
        "https://proxy.golang.org/x",
        "https://static.crates.io/crates/libc/other.crate",
        "https://example.com/",
        "",
    ] {
        let parts = classify_source_url(url);
        if parts.ecosystem.is_some() {
            assert!(parts.name.is_some() && parts.version.is_some(), "{url}");
        }
    }
    let parts = python_file("My_Pkg-1.2-py3-none-any.whl");
    assert_eq!(parts.name.as_deref(), Some("my-pkg"));
    assert_eq!(parts.version.as_deref(), Some("1.2"));
}

#[test]
fn documents_are_written_with_a_line_for_each_member() {
    let doc = object(vec![
        ("a".to_string(), array(vec![Json::Bool(true), Json::Null])),
        ("b".to_string(), Json::Text("x".to_string())),
    ]);
    assert_eq!(doc.to_pretty(), "{\n  \"a\": [\n    true,\n    null\n  ],\n  \"b\": \"x\"\n}");
    assert_eq!(Json::Number("1.".to_string()).to_pretty(), "{}");
}
