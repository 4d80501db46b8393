use nestac::json::get_paths;
use nestac::json::read;
use nestac::json_get_paths;
use nestac::json_update;
use nestac::PathError;
use nestac::TreeValue;

fn txt(s: &str) -> TreeValue {
    TreeValue::Text(s.to_string())
}

fn tbl(entries: Vec<(&str, TreeValue)>) -> TreeValue {
    TreeValue::Table(entries.into_iter().map(|(k, v)| (k.to_string(), v)).collect())
}

fn lst(items: Vec<TreeValue>) -> TreeValue {
    TreeValue::List(items)
}

fn sample_doc() -> TreeValue {
    tbl(vec![
        ("alpha", tbl(vec![("beta", txt("b")), ("gamma", lst(vec![txt("x"), txt("y")]))])),
        ("delta", lst(vec![tbl(vec![("inner", txt("deep"))]), TreeValue::Int(7)])),
        ("leaf", TreeValue::Bool(true)),
        ("nothing", TreeValue::Null),
    ])
}

#[test]
fn enumerated_paths_all_read_back() {
    let doc = sample_doc();
    let paths = get_paths(&doc);
    assert!(!paths.is_empty());
    for p in &paths {
        let found = read(p, &doc, None).unwrap();
        assert!(found.is_some(), "path {} did not resolve", p);
    }
}

#[test]
fn update_then_read_returns_new_value() {
    let mut doc = sample_doc();
    let r = json_update(&mut doc, "alpha.gamma.[1]", None, txt("z")).unwrap();
    assert_eq!(r, Some(txt("y")));
    let back = read("alpha.gamma.[1]", &doc, None).unwrap();
    assert_eq!(back.unwrap(), &txt("z"));
}

#[test]
fn update_returns_prior_read() {
    let mut doc = sample_doc();
    let before = match read("alpha.beta", &doc, None).unwrap() {
        Some(v) => Some(v == &txt("b")),
        None => None,
    };
    assert_eq!(before, Some(true));
    let displaced = json_update(&mut doc, "alpha.beta", None, txt("new")).unwrap();
    assert_eq!(displaced, Some(txt("b")));

    let mut doc = sample_doc();
    assert!(read("alpha.fresh", &doc, None).unwrap().is_none());
    let displaced = json_update(&mut doc, "alpha.fresh", None, txt("made")).unwrap();
    assert_eq!(displaced, None);
    assert_eq!(read("alpha.fresh", &doc, None).unwrap(), Some(&txt("made")));
}

#[test]
fn missing_first_token_is_absent_not_fault() {
    let doc = tbl(vec![("foo", TreeValue::Int(1))]);
    let r = read("missing", &doc, None).unwrap();
    assert!(r.is_none());
}

#[test]
fn out_of_range_index_update_is_shape_mismatch() {
    let mut doc = tbl(vec![("foo", lst(vec![txt("a"), txt("b")]))]);
    let r = json_update(&mut doc, "foo.[2]", None, txt("c"));
    assert_eq!(r, Err(PathError::ShapeMismatch));
    assert_eq!(doc, tbl(vec![("foo", lst(vec![txt("a"), txt("b")]))]));
}

#[test]
fn custom_separator_fully_replaces_default() {
    let doc = tbl(vec![("foo", tbl(vec![("bar", TreeValue::Int(1))]))]);
    let hit = read("foo@bar", &doc, Some("@")).unwrap();
    assert_eq!(hit.unwrap(), &TreeValue::Int(1));
    let miss = read("foo.bar", &doc, Some("@")).unwrap();
    assert!(miss.is_none());
}

#[test]
fn rooted_enumeration_exact_paths() {
    let doc = tbl(vec![
        ("foo", tbl(vec![("bar", txt("bingo!"))])),
        ("hello", tbl(vec![("world", txt("!"))])),
    ]);
    let paths = json_get_paths(&doc, None);
    assert_eq!(
        paths,
        vec!["$", "$.foo", "$.foo.bar", "$.hello", "$.hello.world"]
    );
}

#[test]
fn rooted_enumeration_custom_symbol() {
    let doc = tbl(vec![("foo", txt("x"))]);
    let paths = json_get_paths(&doc, Some("root".to_string()));
    assert_eq!(paths, vec!["root", "root.foo"]);
}

#[test]
fn enumeration_includes_list_index_paths() {
    let doc = tbl(vec![("foo", lst(vec![txt("a"), txt("b")]))]);
    let paths = get_paths(&doc);
    assert_eq!(paths, vec!["foo", "foo.0", "foo.1"]);
}

#[test]
fn overflowing_index_token_is_malformed() {
    let doc = tbl(vec![("foo", lst(vec![txt("a")]))]);
    let r = read("foo.[18446744073709551616]", &doc, None);
    assert_eq!(r, Err(PathError::MalformedIndexToken));

    let mut doc2 = tbl(vec![("foo", lst(vec![txt("a")]))]);
    let r2 = json_update(&mut doc2, "foo.[18446744073709551616]", None, txt("b"));
    assert_eq!(r2, Err(PathError::MalformedIndexToken));
    assert_eq!(doc2, tbl(vec![("foo", lst(vec![txt("a")]))]));
}

#[test]
fn index_token_against_table_update_is_shape_mismatch() {
    let mut doc = tbl(vec![("a", TreeValue::Int(1))]);
    let r = json_update(&mut doc, "[0]", None, txt("x"));
    assert_eq!(r, Err(PathError::ShapeMismatch));
    assert_eq!(doc, tbl(vec![("a", TreeValue::Int(1))]));
}

#[test]
fn key_token_against_list_update_is_shape_mismatch() {
    let mut doc = tbl(vec![("foo", lst(vec![txt("a")]))]);
    let r = json_update(&mut doc, "foo.bar", None, txt("x"));
    assert_eq!(r, Err(PathError::ShapeMismatch));
}

#[test]
fn scalar_parent_update_is_shape_mismatch() {
    let mut doc = tbl(vec![("foo", TreeValue::Int(1))]);
    let r = json_update(&mut doc, "foo.bar", None, txt("x"));
    assert_eq!(r, Err(PathError::ShapeMismatch));
    assert_eq!(doc, tbl(vec![("foo", TreeValue::Int(1))]));
}

#[test]
fn missing_parent_update_is_silent() {
    let mut doc = tbl(vec![("foo", TreeValue::Int(1))]);
    let r = json_update(&mut doc, "gone.bar.baz", None, txt("x")).unwrap();
    assert_eq!(r, None);
    assert_eq!(doc, tbl(vec![("foo", TreeValue::Int(1))]));
}

#[test]
fn empty_path_is_an_empty_key() {
    let doc = tbl(vec![("", txt("void"))]);
    let r = read("", &doc, None).unwrap();
    assert_eq!(r.unwrap(), &txt("void"));

    let doc2 = tbl(vec![("foo", txt("x"))]);
    assert!(read("", &doc2, None).unwrap().is_none());
}

#[test]
fn consecutive_separators_make_empty_tokens() {
    let doc = tbl(vec![("a", tbl(vec![("", tbl(vec![("b", TreeValue::Int(3))]))]))]);
    let r = read("a..b", &doc, None).unwrap();
    assert_eq!(r.unwrap(), &TreeValue::Int(3));
}

#[test]
fn numeric_text_is_a_key_against_tables() {
    let doc = tbl(vec![("0", txt("zero"))]);
    let r = read("0", &doc, None).unwrap();
    assert_eq!(r.unwrap(), &txt("zero"));
}

#[test]
fn bracketed_token_never_matches_a_table_key() {
    let doc = tbl(vec![("[0]", txt("literal"))]);
    let r = read("[0]", &doc, None).unwrap();
    assert!(r.is_none());
}

#[test]
fn bare_digits_resolve_list_positions() {
    let doc = tbl(vec![("foo", lst(vec![txt("a"), txt("b")]))]);
    let r = read("foo.1", &doc, None).unwrap();
    assert_eq!(r.unwrap(), &txt("b"));
    assert!(read("foo.2", &doc, None).unwrap().is_none());
    assert!(read("foo.-1", &doc, None).unwrap().is_none());
}

#[test]
fn list_root_replacement_by_index() {
    let mut doc = lst(vec![txt("a"), txt("b")]);
    let displaced = json_update(&mut doc, "[0]", None, txt("z")).unwrap();
    assert_eq!(displaced, Some(txt("a")));
    assert_eq!(doc, lst(vec![txt("z"), txt("b")]));
}

#[test]
fn enumeration_of_scalar_and_list_roots() {
    assert_eq!(get_paths(&txt("just text")), Vec::<String>::new());
    let doc = lst(vec![txt("a"), lst(vec![txt("b")])]);
    assert_eq!(get_paths(&doc), vec!["0", "1", "1.0"]);
    let rooted = json_get_paths(&txt("s"), None);
    assert_eq!(rooted, vec!["$"]);
}

#[test]
fn rooted_list_paths_read_back_without_label() {
    let doc = lst(vec![txt("a"), tbl(vec![("k", txt("v"))])]);
    let paths = json_get_paths(&doc, None);
    assert_eq!(paths, vec!["$", "$.0", "$.1", "$.1.k"]);
    for p in paths.iter().skip(1) {
        let rel = &p[2..];
        assert!(read(rel, &doc, None).unwrap().is_some());
    }
}
