use nestac::json::get_paths;
use nestac::json::read;
use nestac::json_get_paths;
use nestac::json_update;
use nestac::TreeValue;

fn txt(s: &str) -> TreeValue {
    TreeValue::Text(s.to_string())
}

fn tbl(entries: Vec<(&str, TreeValue)>) -> TreeValue {
    TreeValue::Table(entries.into_iter().map(|(k, v)| (k.to_string(), v)).collect())
}

fn lst(items: Vec<TreeValue>) -> TreeValue {
    TreeValue::List(items)
}

#[test]
fn key_path_interpolation() {
    let json_body = tbl(vec![
        ("foo", tbl(vec![("bar", tbl(vec![("hello", txt("world!"))]))])),
        (
            "one",
            tbl(vec![(
                "two",
                tbl(vec![("three", tbl(vec![("four", txt("five"))]))]),
            )]),
        ),
    ]);
    let paths: Vec<String> = get_paths(&json_body);
    assert_eq!(paths.len(), 7);
    assert_eq!(paths[0], "foo");
    assert_eq!(paths[1], "foo.bar");
    assert_eq!(paths[2], "foo.bar.hello");
    assert_eq!(paths[3], "one");
    assert_eq!(paths[4], "one.two");
    assert_eq!(paths[5], "one.two.three");
    assert_eq!(paths[6], "one.two.three.four");

    let json_body = tbl(vec![(
        "medabots",
        tbl(vec![
            ("hokusho", tbl(vec![("medal", txt("not kabuto"))])),
            ("metabee", tbl(vec![("medal", txt("kabuto"))])),
        ]),
    )]);
    let paths: Vec<String> = get_paths(&json_body);
    assert_eq!(paths.len(), 5);
    assert_eq!(paths[0], "medabots");
    assert_eq!(paths[1], "medabots.hokusho");
    assert_eq!(paths[2], "medabots.hokusho.medal");
    assert_eq!(paths[3], "medabots.metabee");
    assert_eq!(paths[4], "medabots.metabee.medal");
}

#[test]
fn read_flat_json() {
    let json_keypath = "foo";
    let json_separator: Option<&str> = None;
    let json_data = tbl(vec![("foo", txt("bar"))]);
    let val: Option<&TreeValue> = read(json_keypath, &json_data, json_separator).unwrap();
    assert_eq!(val.is_none(), false);
    assert_eq!(val.unwrap(), &txt("bar"));
}

#[test]
fn read_inner_key_json() {
    let json_keypath = "foo.bar";
    let json_separator: Option<&str> = None;
    let json_data = tbl(vec![("foo", tbl(vec![("bar", txt("bingo!"))]))]);
    let val: Option<&TreeValue> = read(json_keypath, &json_data, json_separator).unwrap();
    assert_eq!(val.is_none(), false);
    assert_eq!(val.unwrap(), &txt("bingo!"));
}

#[test]
fn read_inner_key_json_with_custom_delimiter() {
    let json_keypath = "foo|bar";
    let json_separator: Option<&str> = Some("|");
    let json_data = tbl(vec![("foo", tbl(vec![("bar", txt("bingo!"))]))]);
    let val: Option<&TreeValue> = read(json_keypath, &json_data, json_separator).unwrap();
    assert_eq!(val.is_none(), false);
    assert_eq!(val.unwrap(), &txt("bingo!"));
}

#[test]
fn read_inner_array_json() {
    let json_keypath = "foo.[0]";
    let json_separator: Option<&str> = None;
    let json_data = tbl(vec![("foo", lst(vec![txt("bingo!")]))]);
    let val: Option<&TreeValue> = read(json_keypath, &json_data, json_separator).unwrap();
    assert_eq!(val.is_none(), false);
    assert_eq!(val.unwrap(), &txt("bingo!"));
}

#[test]
fn read_inner_key_from_inner_list_json() {
    let json_keypath = "foo.[0].bar";
    let json_separator: Option<&str> = None;
    let json_data = tbl(vec![("foo", lst(vec![tbl(vec![("bar", txt("bingo!"))])]))]);
    let val: Option<&TreeValue> = read(json_keypath, &json_data, json_separator).unwrap();
    assert_eq!(val.is_none(), false);
    assert_eq!(val.unwrap(), &txt("bingo!"));
}

#[test]
fn json_paths_key_path_interpolation() {
    let json_data = tbl(vec![
        ("foo", tbl(vec![("bar", txt("bingo!"))])),
        ("hello", tbl(vec![("world", txt("!"))])),
    ]);
    let paths: Vec<String> = json_get_paths(&json_data, None);
    assert_eq!(paths.len(), 5);
    assert_eq!(paths[0], "$");
    assert_eq!(paths[1], "$.foo");
    assert_eq!(paths[2], "$.foo.bar");
    assert_eq!(paths[3], "$.hello");
    assert_eq!(paths[4], "$.hello.world");

    let json_data = tbl(vec![
        ("foo", tbl(vec![("bar", lst(vec![txt("bingo!")]))])),
        ("hello", lst(vec![txt("world"), txt("!")])),
    ]);
    let paths: Vec<String> = json_get_paths(&json_data, None);
    assert_eq!(paths.len(), 7);
    assert_eq!(paths[0], "$");
    assert_eq!(paths[1], "$.foo");
    assert_eq!(paths[2], "$.foo.bar");
    assert_eq!(paths[3], "$.foo.bar.0");
    assert_eq!(paths[4], "$.hello");
    assert_eq!(paths[5], "$.hello.0");
    assert_eq!(paths[6], "$.hello.1");
}

#[test]
fn update_root_key_json() {
    let json_keypath = "foo";
    let json_separator: Option<&str> = None;
    let mut json_data = tbl(vec![("foo", txt("bingo!"))]);
    let old_val = json_update(
        &mut json_data,
        json_keypath,
        json_separator,
        txt("updated!"),
    )
    .unwrap();

    assert_eq!(old_val.is_none(), false);
    assert_eq!(old_val.unwrap(), txt("bingo!"));

    let new_val: Option<&TreeValue> = read(json_keypath, &json_data, json_separator).unwrap();
    assert_eq!(new_val.is_none(), false);
    assert_eq!(new_val.unwrap(), &txt("updated!"));
}

#[test]
fn update_inner_key_json() {
    let json_keypath = "foo.bar";
    let json_separator: Option<&str> = None;
    let mut json_data = tbl(vec![("foo", tbl(vec![("bar", txt("bingo!"))]))]);
    let old_val = json_update(
        &mut json_data,
        json_keypath,
        json_separator,
        txt("updated!"),
    )
    .unwrap();

    assert_eq!(old_val.is_none(), false);
    assert_eq!(old_val.unwrap(), txt("bingo!"));

    let new_val: Option<&TreeValue> = read(json_keypath, &json_data, json_separator).unwrap();
    assert_eq!(new_val.is_none(), false);
    assert_eq!(new_val.unwrap(), &txt("updated!"));
}

#[test]
fn update_with_custom_separator() {
    let json_keypath = "foo@192.168.0.1";
    let json_separator: Option<&str> = Some("@");
    let mut json_data = tbl(vec![("foo", tbl(vec![("192.168.0.1", txt("bingo!"))]))]);
    let old_val = json_update(
        &mut json_data,
        json_keypath,
        json_separator,
        txt("updated!"),
    )
    .unwrap();

    assert_eq!(old_val.is_none(), false);
    assert_eq!(old_val.unwrap(), txt("bingo!"));

    let new_val: Option<&TreeValue> = read(json_keypath, &json_data, json_separator).unwrap();
    assert_eq!(new_val.is_none(), false);
    assert_eq!(new_val.unwrap(), &txt("updated!"));
}
