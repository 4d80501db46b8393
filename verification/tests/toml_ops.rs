use nestac::toml::get_paths;
use nestac::toml::read;
use nestac::toml::update;
use nestac::TreeValue;

fn txt(s: &str) -> TreeValue {
    TreeValue::Text(s.to_string())
}

fn tbl(entries: Vec<(&str, TreeValue)>) -> TreeValue {
    TreeValue::Table(entries.into_iter().map(|(k, v)| (k.to_string(), v)).collect())
}

fn lst(items: Vec<TreeValue>) -> TreeValue {
    TreeValue::List(items)
}

#[test]
fn paths_key_path_interpolation() {
    let toml_body = tbl(vec![
        ("foo", tbl(vec![("bar", tbl(vec![("hello", txt("world!"))]))])),
        (
            "one",
            tbl(vec![(
                "two",
                tbl(vec![("three", tbl(vec![("four", txt("five"))]))]),
            )]),
        ),
    ]);
    let paths: Vec<String> = get_paths(&toml_body);
    assert_eq!(paths.len(), 7);
    assert_eq!(paths[0], "foo");
    assert_eq!(paths[1], "foo.bar");
    assert_eq!(paths[2], "foo.bar.hello");
    assert_eq!(paths[3], "one");
    assert_eq!(paths[4], "one.two");
    assert_eq!(paths[5], "one.two.three");
    assert_eq!(paths[6], "one.two.three.four");

    let toml_body = tbl(vec![(
        "medabots",
        tbl(vec![
            ("hokusho", tbl(vec![("medal", txt("not kabuto"))])),
            ("metabee", tbl(vec![("medal", txt("kabuto"))])),
        ]),
    )]);
    let paths: Vec<String> = get_paths(&toml_body);
    assert_eq!(paths.len(), 5);
    assert_eq!(paths[0], "medabots");
    assert_eq!(paths[1], "medabots.hokusho");
    assert_eq!(paths[2], "medabots.hokusho.medal");
    assert_eq!(paths[3], "medabots.metabee");
    assert_eq!(paths[4], "medabots.metabee.medal");
}

#[test]
fn test_flat_toml() {
    let toml_body = tbl(vec![("foo", tbl(vec![("bar", txt("hello"))]))]);
    let val = read("foo.bar", &toml_body, None).unwrap();
    assert!(val.is_some());
    assert_eq!(val.unwrap(), &txt("hello"));
}

#[test]
fn test_flat_toml_custom_separator() {
    let toml_body = tbl(vec![("foo", tbl(vec![("bar", txt("hello"))]))]);
    let sep = Some("@");
    let val = read("foo@bar", &toml_body, sep).unwrap();
    assert!(val.is_some());
    assert_eq!(val.unwrap(), &txt("hello"));
}

#[test]
fn test_flat_toml_list() {
    let toml_body = tbl(vec![("foo", tbl(vec![("bar", lst(vec![txt("hello"), txt("world")]))]))]);
    let val = read("foo.bar.[1]", &toml_body, None).unwrap();
    assert!(val.is_some());
    assert_eq!(val.unwrap(), &txt("world"));
}

#[test]
fn test_nested_toml() {
    let toml_body = tbl(vec![("foo", tbl(vec![("bar", tbl(vec![("baz", txt("hello"))]))]))]);
    let val = read("foo.bar.baz", &toml_body, None).unwrap();
    assert_eq!(val.unwrap(), &txt("hello"));
}

#[test]
fn test_nested_toml_list() {
    let toml_body = tbl(vec![(
        "foo",
        tbl(vec![("bar", tbl(vec![("baz", lst(vec![txt("hello"), txt("world")]))]))]),
    )]);
    let val = read("foo.bar.baz.[1]", &toml_body, None).unwrap();
    assert_eq!(val.unwrap(), &txt("world"));
}

#[test]
fn test_nested_toml_list_map() {
    let toml_body = tbl(vec![(
        "foo",
        tbl(vec![(
            "bar",
            tbl(vec![(
                "baz",
                lst(vec![txt("hello"), tbl(vec![("inner", txt("world"))])]),
            )]),
        )]),
    )]);
    let val = read("foo.bar.baz.[1].inner", &toml_body, None).unwrap();
    assert_eq!(val.unwrap(), &txt("world"));
}

#[test]
fn update_root_key_toml() {
    let mut toml_body = tbl(vec![("foo", txt("bingo!"))]);
    let keypath = "foo";
    let sep: Option<&str> = None;
    let new_val = txt("updated!");

    let old_val = update(&mut toml_body, keypath, sep, new_val).unwrap();

    assert_eq!(old_val.is_none(), false);
    assert_eq!(old_val.unwrap(), txt("bingo!"));

    let new_val: Option<&TreeValue> = read(keypath, &toml_body, sep).unwrap();

    assert_eq!(new_val.is_none(), false);
    assert_eq!(new_val.unwrap(), &txt("updated!"));
}

#[test]
fn update_root_vec_toml() {
    let mut toml_body = tbl(vec![("foo", lst(vec![txt("bingo!")]))]);
    let keypath = "foo.[0]";
    let sep: Option<&str> = None;
    let new_val = txt("updated!");

    let old_val = update(&mut toml_body, keypath, sep, new_val).unwrap();

    assert_eq!(old_val.is_none(), false);
    assert_eq!(old_val.unwrap(), txt("bingo!"));

    let new_val: Option<&TreeValue> = read(keypath, &toml_body, sep).unwrap();

    assert_eq!(new_val.is_none(), false);
    assert_eq!(new_val.unwrap(), &txt("updated!"));
}

#[test]
fn update_deep_key_toml() {
    let mut toml_body = tbl(vec![("foo", tbl(vec![("bar", txt("bingo!"))]))]);
    let keypath = "foo.bar";
    let sep: Option<&str> = None;
    let new_val = txt("updated!");

    let old_val = update(&mut toml_body, keypath, sep, new_val).unwrap();

    assert_eq!(old_val.is_none(), false);
    assert_eq!(old_val.unwrap(), txt("bingo!"));

    let new_val: Option<&TreeValue> = read(keypath, &toml_body, sep).unwrap();

    assert_eq!(new_val.is_none(), false);
    assert_eq!(new_val.unwrap(), &txt("updated!"));

    let mut toml_body = tbl(vec![("foo", tbl(vec![("bar", tbl(vec![("doo", txt("bingo!"))]))]))]);
    let keypath = "foo.bar.doo";
    let sep: Option<&str> = None;
    let new_val = txt("updated!");

    let old_val = update(&mut toml_body, keypath, sep, new_val).unwrap();

    assert_eq!(old_val.is_none(), false);
    assert_eq!(old_val.unwrap(), txt("bingo!"));

    let new_val: Option<&TreeValue> = read(keypath, &toml_body, sep).unwrap();

    assert_eq!(new_val.is_none(), false);
    assert_eq!(new_val.unwrap(), &txt("updated!"));
}

#[test]
fn update_deep_key_vec_toml() {
    let mut toml_body = tbl(vec![("foo", tbl(vec![("bar", lst(vec![txt("bingo!")]))]))]);
    let keypath = "foo.bar.[0]";
    let sep: Option<&str> = None;
    let new_val = txt("updated!");

    let old_val = update(&mut toml_body, keypath, sep, new_val).unwrap();

    assert_eq!(old_val.is_none(), false);
    assert_eq!(old_val.unwrap(), txt("bingo!"));

    let new_val: Option<&TreeValue> = read(keypath, &toml_body, sep).unwrap();

    assert_eq!(new_val.is_none(), false);
    assert_eq!(new_val.unwrap(), &txt("updated!"));
}
