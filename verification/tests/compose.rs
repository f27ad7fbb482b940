use jsef::{
    compose_dict, compose_list, compose_value, parse_value, ComposeOpts, JsefDict, JsefErr,
    JsefErrType, JsefList, JsefValue,
};

#[test]
fn compose() {
    let targets: [&str; 4] = [
        r#"{"path"={"to"="a value"}} "other" {"a"="0" "b"="1"}"#,
        r#"{path.to="a value"} other {a=0 b=1}"#,
        "{\n\tpath.to = \"a value\"\n}\nother\n{\n\ta = 0\n\tb = 1\n}",
        "# test\n# prelude\n{ path.to = \"a value\" } other { a = 0 b = 1 }",
    ];
    let opts_list = [
        ComposeOpts::simple(),
        ComposeOpts::compact(),
        ComposeOpts::pretty(),
        ComposeOpts {
            indent: None,
            force_quotes: false,
            dense: false,
            fold_dicts: true,
            prelude: Some("test\nprelude".to_string()),
        },
    ];

    let mut root = JsefList::new();
    let mut left = JsefDict::default();
    let mut right = JsefDict::default();
    let mut path = JsefDict::default();

    path.insert("to".to_owned(), JsefValue::string_from("a value"));
    left.insert("path".to_owned(), JsefValue::Dict(path));
    right.insert("a".to_owned(), JsefValue::string_from("0"));
    right.insert("b".to_owned(), JsefValue::string_from("1"));
    root.push(JsefValue::Dict(left));
    root.push(JsefValue::string_from("other"));
    root.push(JsefValue::Dict(right));

    let iter = opts_list.iter().zip(targets.iter());
    for (opts, target) in iter {
        let composed = compose_list(&root, opts).unwrap();
        assert_eq!(&composed, target);
    }
}

#[test]
fn quoting_minimality() {
    let bare = JsefValue::string_from("hello");
    let composed = compose_value(&bare, &ComposeOpts::compact()).unwrap();
    assert_eq!(composed, "hello");

    let spaced = JsefValue::string_from("a value");
    let composed = compose_value(&spaced, &ComposeOpts::compact()).unwrap();
    assert_eq!(composed, "\"a value\"");
    let composed = compose_value(&spaced, &ComposeOpts::simple()).unwrap();
    assert_eq!(composed, "\"a value\"");
}

#[test]
fn escapes_on_write() {
    let v = JsefValue::string_from("a\nb\tc\rd\0e\\f\"g");
    let composed = compose_value(&v, &ComposeOpts::compact()).unwrap();
    assert_eq!(composed, "\"a\\nb\\tc\\rd\\0e\\\\f\\\"g\"");

    let back = parse_value(&composed).unwrap();
    assert_eq!(back, v);
}

#[test]
fn depth_boundary_compose() {
    // one level under the limit: composes
    let mut ok_tree = JsefValue::new_list();
    for _ in 0..255 {
        ok_tree = JsefValue::list_from(vec![ok_tree]);
    }
    assert!(compose_value(&ok_tree, &ComposeOpts::compact()).is_ok());

    // at the limit: fails right before the offending bracket
    let mut bad_tree = JsefValue::new_list();
    for _ in 0..256 {
        bad_tree = JsefValue::list_from(vec![bad_tree]);
    }
    let err = compose_value(&bad_tree, &ComposeOpts::compact()).unwrap_err();
    assert_eq!(err, JsefErr::new(JsefErrType::MaxDepth, 1, 257));
}

#[test]
fn option_builders() {
    // the readable preset, rebuilt axis by axis from the compact one
    let opts = ComposeOpts::compact().indent("\t").dense(false);
    let mut d = JsefDict::default();
    d.insert("a".to_owned(), JsefValue::string_from("1"));
    let composed = compose_dict(&d, &opts).unwrap();
    let reference = compose_dict(&d, &ComposeOpts::pretty()).unwrap();
    assert_eq!(composed, reference);

    let opts = ComposeOpts::pretty().no_indent().dense(true).force_quotes(true).fold_dicts(false);
    let composed = compose_dict(&d, &opts).unwrap();
    let reference = compose_dict(&d, &ComposeOpts::simple()).unwrap();
    assert_eq!(composed, reference);

    let opts = ComposeOpts::compact().prelude("note").no_prelude();
    let composed = compose_dict(&d, &opts).unwrap();
    assert_eq!(composed, "a=1");
}

#[test]
fn prelude_lines() {
    let d = JsefDict::default();
    let opts = ComposeOpts::compact().prelude("one\ntwo\r\nthree");
    let composed = compose_dict(&d, &opts).unwrap();
    assert_eq!(composed, "# one\n# two\n# three\n");
}

#[test]
fn empty_string_gap() {
    // an empty string is not forced into quotes by default, composes to
    // nothing, and the result does not parse back: a known sharp edge
    let empty = JsefValue::string_from("");
    let composed = compose_value(&empty, &ComposeOpts::compact()).unwrap();
    assert_eq!(composed, "");
    assert!(parse_value(&composed).is_err());

    // forcing quotes closes the gap
    let composed = compose_value(&empty, &ComposeOpts::simple()).unwrap();
    assert_eq!(composed, "\"\"");
    assert_eq!(parse_value(&composed).unwrap(), empty);
}

#[test]
fn bare_backslash_gap() {
    // a backslash is a word character, so a string of word characters
    // containing one is written bare yet still escaped; the bare token
    // parses back verbatim, so the round trip widens it: a known sharp edge
    let v = JsefValue::string_from("a\\b");
    let composed = compose_value(&v, &ComposeOpts::compact()).unwrap();
    assert_eq!(composed, "a\\\\b");
    assert_eq!(parse_value(&composed).unwrap(), JsefValue::string_from("a\\\\b"));

    // forcing quotes closes this gap too
    let composed = compose_value(&v, &ComposeOpts::simple()).unwrap();
    assert_eq!(composed, "\"a\\\\b\"");
    assert_eq!(parse_value(&composed).unwrap(), v);
}

#[test]
fn empty_dict_and_list_values() {
    let mut d = JsefDict::default();
    d.insert("a".to_owned(), JsefValue::new_list());
    d.insert("b".to_owned(), JsefValue::new_dict());
    let composed = compose_dict(&d, &ComposeOpts::compact()).unwrap();
    assert_eq!(composed, "a=[] b={}");

    // folding only applies to single-entry dicts, and an empty dict is not one
    let composed = compose_dict(&d, &ComposeOpts::pretty()).unwrap();
    assert_eq!(composed, "a = []\nb = {}");
}
