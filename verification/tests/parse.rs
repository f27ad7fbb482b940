use jsef::{parse_dict, parse_list, parse_value, JsefDict, JsefErr, JsefList, JsefValue};
use jsef::JsefErrType::{Mismatch, NotEof, Unexpected, MaxDepth};

#[test]
fn errors() {
    let sources: [(&str, JsefErr); 13] = [
        ("{a=1 b=2 c=3", JsefErr::new(Mismatch('}', None), 1, 13)),
        ("a=1 b=2 c=3}", JsefErr::new(NotEof('='), 1, 2)),
        ("[1 2 3", JsefErr::new(Mismatch(']', None), 1, 7)),
        ("1 2 3]", JsefErr::new(NotEof('2'), 1, 3)),
        ("{a=1 \"b=2 c=3}", JsefErr::new(Mismatch('"', None), 1, 15)),
        ("{a=1 b\"=2 c=3}", JsefErr::new(Mismatch('=', Some('"')), 1, 7)),
        ("{a=1 b= c=3}", JsefErr::new(Mismatch('}', Some('=')), 1, 10)),
        ("{a=1 =1 c=3}", JsefErr::new(Mismatch('}', Some('=')), 1, 6)),
        ("{a=1 b c=3}", JsefErr::new(Mismatch('=', Some('c')), 1, 8)),
        ("[1 b=2 3]", JsefErr::new(Mismatch(']', Some('=')), 1, 5)),
        ("{a=1 new\nline=2 c=3}", JsefErr::new(Mismatch('=', Some('l')), 2, 1)),
        ("{a=1 b.=2 c=3}", JsefErr::new(Unexpected(Some('=')), 1, 8)),
        ("{a=1 .b=2 c=3}", JsefErr::new(Mismatch('}', Some('.')), 1, 6)),
    ];

    for (string, err) in sources {
        let result = parse_value(string).unwrap_err();
        assert_eq!(result, err);
    }
}

#[test]
fn parse_values() {
    let plain: &str = "value";
    let quoted: &str = " \"value\" ";

    let value = JsefValue::string_from("value");

    let parsed = parse_value(plain).unwrap();
    assert_eq!(parsed, value);

    let parsed = parse_value(quoted).unwrap();
    assert_eq!(parsed, value);
}

#[test]
fn dict_parse() {
    let source: &str = "a=1 b=2 c=3";

    let mut root = JsefDict::default();
    root.insert("a".to_owned(), JsefValue::string_from("1"));
    root.insert("b".to_owned(), JsefValue::string_from("2"));
    root.insert("c".to_owned(), JsefValue::string_from("3"));

    let parsed = parse_dict(source).unwrap();
    assert_eq!(parsed, root);
}

#[test]
fn list_parse() {
    let source: &str = "[1] 2 3";

    let list = JsefList::from([JsefValue::string_from("1")]);
    let root = JsefList::from([
        JsefValue::List(list),
        JsefValue::string_from("2"),
        JsefValue::string_from("3"),
    ]);

    let parsed = parse_list(source).unwrap();
    assert_eq!(parsed, root);
}

#[test]
fn path_parse() {
    let source: &str = "a.b.c=value";

    let mut root = JsefDict::default();
    let mut a = JsefDict::default();
    let mut b = JsefDict::default();

    b.insert("c".to_owned(), JsefValue::string_from("value"));
    a.insert("b".to_owned(), JsefValue::Dict(b));
    root.insert("a".to_owned(), JsefValue::Dict(a));

    let parsed = parse_dict(source).unwrap();
    assert_eq!(parsed, root);
}

#[test]
fn stresstest() {
    let source: &str = r##"
		key = value
		list = [0 1 2 3]
		0 = 1 # same as "0" = "1"

		# Special characters and escape sequences need quoted strings
		"#" = "multiline\nvalue"

		dict = {
			a = x
			b = y
		}

		# or the same with path notation...
		dict.a = x
		dict.b = y
		dict.a . oops = z # dict.a is now replaced with {oops = z}
	"##;

    let mut root = JsefDict::default();
    let mut dict = JsefDict::default();
    let mut a = JsefDict::default();

    let list = JsefValue::list_from(vec![
        JsefValue::string_from("0"),
        JsefValue::string_from("1"),
        JsefValue::string_from("2"),
        JsefValue::string_from("3"),
    ]);

    a.insert("oops".to_owned(), JsefValue::string_from("z"));
    dict.insert("a".to_owned(), JsefValue::Dict(a));
    dict.insert("b".to_owned(), JsefValue::string_from("y"));

    root.insert("key".to_owned(), JsefValue::string_from("value"));
    root.insert("list".to_owned(), list);
    root.insert("0".to_owned(), JsefValue::string_from("1"));
    root.insert("#".to_owned(), JsefValue::string_from("multiline\nvalue"));
    root.insert("dict".to_owned(), JsefValue::Dict(dict));

    let parsed = parse_dict(source).unwrap();
    assert_eq!(parsed, root);

    let opts_list = [
        jsef::ComposeOpts::simple(),
        jsef::ComposeOpts::compact(),
        jsef::ComposeOpts::pretty(),
        jsef::ComposeOpts {
            indent: None,
            force_quotes: false,
            dense: false,
            fold_dicts: true,
            prelude: Some("test\nprelude".to_string()),
        },
    ];

    for opts in opts_list.iter() {
        let composed = jsef::compose_dict(&root, opts).unwrap();
        let parsed = parse_dict(&composed).unwrap();
        assert_eq!(parsed, root);
    }
}

#[test]
fn duplicate_key_last_wins() {
    let parsed = parse_dict("a=1 a=2").unwrap();

    let mut expected = JsefDict::default();
    expected.insert("a".to_owned(), JsefValue::string_from("2"));
    assert_eq!(parsed, expected);
}

#[test]
fn overwrite_discards_plain_value() {
    let parsed = parse_dict("dict.a=x dict.a.oops=z").unwrap();

    let mut oops = JsefDict::default();
    oops.insert("oops".to_owned(), JsefValue::string_from("z"));
    let mut dict = JsefDict::default();
    dict.insert("a".to_owned(), JsefValue::Dict(oops));
    let mut expected = JsefDict::default();
    expected.insert("dict".to_owned(), JsefValue::Dict(dict));
    assert_eq!(parsed, expected);
}

#[test]
fn comment_skipping() {
    let parsed = parse_dict("a=1 # comment\nb=2").unwrap();

    let mut expected = JsefDict::default();
    expected.insert("a".to_owned(), JsefValue::string_from("1"));
    expected.insert("b".to_owned(), JsefValue::string_from("2"));
    assert_eq!(parsed, expected);
}

#[test]
fn empty_input_is_unexpected_eof() {
    let err = parse_value("").unwrap_err();
    assert_eq!(err, JsefErr::new(Unexpected(None), 1, 1));

    let err = parse_value("   # only a comment").unwrap_err();
    assert_eq!(err, JsefErr::new(Unexpected(None), 1, 20));
}

#[test]
fn escape_sequences() {
    let parsed = parse_value("\"a\\nb\\tc\\rd\\0e\\\\f\\\"g\\zh\"").unwrap();
    assert_eq!(parsed, JsefValue::string_from("a\nb\tc\rd\0e\\f\"gzh"));
}

#[test]
fn depth_boundary_parse() {
    // nested one level under the limit: parses
    let mut ok_src = String::new();
    for _ in 0..256 {
        ok_src.push('[');
    }
    for _ in 0..256 {
        ok_src.push(']');
    }
    assert!(parse_value(&ok_src).is_ok());

    // nested at the limit: fails right at the offending bracket
    let mut bad_src = String::new();
    for _ in 0..257 {
        bad_src.push('[');
    }
    for _ in 0..257 {
        bad_src.push(']');
    }
    let err = parse_value(&bad_src).unwrap_err();
    assert_eq!(err, JsefErr::new(MaxDepth, 1, 257));
}

#[test]
fn dict_lookup() {
    let parsed = parse_dict("a=1 b={c=2}").unwrap();
    assert_eq!(parsed.len(), 2);
    assert_eq!(parsed.get("a"), Some(&JsefValue::string_from("1")));
    assert_eq!(parsed.get("missing"), None);

    let inner = parsed.get("b").unwrap().as_dict().unwrap();
    assert_eq!(inner.get("c"), Some(&JsefValue::string_from("2")));

    let first = parsed.get_at(0);
    assert_eq!(first.0, "a");
}

#[test]
fn value_accessors() {
    let s = JsefValue::string_from("x");
    assert!(s.is_string());
    assert!(!s.is_list());
    assert!(!s.is_dict());
    assert_eq!(s.as_string(), Some(&"x".to_owned()));
    assert_eq!(s.as_list(), None);
    assert_eq!(s.as_dict(), None);
    assert_eq!(s.take_string(), Ok("x".to_owned()));

    let l = JsefValue::new_list();
    assert!(l.is_list());
    assert_eq!(l.as_list(), Some(&JsefList::new()));
    assert_eq!(l.take_list(), Ok(JsefList::new()));

    let d = JsefValue::new_dict();
    assert!(d.is_dict());
    assert_eq!(d.as_dict(), Some(&JsefDict::default()));
    assert_eq!(d.take_dict(), Ok(JsefDict::default()));

    let e = JsefValue::new_string();
    assert_eq!(e.take_list(), Err(JsefValue::string_from("")));

    let f = JsefValue::dict_from(JsefDict::default());
    assert!(f.is_dict());
    let g = JsefValue::list_from(vec![]);
    assert!(g.is_list());
}

#[test]
fn mutable_accessors() {
    let mut v = JsefValue::string_from("a");
    v.as_string_mut().unwrap().push('b');
    assert_eq!(v, JsefValue::string_from("ab"));
    assert!(v.as_list_mut().is_none());
    assert!(v.as_dict_mut().is_none());

    let mut l = JsefValue::new_list();
    l.as_list_mut().unwrap().push(JsefValue::string_from("x"));
    assert_eq!(l, JsefValue::list_from(vec![JsefValue::string_from("x")]));

    let mut d = JsefValue::new_dict();
    d.as_dict_mut().unwrap().insert("k".to_owned(), JsefValue::string_from("v"));
    let mut expected = JsefDict::default();
    expected.insert("k".to_owned(), JsefValue::string_from("v"));
    assert_eq!(d, JsefValue::Dict(expected));
}
