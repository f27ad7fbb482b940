use jsef::{read_dict, read_list, read_value, JsefDict, JsefErr, JsefErrType, JsefValue};

#[test]
fn read_decodes_utf8() {
    // two-, three- and four-byte encodings are all word characters here
    let parsed = read_value("h\u{e9}llo".as_bytes()).unwrap();
    assert_eq!(parsed, JsefValue::string_from("h\u{e9}llo"));

    let parsed = read_value("\"\u{20ac} \u{1d11e}\"".as_bytes()).unwrap();
    assert_eq!(parsed, JsefValue::string_from("\u{20ac} \u{1d11e}"));
}

#[test]
fn read_list_and_dict() {
    let parsed = read_list(b"1 2").unwrap();
    assert_eq!(
        parsed,
        vec![JsefValue::string_from("1"), JsefValue::string_from("2")]
    );

    let parsed = read_dict(b"a=1").unwrap();
    let mut expected = JsefDict::default();
    expected.insert("a".to_owned(), JsefValue::string_from("1"));
    assert_eq!(parsed, expected);
}

#[test]
fn read_rejects_malformed_utf8() {
    // a lone continuation byte after two clean characters
    let err = read_value(b"ab\xff").unwrap_err();
    assert_eq!(err, JsefErr::new(JsefErrType::InvalidEncoding, 1, 3));

    // a lead byte with its continuation missing
    let err = read_value(b"a\xc3").unwrap_err();
    assert_eq!(err, JsefErr::new(JsefErrType::InvalidEncoding, 1, 2));

    // a surrogate code point has no scalar mapping
    let err = read_value(b"\xed\xa0\x80").unwrap_err();
    assert_eq!(err, JsefErr::new(JsefErrType::InvalidEncoding, 1, 1));

    // position tracking crosses line feeds before the failure
    let err = read_value(b"a\n\xff").unwrap_err();
    assert_eq!(err, JsefErr::new(JsefErrType::InvalidEncoding, 2, 1));
}

#[test]
fn read_accepts_overlong_nul() {
    // the decoder combines data bits without an overlong check, so the
    // two-byte form of NUL decodes to the NUL character, a word character
    let parsed = read_value(b"a\xc0\x80b").unwrap();
    assert_eq!(parsed, JsefValue::string_from("a\0b"));
}
