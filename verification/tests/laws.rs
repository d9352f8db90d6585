use liver_shot::error::Kind;
use liver_shot::cursor::Cursor;
use liver_shot::scanner::{scan_array, scan_object, scan_string};
use liver_shot::{find, Value};

// find_extends_path: finding "p.k" is finding "p", then "k" inside.
#[test]
fn path_extends_one_key_at_a_time() {
    let json = r#"{"x": 0, "p": {"q": {"k": [true], "z": null}}}"#;
    let outer = find("p.q", json).unwrap();
    let whole = find("p.q.k", json).unwrap();
    let inner = find("k", outer.get(json)).unwrap();
    assert_eq!(whole.start(), outer.start() + inner.start());
    assert_eq!(whole.end(), outer.start() + inner.end());
    assert_eq!("[true]", whole.get(json));

    // an error on the way is the error of the longer path
    let err = find("p.r.k", json).unwrap_err();
    assert_eq!(Kind::NotFound, err.kind());
    let err = find("p.r", json).unwrap_err();
    assert_eq!(Kind::NotFound, err.kind());
}

// error_has_one_class: every error answers exactly one predicate.
#[test]
fn each_error_has_one_class() {
    let cases = [
        ("a", r#"{"b": 1}"#, Kind::NotFound),
        ("a", "", Kind::InvalidJson),
        ("a", r#"{"a": "1"#, Kind::UnterminatedString),
        ("a", r#"{"a": {"b": 1"#, Kind::UnmatchedBracket),
        ("a", r#"{"a": [1, 2"#, Kind::UnmatchedBracket),
        ("a", "[]", Kind::UnsupportedArray),
    ];
    for (path, json, kind) in cases {
        let err = find(path, json).unwrap_err();
        assert_eq!(kind, err.kind(), "{json}");
        let count = err.is_not_found() as u8 + err.is_invalid_json() as u8 + err.is_unsupported_array() as u8;
        assert_eq!(1, count, "{json}");
    }
}

// value_has_one_kind: exactly one `is_*` holds, and `as_*` agrees.
#[test]
fn each_value_has_one_kind() {
    let json = r#"{"s": "x", "n": -2.5e3, "o": {}, "a": [], "t": true, "f": false, "z": null}"#;
    for key in ["s", "n", "o", "a", "t", "f", "z"] {
        let v = find(key, json).unwrap().value(json);
        let count = v.is_string() as u8
            + v.is_number() as u8
            + v.is_object() as u8
            + v.is_array() as u8
            + v.is_bool() as u8
            + v.is_null() as u8;
        assert_eq!(1, count, "{key}");
        assert_eq!(v.is_string(), v.as_str().is_some());
        assert_eq!(v.is_number(), v.as_number().is_some());
        assert_eq!(v.is_object(), v.as_object().is_some());
        assert_eq!(v.is_array(), v.as_array().is_some());
        assert_eq!(v.is_bool(), v.as_bool().is_some());
    }
    assert_eq!(Value::Number("-2.5e3"), find("n", json).unwrap().value(json));
}

// quoted_text_is_a_string: quoted literals stay strings.
#[test]
fn quoted_literal_is_a_string() {
    let json = r#"{"a": "null", "b": "false", "c": "12"}"#;
    assert_eq!(Value::String("null"), find("a", json).unwrap().value(json));
    assert_eq!(Value::String("false"), find("b", json).unwrap().value(json));
    assert_eq!(Value::String("12"), find("c", json).unwrap().value(json));
}

// find's readability guarantee: spans of non-ASCII text lie on character
// boundaries, so reading them back works.
#[test]
fn spans_lie_on_character_boundaries() {
    let json = "{\"é\": \"ü→ö\", \"b\": ñ, \"c\": {\"d\": \"日本\"}}";
    let span = find("é", json).unwrap();
    assert_eq!("\"ü→ö\"", span.get(json));
    assert_eq!(Value::String("ü→ö"), span.value(json));
    let span = find("b", json).unwrap();
    assert_eq!("ñ", span.get(json));
    assert_eq!(Value::Number("ñ"), span.value(json));
    let c = find("c", json).unwrap();
    let d = c.find("d", json).unwrap();
    assert_eq!(Value::String("日本"), d.value(json));
}

// span_find_extends_path: from a span, searching "p.k" is searching "p",
// then "k" from the span found.
#[test]
fn span_find_extends_path() {
    let json = r#"{"a": {"x": [1], "b": {"y": null, "c": "3"}, "d": 1}}"#;
    let a = find("a", json).unwrap();
    let chained = a.find("b", json).unwrap().find("c", json).unwrap();
    let direct = a.find("b.c", json).unwrap();
    assert_eq!((chained.start(), chained.end()), (direct.start(), direct.end()));
    assert_eq!("\"3\"", direct.get(json));

    let b = a.find("b", json).unwrap();
    assert_eq!(Kind::NotFound, b.find("z", json).unwrap_err().kind());
    assert_eq!(Kind::NotFound, a.find("b.z", json).unwrap_err().kind());
}

// cursor_skips_agree_with_scanners: the cursor steps over a string, an array
// or an object exactly as far as the scanner measures it, or fails the same way.
#[test]
fn cursor_skips_as_far_as_the_scanners_measure() {
    let texts: [&[u8]; 9] = [
        br#"x: "a\"b", 1"#,
        br#"x: "open"#,
        br#"x: [1, "]", [2]], 3"#,
        br#"x: [1, [2]"#,
        br#"x: {"a": {"b": "}"}, "c": [1]} tail"#,
        br#"x: {"a": 1"#,
        br#"x: {"a": "#,
        br#"x: "\"#,
        br#"x: {"a": [1}"#,
    ];
    for bytes in texts {
        let rest = &bytes[3..];
        let scanned = match bytes[3] {
            b'"' => scan_string(rest),
            b'[' => scan_array(rest),
            _ => scan_object(rest),
        };
        let mut cursor = Cursor::new(bytes, 3);
        let skipped = cursor.skip_value();
        match scanned {
            Ok(n) => {
                assert!(skipped.is_ok());
                assert_eq!(3 + n, cursor.pos());
            }
            Err(e) => assert_eq!(e.kind(), skipped.unwrap_err().kind()),
        }
    }
}

// scans_read_only_the_token: what follows a token does not change its length.
#[test]
fn scans_read_only_the_token() {
    let object = br#"{"a": {"b": "}"}}"#;
    assert_eq!(17, scan_object(object).unwrap());
    let mut longer = object.to_vec();
    longer.extend_from_slice(br#"}}, "z": [}"#);
    assert_eq!(17, scan_object(&longer).unwrap());

    let array = br#"[1, "]", [2]]"#;
    let mut longer = array.to_vec();
    longer.extend_from_slice(b"]]]");
    assert_eq!(13, scan_array(&longer).unwrap());

    let string = br#""a\"b""#;
    let mut longer = string.to_vec();
    longer.extend_from_slice(br#"""""#);
    assert_eq!(6, scan_string(&longer).unwrap());
}

// number_text_is_found_whole: a number's text is found whole and read as itself.
#[test]
fn number_text_is_found_whole() {
    for text in ["0", "-12.5e+3", "1E9", "3.", "+-+"] {
        let json = format!("{{\"a\": {}}}", text);
        let span = find("a", &json).unwrap();
        assert_eq!(6, span.start());
        assert_eq!(6 + text.len(), span.end());
        assert_eq!(Value::Number(text), span.value(&json));
    }
}

// span_find_agrees_with_find: on well-formed JSON, searching "q" from the span
// found for "p" gives what searching "p.q" gives, span or error.
#[test]
fn span_find_agrees_with_find_on_well_formed_json() {
    let json = "\n\t {\"s\": \"}\\\"{\", \"a\": {\"n\": -1.5e3,\n \"b\": {\"t\": [true, {\"x\": null}], \"c\": {\"d\": false}}, \"e\": \"v\"}}  ";
    let a = find("a", json).unwrap();
    for q in ["b", "b.c", "b.c.d", "e", "n", "b.t", "b.t.x", "z", "b.z", "e.f", "n.g"] {
        let from_span = a.find(q, json);
        let whole = find(&format!("a.{}", q), json);
        match (from_span, whole) {
            (Ok(x), Ok(y)) => {
                assert_eq!((x.start(), x.end()), (y.start(), y.end()));
            }
            (Err(x), Err(y)) => assert_eq!(x.kind(), y.kind()),
            (x, y) => panic!("{}: {:?} against {:?}", q, x, y),
        }
    }
    let d = a.find("b.c.d", json).unwrap();
    assert_eq!("false", d.get(json));
    assert_eq!(Kind::UnsupportedArray, a.find("b.t.x", json).unwrap_err().kind());
    assert_eq!(Kind::NotFound, a.find("n.g", json).unwrap_err().kind());
}

// find_gives_first_member, cursor_finds_first_member: on a well-formed
// object, a key gives the value of the first member of that name.
#[test]
fn first_member_of_the_name_is_found() {
    let json = r#"{"a": {"k": [1], "k": 2}, "b" : "x" , "b": 3, "c": {}}"#;
    assert_eq!("\"x\"", find("b", json).unwrap().get(json));
    let a = find("a", json).unwrap();
    assert_eq!("[1]", a.find("k", json).unwrap().get(json));
    assert_eq!(Kind::NotFound, find("d", json).unwrap_err().kind());
    let c = find("c", json).unwrap();
    assert_eq!(Kind::NotFound, c.find("k", json).unwrap_err().kind());
    // a name is compared as written, escapes and all
    let json = r#"{"a\"b": 1, "a\\\"b": 2}"#;
    assert_eq!("1", find(r#"a\"b"#, json).unwrap().get(json));
}
