use liver_shot::cursor::Cursor;
use liver_shot::error::Kind;
use liver_shot::scanner::{
    next_quote, scan_array, scan_object, scan_primitive, scan_string, skip_whitespace,
};
use liver_shot::parser::find_path;
use liver_shot::find;

#[test]
fn scan_string_measures_both_quotes() {
    assert_eq!(5, scan_string(br#""abc" tail"#).unwrap());
    assert_eq!(6, scan_string(br#""a\"b""#).unwrap());
    assert_eq!(Kind::InvalidJson, scan_string(b"abc").unwrap_err().kind());
    assert_eq!(Kind::InvalidJson, scan_string(b"").unwrap_err().kind());
    assert_eq!(Kind::UnterminatedString, scan_string(br#""abc"#).unwrap_err().kind());
    assert_eq!(Kind::UnterminatedString, scan_string(br#""ab\""#).unwrap_err().kind());
    assert_eq!(Kind::UnterminatedString, scan_string(br#""a\"#).unwrap_err().kind());
}

#[test]
fn scan_array_and_object_count_nesting() {
    assert_eq!(9, scan_array(br#"[1, [2]] , 3"#).unwrap() + 1);
    assert_eq!(6, scan_array(br#"["]"]"#).unwrap() + 1);
    assert_eq!(Kind::UnmatchedBracket, scan_array(b"[[1]").unwrap_err().kind());
    assert_eq!(Kind::InvalidJson, scan_array(b"{}").unwrap_err().kind());
    assert_eq!(12, scan_object(br#"{"a": {"}"}} x"#).unwrap());
    assert_eq!(10, scan_object(br#"{"a": [}]}"#).unwrap());
    assert_eq!(Kind::UnmatchedBracket, scan_object(br#"{"a": {}"#).unwrap_err().kind());
    assert_eq!(Kind::UnterminatedString, scan_object(br#"{"a"#).unwrap_err().kind());
    assert_eq!(Kind::InvalidJson, scan_object(b"[]").unwrap_err().kind());
}

#[test]
fn scan_primitive_stops_at_delimiters() {
    assert_eq!(3, scan_primitive(b"123, 4").unwrap());
    assert_eq!(4, scan_primitive(b"true").unwrap());
    assert_eq!(2, scan_primitive(b"12 \t }").unwrap());
    assert_eq!(2, scan_primitive(b"12 \x0c").unwrap());
    assert_eq!(Kind::InvalidJson, scan_primitive(b"12 3").unwrap_err().kind());
    assert_eq!(Kind::InvalidJson, scan_primitive(b",").unwrap_err().kind());
    assert_eq!(Kind::InvalidJson, scan_primitive(b"").unwrap_err().kind());
}

#[test]
fn whitespace_and_quotes() {
    assert_eq!(3, skip_whitespace(b" \n\x0cx").unwrap());
    assert_eq!(0, skip_whitespace(b"x").unwrap());
    assert_eq!(Kind::InvalidJson, skip_whitespace(b" \t").unwrap_err().kind());
    assert_eq!(Some(2), next_quote(br#"ab"c""#));
    assert_eq!(None, next_quote(b"abc"));
}

#[test]
fn find_path_walks_segments() {
    let json = br#"{"a": {"b": 1}}"#;
    let span = find_path(json, "a.b").unwrap();
    assert_eq!((12, 13), (span.start(), span.end()));
    assert_eq!(Kind::NotFound, find_path(json, "a.b.c").unwrap_err().kind());
    assert_eq!(Kind::NotFound, find_path(json, "").unwrap_err().kind());
    assert_eq!(Kind::UnsupportedArray, find_path(b"[1]", "a").unwrap_err().kind());
}

#[test]
fn leading_whitespace_is_skipped() {
    let json = " \n {\"a\": 1}";
    assert_eq!("1", find("a", json).unwrap().get(json));
    assert_eq!(Kind::InvalidJson, find("a", "  ").unwrap_err().kind());
}

#[test]
fn error_text() {
    assert_eq!("[liver-shot] field not found", find("b", r#"{"a": 1}"#).unwrap_err().to_string());
    assert_eq!("[liver-shot] invalid JSON", find("a", "").unwrap_err().to_string());
    assert_eq!("[liver-shot] unterminated string", find("a", r#"{"a": "x"#).unwrap_err().to_string());
    assert_eq!("[liver-shot] unmatched bracket", find("a", r#"{"a": [1"#).unwrap_err().to_string());
    assert_eq!("[liver-shot] unsupported array", find("a", "[]").unwrap_err().to_string());
}

#[test]
fn cursor_steps() {
    let bytes = br#" {"k": tru, "s": "a\"b"}"#;
    let mut c = Cursor::new(bytes, 0);
    assert_eq!(Some(b' '), c.peek());
    assert!(!c.eat(b'{'));
    assert_eq!(Some(b'{'), c.skip_whitespace());
    assert_eq!(1, c.pos());
    assert!(c.eat(b'{'));
    assert_eq!(2, c.pos());
    assert!(c.skip_string().is_ok());
    assert_eq!(br#""k""#, c.slice(2));
    c.advance();
    c.skip_whitespace();
    assert_eq!(Kind::InvalidJson, c.skip_value().unwrap_err().kind());
    assert_eq!(7, c.pos());

    let mut c = Cursor::new(bytes, 17);
    assert!(c.skip_value().is_ok());
    assert_eq!(23, c.pos());

    let mut c = Cursor::new(b"", 0);
    assert_eq!(None, c.peek());
    assert_eq!(None, c.skip_whitespace());
    assert_eq!(Kind::InvalidJson, c.skip_value().unwrap_err().kind());
}

#[test]
fn cursor_find() {
    let bytes = br#"{"a": {"b": [1, {"c": 2}], "d": "x"}, "e": 3}"#;
    let mut c = Cursor::new(bytes, 0);
    let span = c.find("a.d").unwrap();
    assert_eq!(br#""x""#, &bytes[span.start()..span.end()]);
    assert_eq!(Some(b'}'), c.peek());

    let mut c = Cursor::new(bytes, 0);
    assert_eq!(Kind::UnsupportedArray, c.find("a.b.c").unwrap_err().kind());
    let mut c = Cursor::new(bytes, 0);
    assert_eq!(Kind::NotFound, c.find("a.z").unwrap_err().kind());
    let mut c = Cursor::new(bytes, 0);
    assert_eq!(Kind::NotFound, c.find("e.f").unwrap_err().kind());
    // the value must be followed by `,` or `}`
    let mut c = Cursor::new(br#"{"a": 1 2}"#, 0);
    assert_eq!(Kind::InvalidJson, c.find("a").unwrap_err().kind());
    let mut c = Cursor::new(br#"{"a": truex}"#, 0);
    assert_eq!(Kind::InvalidJson, c.find("a").unwrap_err().kind());
    let mut c = Cursor::new(b"{}", 0);
    assert_eq!(Kind::NotFound, c.find("a").unwrap_err().kind());
    let mut c = Cursor::new(b"{}", 5);
    assert_eq!(Kind::InvalidJson, c.find("a").unwrap_err().kind());
}

// Span::find reads whitespace as JSON has it, `find` as ASCII has it: the two
// differ on a form feed after a colon.
#[test]
fn form_feed_after_colon() {
    let json = "{\"a\": {\"b\":\x0c1}}";
    let a = find("a", json).unwrap();
    assert_eq!("1", find("a.b", json).unwrap().get(json));
    assert_eq!("\x0c1", a.find("b", json).unwrap().get(json));
}

// A bare value holding a quote is one token to the cursor, while measuring
// the enclosing object takes the quote for the start of a string: the two
// searches then part ways.
#[test]
fn quote_inside_bare_value() {
    let json = r#"{"a": {"m": x", "k": "}", "z": 1}}"#;
    let a = find("a", json).unwrap();
    assert_eq!(r#"{"m": x", "k": "}"#, a.get(json));
    assert_eq!(r#""}""#, a.find("k", json).unwrap().get(json));
    assert_eq!(Kind::UnterminatedString, find("a.k", json).unwrap_err().kind());
}

// A backslash takes the byte after it along, even past the end of the bytes.
#[test]
fn backslash_at_the_end_takes_one_byte_past_it() {
    let bytes = br#""\"#;
    let mut c = Cursor::new(bytes, 0);
    assert_eq!(Kind::UnterminatedString, c.skip_string().unwrap_err().kind());
    assert_eq!(3, c.pos());

    let bytes = br#""\x"#;
    let mut c = Cursor::new(bytes, 0);
    assert_eq!(Kind::UnterminatedString, c.skip_value().unwrap_err().kind());
    assert_eq!(3, c.pos());

    let bytes = br#"{"a": "\"#;
    let mut c = Cursor::new(bytes, 0);
    assert_eq!(Kind::UnterminatedString, c.find("b").unwrap_err().kind());
    assert_eq!(9, c.pos());
}
