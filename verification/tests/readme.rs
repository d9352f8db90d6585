use liver_shot::{find, Error};

#[test]
fn readme_extract_object() -> Result<(), Error> {
    let json = r#"{"a": {"b": "value", "c": [1, 2, 3]}}"#;
    let span = find("a", json)?;
    assert_eq!(r#"{"b": "value", "c": [1, 2, 3]}"#, span.get(json));
    Ok(())
}

#[test]
fn readme_extract_nested_object() -> Result<(), Error> {
    let json = r#"{"a": {"b": {"c": "value"}}}"#;
    let span = find("a.b", json)?;
    assert_eq!(r#"{"c": "value"}"#, span.get(json));
    Ok(())
}

#[test]
fn readme_extract_array() -> Result<(), Error> {
    let json = r#"{"a": {"b": "value", "c": [1, 2, 3]}}"#;
    let span = find("a.c", json)?;
    assert_eq!("[1, 2, 3]", span.get(json));
    Ok(())
}

#[test]
fn readme_reuse_span() -> Result<(), Error> {
    let json = r#"{"a": {"b": "value", "c": [1, 2, 3]}}"#;
    let a = find("a", json)?;
    let b = a.find("b", json)?;
    let c = a.find("c", json)?;
    assert_eq!(r#"{"b": "value", "c": [1, 2, 3]}"#, a.get(json));
    assert_eq!(r#""value""#, b.get(json));
    assert_eq!("[1, 2, 3]", c.get(json));
    Ok(())
}

#[test]
fn readme_top_level_array_is_unsupported() {
    let err = find("a", "[1, 2]").unwrap_err();
    assert!(err.is_unsupported_array());
    assert!(!err.is_not_found());
    assert!(!err.is_invalid_json());
}

#[test]
fn readme_array_as_path_step_is_unsupported() {
    let err = find("a.b", r#"{"a": [1, 2]}"#).unwrap_err();
    assert!(err.is_unsupported_array());
}

#[test]
fn readme_values_are_not_validated() {
    let json = r#"{"a": 1.2.3e, "b": tru}"#;
    assert_eq!("1.2.3e", find("a", json).unwrap().get(json));
    assert_eq!("tru", find("b", json).unwrap().get(json));
}
