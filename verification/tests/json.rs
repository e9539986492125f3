use paperdown::json::{quoted, Json};

fn text(s: &str) -> Json {
    Json::Text(s.to_string())
}

fn number(n: &str) -> Json {
    Json::Number(n.to_string())
}

#[test]
fn texts_are_quoted() {
    for (plain, expected) in [
        ("", r#""""#),
        ("a/b \u{e9}\u{1F600}\u{7f}", "\"a/b \u{e9}\u{1F600}\u{7f}\""),
        ("\"\\", r#""\"\\""#),
        ("\u{8}\t\n\u{c}\r", r#""\b\t\n\f\r""#),
        ("\u{0}\u{1f}", r#""\u0000\u001f""#),
    ] {
        assert_eq!(quoted(plain.to_string()), expected);
        assert_eq!(text(plain).compact().as_deref(), Some(expected));
    }
}

#[test]
fn values_are_written_on_one_line() {
    let value = Json::object(vec![
        ("b".to_string(), Json::array(vec![number("1"), number("0.5"), Json::Null])),
        ("a".to_string(), Json::Bool(false)),
        ("\n".to_string(), Json::object(Vec::new())),
    ]);
    assert_eq!(
        value.compact().as_deref(),
        Some(r#"{"\n":{},"a":false,"b":[1,0.5,null]}"#)
    );
    assert_eq!(Json::array(Vec::new()).compact().as_deref(), Some("[]"));
}

#[test]
fn values_are_written_on_several_lines() {
    let value = Json::object(vec![
        ("a".to_string(), Json::array(vec![Json::of_number(12), text("x")])),
        ("b".to_string(), Json::array(Vec::new())),
    ]);
    assert_eq!(
        value.pretty().as_deref(),
        Some("{\n  \"a\": [\n    12,\n    \"x\"\n  ],\n  \"b\": []\n}")
    );
}

#[test]
fn what_is_no_number_is_not_written() {
    for n in ["", "x", "1.2.3", "01", ".5", "1.", "+1", "1e999", "NaN"] {
        assert_eq!(number(n).compact(), None, "{n}");
        assert_eq!(Json::array(vec![Json::Null, number(n)]).pretty(), None, "{n}");
    }
    for n in ["0", "7", "18446744073709551615", "99999999999999999999", "0.001", "-1", "1e3"] {
        assert!(number(n).compact().is_some(), "{n}");
        assert!(Json::array(vec![number(n)]).pretty().is_some(), "{n}");
    }
}
