//! The error of a body that is no response is the error of a reader that goes
//! through the body once, from its start, into rows of the struct `CrtShEntry`.

use std::fmt;

use ctlog::{parse_crtsh_hostnames, CtError};
use serde::de::{Deserialize, Deserializer, Error, IgnoredAny, MapAccess, SeqAccess, Visitor};

/// A row, read in one go.
struct Row;

/// A key of a row.
enum Key {
    NameValue,
    Other,
}

struct KeyVisitor;

impl<'de> Visitor<'de> for KeyVisitor {
    type Value = Key;

    fn expecting(&self, f: &mut fmt::Formatter) -> fmt::Result {
        f.write_str("field identifier")
    }

    fn visit_str<E: Error>(self, v: &str) -> Result<Key, E> {
        Ok(if v == "name_value" { Key::NameValue } else { Key::Other })
    }
}

impl<'de> Deserialize<'de> for Key {
    fn deserialize<D: Deserializer<'de>>(d: D) -> Result<Key, D::Error> {
        d.deserialize_identifier(KeyVisitor)
    }
}

struct RowVisitor;

impl<'de> Visitor<'de> for RowVisitor {
    type Value = Row;

    fn expecting(&self, f: &mut fmt::Formatter) -> fmt::Result {
        f.write_str("struct CrtShEntry")
    }

    fn visit_seq<A: SeqAccess<'de>>(self, mut seq: A) -> Result<Row, A::Error> {
        match seq.next_element::<String>()? {
            Some(_) => Ok(Row),
            None => Err(Error::invalid_length(0, &"struct CrtShEntry with 1 element")),
        }
    }

    fn visit_map<A: MapAccess<'de>>(self, mut map: A) -> Result<Row, A::Error> {
        let mut name_value: Option<String> = None;
        while let Some(key) = map.next_key::<Key>()? {
            match key {
                Key::NameValue => {
                    if name_value.is_some() {
                        return Err(Error::duplicate_field("name_value"));
                    }
                    name_value = Some(map.next_value()?);
                }
                Key::Other => {
                    map.next_value::<IgnoredAny>()?;
                }
            }
        }
        match name_value {
            Some(_) => Ok(Row),
            None => Err(Error::missing_field("name_value")),
        }
    }
}

impl<'de> Deserialize<'de> for Row {
    fn deserialize<D: Deserializer<'de>>(d: D) -> Result<Row, D::Error> {
        d.deserialize_struct("CrtShEntry", &["name_value"], RowVisitor)
    }
}

fn error(body: &str) -> Option<serde_json::Error> {
    match parse_crtsh_hostnames(body) {
        Ok(_) => None,
        Err(CtError::Parse(e)) => Some(e),
        Err(_) => panic!("no error of the parser: {body}"),
    }
}

fn text(body: &str) -> String {
    error(body).map(|e| e.to_string()).unwrap_or_default()
}

/// Holds the error of the library against that of a reader in one go.
fn agrees(body: &str) {
    if body.trim().is_empty() {
        return;
    }
    let expected = serde_json::from_str::<Vec<Row>>(body).err();
    let actual = error(body);
    match (&expected, &actual) {
        (None, None) => {}
        (Some(e), Some(a)) => {
            assert_eq!(e.to_string(), a.to_string(), "{body}");
            assert_eq!((e.line(), e.column()), (a.line(), a.column()), "{body}");
            assert_eq!(e.classify(), a.classify(), "{body}");
        }
        _ => panic!("{body}: {expected:?} and {actual:?}"),
    }
}

fn responses() -> Vec<&'static str> {
    vec![
        r#"[{"name_value":"a.example.com"}]"#,
        " [ {\n \"id\" : 12 , \"name_value\" :\n \"a\\nb\" , \"x\": [1, {\"y\": null}] }\n, [ \"c\" ] ] ",
        "[[\"\\u00e9\"],\r\n\t{\"\u{e9}\":\"\u{1f600}\",\"name\\u005fvalue\":\"\"}]",
        r#"[{"a":-1.5e3,"b":true,"c":false,"d":{},"name_value":"x","e":"\ud83d\ude00"},["z"]]"#,
    ]
}

#[test]
fn errors_have_the_words_of_the_reader() {
    assert_eq!(
        text(r#"[{"name_value":5}]"#),
        "invalid type: integer `5`, expected a string at line 1 column 16"
    );
    assert_eq!(
        text("[\n{\"name_value\":\"a\"},\n 7]"),
        "invalid type: integer `7`, expected struct CrtShEntry at line 3 column 2"
    );
    assert_eq!(
        text("[[]]"),
        "invalid length 0, expected struct CrtShEntry with 1 element at line 1 column 3"
    );
    assert_eq!(text(r#"[["a","b"]]"#), "trailing characters at line 1 column 7");
    assert_eq!(text("[{\n}]"), "missing field `name_value` at line 2 column 1");
    assert_eq!(
        text("[{\"name_value\":\"a\",\n\"name_value\" \n :1}]"),
        "duplicate field `name_value` at line 3 column 1"
    );
    assert_eq!(text(r#"[{"name_value":"a"}"#), "EOF while parsing a list at line 1 column 19");
    assert_eq!(text(r#"[{"name_value":"#), "EOF while parsing a value at line 1 column 15");
    assert_eq!(text("{}"), "invalid type: map, expected a sequence at line 1 column 0");
}

#[test]
fn first_fault_of_a_body_is_its_error() {
    assert_eq!(text("[{}, x"), "missing field `name_value` at line 1 column 3");
    assert_eq!(
        text(r#"[{"name_value":1,"name_value":2}, {"#),
        "invalid type: integer `1`, expected a string at line 1 column 16"
    );
    assert_eq!(text("[[\"a\"] {}]"), "expected `,` or `]` at line 1 column 8");
}

#[test]
fn errors_of_odd_rows_agree() {
    let rows = [
        "{}", "{ }", "[]", "[ ]", "[1]", "[\"a\",]", "[\"a\" ,\"b\"]", "[\"a\"}", "[\"a\" \"b\"]", "[,]",
        "[null]", "[[\"a\"]]", "{\"name_value\"}", "{\"name_value\" }", "{\"name_value\":}",
        "{\"name_value\":\"a\",}", "{\"name_value\":\"a\",\"name_value\"}",
        "{\"name_value\":\"a\",\"name_value\" }", "{\"name_value\":\"a\",\"name_value\"  x",
        "{\"name_value\":\"a\" , \"name_value\"", "{\"name_value\":null}", "{\"name_value\":true}",
        "{\"name_value\":tru}", "{\"name_value\":1.50}", "{\"name_value\":-1}", "{\"name_value\":1e999}",
        "{\"name_value\":01}", "{\"name_value\":{}}", "{\"name_value\":[]}", "{\"name_value\":x}",
        "{\"name_value\":\"\\ud800\"}", "{\"name_value\":\"\\x\"}", "{\"name_value\":\"a\nb\"}",
        "{\"\\ud800\":1}", "{\"\\q\":1}", "{\"a\nb\":1}", "{a:1}", "{1:2}", "{\"a\" 1}", "{\"a\":1 \"b\":2}",
        "{\"a\":01}", "{\"a\":1x}", "{\"a\":1\"b\"}", "{\"a\":-}", "{\"a\":1.}", "{\"a\":1e}", "{\"a\":tru}",
        "{\"a\":\"\\ud800\"}", "{\"a\":\"\\x\"}", "{\"a\":[1,]}", "{\"a\":{\"b\"}}", "{\"a\":[}", "{,}", "{\"a\":1,}",
        "{\"a\":1]", "null", "nul", "true", "false", "1", "-1", "0.5", "1e5", "1e999", "01", "-", "1.", "\"s\"",
        "\"expected a map\"", "\"x at line 1 column 2\"", "\"\\ud800\"", "\"open", "\"tab\t\"", "x", "}", ":", ",",
        "123456789012345678901234567890", "-9223372036854775809", "\u{e9}", "\u{feff}",
    ];
    let good = "{\"name_value\":\"\u{e9}\"}";
    for row in rows {
        agrees(row);
        agrees(&format!("[{row}"));
        agrees(&format!("[{row}]"));
        agrees(&format!("[{row}] x"));
        agrees(&format!("[{row},{good}]"));
        agrees(&format!("[{row},{row}]"));
        agrees(&format!("\n [ {good} ,\n\r\t{row} \n]"));
        agrees(&format!("[{good},\n[\"a\"],\n{good},{row}, {{"));
        agrees(&format!("[{good} {row}]"));
    }
}

#[test]
fn errors_of_truncated_responses_agree() {
    for response in responses() {
        agrees(response);
        for (i, _) in response.char_indices() {
            agrees(&response[..i]);
        }
    }
}

#[test]
fn errors_of_damaged_responses_agree() {
    let pieces =
        ["", " ", "\n", "\"", "\\", "{", "}", "[", "]", ",", ":", "1", "-", "t", "\u{1}", "\u{e9}", "{}", "[]"];
    for response in responses() {
        for (i, c) in response.char_indices() {
            for piece in pieces {
                let rest = &response[i + c.len_utf8()..];
                agrees(&format!("{}{piece}{rest}", &response[..i]));
                agrees(&format!("{}{piece}{}", &response[..i], &response[i..]));
            }
        }
    }
}
