//! What counts as a row of a response.

use ctlog::{
    entry_hostnames, name_value, parse_crtsh_hostnames, CrtShEntry, CtError, Field, RowFault,
};

fn field(key: &str, value: Option<&str>) -> Field {
    Field { key: key.to_string(), value: value.map(|v| v.to_string()) }
}

fn names(body: &str) -> Vec<String> {
    parse_crtsh_hostnames(body).unwrap()
}

fn rejected(body: &str) -> bool {
    matches!(parse_crtsh_hostnames(body), Err(CtError::Parse(_)))
}

#[test]
fn one_string_field_is_the_name_value() {
    let fields = vec![field("id", None), field("name_value", Some("a\nb")), field("x", Some("y"))];
    assert!(matches!(name_value(&fields), Ok(s) if s == "a\nb"));
}

#[test]
fn row_faults_are_told_apart() {
    assert!(matches!(name_value(&vec![]), Err(RowFault::Missing)));
    assert!(matches!(name_value(&vec![field("Name_value", Some("a"))]), Err(RowFault::Missing)));
    let twice = vec![field("name_value", Some("a")), field("z", None), field("name_value", None)];
    assert!(matches!(name_value(&twice), Err(RowFault::Repeated)));
    assert!(matches!(name_value(&vec![field("name_value", None)]), Err(RowFault::NotAString)));
}

#[test]
fn unknown_fields_are_ignored() {
    let body = r#" [ { "issuer_ca_id" : 16418 , "issuer_name":"C=US, O=\"x\"", "name_value" :
        "a.example.com" , "nested":{"name_value":["b.example.com",{}],"n":[1,-2.5e3,true,null]},
        "not_before":null } , {"name_value":"c.example.com"} ] "#;
    assert_eq!(names(body), ["a.example.com", "c.example.com"]);
}

#[test]
fn ignored_values_are_not_looked_into() {
    let deep = format!("{}{}", "[".repeat(3000), "]".repeat(3000));
    let body = format!(
        r#"[{{"big":1e999,"lone":"\ud800","deep":{deep},"name_value":"a.example.com"}}]"#
    );
    assert_eq!(names(&body), ["a.example.com"]);
}

#[test]
fn row_may_be_an_array_of_one_string() {
    assert_eq!(names(r#"[["a.example.com"], [ "b.example.com" ]]"#), ["a.example.com", "b.example.com"]);
    assert!(rejected(r#"[[]]"#));
    assert!(rejected(r#"[["a","b"]]"#));
    assert!(rejected(r#"[[1]]"#));
}

#[test]
fn keys_and_names_may_be_escaped() {
    assert_eq!(
        names(r#"[{"name\u005fvalue":"\u0041.example.com\nb\u002eexample.com"}]"#),
        ["a.example.com", "b.example.com"]
    );
}

#[test]
fn row_without_one_string_name_value_is_an_error() {
    assert!(rejected(r#"[{}]"#));
    assert!(rejected(r#"[{"common_name":"a.example.com"}]"#));
    assert!(rejected(r#"[{"name_value":5}]"#));
    assert!(rejected(r#"[{"name_value":null}]"#));
    assert!(rejected(r#"[{"name_value":["a"]}]"#));
    assert!(rejected(r#"[{"name_value":"a","name_value":"b"}]"#));
    assert!(rejected(r#"[{"name_value":"a","x":1,"name\u005fvalue":"a"}]"#));
    assert!(rejected(r#"[{"name_value":"\ud800"}]"#));
    assert!(rejected(r#"[{"\ud800":1,"name_value":"a"}]"#));
    assert!(rejected(r#"["a.example.com"]"#));
    assert!(rejected(r#"[7]"#));
    assert!(rejected(r#"[{"name_value":"ok.example.com"},null]"#));
}

#[test]
fn response_that_is_no_json_array_is_an_error() {
    assert!(rejected("{}"));
    assert!(rejected(r#"{"name_value":"a.example.com"}"#));
    assert!(rejected("null"));
    assert!(rejected("[] []"));
    assert!(rejected("[,]"));
    assert!(rejected(r#"[{"name_value":"a"},]"#));
    assert!(rejected(r#"[{"name_value":"a",}]"#));
    assert!(rejected(r#"[{"name_value" "a"}]"#));
    assert!(rejected(r#"[{"name_value":"a" "x":1}]"#));
    assert!(rejected(r#"[{"name_value":"a"}"#));
}

#[test]
fn error_of_the_reader_is_handed_on() {
    let text = |body: &str| match parse_crtsh_hostnames(body) {
        Err(CtError::Parse(e)) => e.to_string(),
        _ => String::new(),
    };
    assert_eq!(text("not json"), "expected ident at line 1 column 2");
    assert_eq!(text(r#"[{"x":1}]"#), "missing field `name_value` at line 1 column 8");
    assert_eq!(
        text(r#"[{"name_value":"a","name_value":"b"}]"#),
        "duplicate field `name_value` at line 1 column 31"
    );
}

#[test]
fn order_and_repetition_of_rows_do_not_matter() {
    let entry = |s: &str| CrtShEntry { name_value: s.to_string() };
    let once = vec![entry("b.x\na.x"), entry("*.c.x")];
    let again = vec![entry("*.c.x"), entry("b.x\na.x"), entry("*.c.x"), once[0].clone()];
    assert_eq!(entry_hostnames(&once), ["a.x", "b.x", "c.x"]);
    assert_eq!(entry_hostnames(&once), entry_hostnames(&again));
}
