//! Lists of host names out of crt.sh responses.

#![allow(non_snake_case)]

use ctlog::{parse_crtsh_hostnames, parse_crtsh_subdomains, CtError};

#[test]
fn parses_valid_crtsh_json() {
    let json = r#"[
        {"name_value": "api.example.com"},
        {"name_value": "www.example.com\nmail.example.com"},
        {"name_value": "*.example.com"},
        {"name_value": "example.com"}
    ]"#;
    let result = parse_crtsh_subdomains(json, "example.com").unwrap();
    assert_eq!(
        result,
        ["api.example.com", "mail.example.com", "www.example.com"]
    );
}

#[test]
fn deduplicates_subdomains() {
    let json = r#"[
        {"name_value": "api.example.com"},
        {"name_value": "api.example.com"},
        {"name_value": "API.EXAMPLE.COM"}
    ]"#;
    let result = parse_crtsh_subdomains(json, "example.com").unwrap();
    assert_eq!(result, ["api.example.com"]);
}

#[test]
fn handles_empty_json_array() {
    assert!(parse_crtsh_subdomains("[]", "example.com")
        .unwrap()
        .is_empty());
}

#[test]
fn rejects_invalid_json() {
    assert!(parse_crtsh_subdomains("not json", "example.com").is_err());
    assert!(matches!(
        parse_crtsh_subdomains("not json", "example.com"),
        Err(CtError::Parse(_))
    ));
}

#[test]
fn handles_multiline_name_values() {
    let json = r#"[{"name_value": "a.example.com\nb.example.com\nc.example.com"}]"#;
    let result = parse_crtsh_subdomains(json, "example.com").unwrap();
    assert_eq!(result, ["a.example.com", "b.example.com", "c.example.com"]);
}

#[test]
fn trims_whitespace_in_entries() {
    let json = r#"[
        {"name_value": "  api.example.com  "},
        {"name_value": "\n  www.example.com \n"}
    ]"#;
    let result = parse_crtsh_subdomains(json, "example.com").unwrap();
    assert_eq!(result, ["api.example.com", "www.example.com"]);
}

#[test]
fn wildcard_subdomain_is_stripped_and_kept() {
    let json = r#"[{"name_value": "*.api.example.com"}]"#;
    let result = parse_crtsh_subdomains(json, "example.com").unwrap();
    assert_eq!(result, ["api.example.com"]);
}

#[test]
fn apex_wildcard_collapses_to_apex_and_is_excluded() {
    let json = r#"[{"name_value": "*.example.com"}]"#;
    assert!(parse_crtsh_subdomains(json, "example.com")
        .unwrap()
        .is_empty());
    assert_eq!(parse_crtsh_hostnames(json).unwrap(), ["example.com"]);
}

#[test]
fn bare_wildcard_label_is_dropped() {
    let json = r#"[{"name_value": "*.\n*\nok.example.com"}]"#;
    assert_eq!(
        parse_crtsh_subdomains(json, "example.com").unwrap(),
        ["ok.example.com"]
    );
}

#[test]
fn names_with_interior_whitespace_or_controls_are_dropped() {
    let json = r#"[
        {"name_value": "bad name.example.com"},
        {"name_value": "tab\tsep.example.com"},
        {"name_value": "escape\u001b[0m.example.com"},
        {"name_value": "good.example.com"}
    ]"#;
    assert_eq!(
        parse_crtsh_subdomains(json, "example.com").unwrap(),
        ["good.example.com"]
    );
}

#[test]
fn multiple_multiline_entries_flatten_trim_normalize_and_dedup() {
    let json = r#"[
        {"name_value": "  API.example.com \n*.api.example.com"},
        {"name_value": "www.example.com\nexample.com"},
        {"name_value": "*.\n*\nMAIL.example.com\napi.example.com"}
    ]"#;
    let result = parse_crtsh_hostnames(json).unwrap();
    assert_eq!(
        result,
        [
            "api.example.com",
            "example.com",
            "mail.example.com",
            "www.example.com",
        ]
    );
}

#[test]
fn hostnames_includes_apex() {
    let json = r#"[{"name_value": "example.com\napi.example.com"}]"#;
    assert_eq!(
        parse_crtsh_hostnames(json).unwrap(),
        ["api.example.com", "example.com"]
    );
}

#[test]
fn hostnames_keeps_offdomain_sans() {
    let json = r#"[{"name_value": "example.com\nexample.net"}]"#;
    assert_eq!(
        parse_crtsh_hostnames(json).unwrap(),
        ["example.com", "example.net"]
    );
}

#[test]
fn mixed_case_domain_excludes_base() {
    let json = r#"[{"name_value": "sub.example.com"},{"name_value": "example.com"}]"#;
    let result = parse_crtsh_subdomains(json, "Example.COM").unwrap();
    assert_eq!(result, ["sub.example.com"]);
    assert!(!result.contains(&"example.com".to_string()));
}

#[test]
fn all_caps_domain_excludes_base() {
    let json = r#"[{"name_value": "EXAMPLE.COM"},{"name_value": "api.example.com"}]"#;
    assert_eq!(
        parse_crtsh_subdomains(json, "EXAMPLE.COM").unwrap(),
        ["api.example.com"]
    );
}

#[test]
fn camel_case_domain_excludes_base() {
    let json = r#"[{"name_value": "mail.ExAmPlE.cOm"},{"name_value": "ExAmPlE.cOm"}]"#;
    assert_eq!(
        parse_crtsh_subdomains(json, "ExAmPlE.cOm").unwrap(),
        ["mail.example.com"]
    );
}

#[test]
fn mixed_case_domain_empty_when_only_base() {
    let json = r#"[{"name_value": "Example.COM"}]"#;
    assert!(parse_crtsh_subdomains(json, "Example.COM")
        .unwrap()
        .is_empty());
}

#[test]
fn domain_with_surrounding_whitespace_excludes_base() {
    let json = r#"[{"name_value": "example.com"},{"name_value": "x.example.com"}]"#;
    assert_eq!(
        parse_crtsh_subdomains(json, "  example.com  ").unwrap(),
        ["x.example.com"]
    );
}

#[test]
fn parse_subdomains_includes_apex_only_cert_subdomains() {
    let body = r#"[
        {"name_value": "example.com"},
        {"name_value": "api.example.com"}
    ]"#;
    let subs = parse_crtsh_subdomains(body, "example.com").unwrap();
    assert_eq!(subs, ["api.example.com"]);
}

#[test]
fn parse_subdomains_excludes_apex_when_queried_with_wildcard_domain() {
    let body = r#"[
        {"name_value": "example.com"},
        {"name_value": "api.example.com"}
    ]"#;
    let subs = parse_crtsh_subdomains(body, "*.example.com").unwrap();
    assert_eq!(subs, ["api.example.com"]);
}

#[test]
fn SAN_normalization_strips_trailing_dots() {
    let body = r#"[
        {"name_value": "api.example.com.\nwww.example.com."}
    ]"#;
    let names = parse_crtsh_hostnames(body).unwrap();
    assert_eq!(names, ["api.example.com", "www.example.com"]);
}

#[test]
fn san_normalization_handles_multiple_trailing_dots_and_invalid_chars() {
    let body = r#"[
        {"name_value": "api.example.com..\n..\nhttp://bad.example.com\nuser@example.com\nfoo..bar.example.com\napi.example.com:443"}
    ]"#;
    let names = parse_crtsh_hostnames(body).unwrap();
    assert_eq!(names, ["api.example.com"]);
}

#[test]
fn parse_handles_empty_body_and_whitespace() {
    assert_eq!(parse_crtsh_hostnames("").unwrap(), Vec::<String>::new());
    assert_eq!(
        parse_crtsh_subdomains("   \n\t ", "example.com").unwrap(),
        Vec::<String>::new()
    );
}

#[test]
fn parse_never_panics_on_arbitrary_input() {
    let samples = [
        "", "\u{0}", "[", "]", "{", "[{", "[{}", "[[]]", "[null]", "null", "\"x\"", "[1e999]",
        "[{\"name_value\"", "[{\"name_value\":", "[{\"name_value\":1}]", "\u{feff}[]", "<html>",
        "[\"\u{1F600}\"]", "[{\"\\ud800\":1}]",
    ];
    for s in samples {
        let _ = parse_crtsh_subdomains(s, "example.com");
        let _ = parse_crtsh_hostnames(s);
    }
}

#[test]
fn subdomains_never_contain_queried_apex() {
    let domain = "example.com";
    for count in 0..6 {
        let mut values = vec!["EXAMPLE.com".to_string(), "example.COM".to_string()];
        for k in 0..count {
            values.push(format!("{}.example.com", ["q", "ab", "zz", "ab", "c", "m"][k]));
        }
        let entries: Vec<String> = values
            .iter()
            .map(|v| format!("{{\"name_value\": {}}}", serde_json::to_string(v).unwrap()))
            .collect();
        let body = format!("[{}]", entries.join(","));
        let subs = parse_crtsh_subdomains(&body, domain).unwrap();
        assert!(!subs.iter().any(|s| s == domain));
        let mut sorted = subs.clone();
        sorted.sort();
        sorted.dedup();
        assert_eq!(subs, sorted);
    }
}
