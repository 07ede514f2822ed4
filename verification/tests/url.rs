//! Query URLs, and the domains in them.

use ctlog::{clean_domain, crtsh_apex_query_url, crtsh_query_url, discovery_urls};

#[test]
fn url_has_wildcard_prefix_for_subdomain_coverage() {
    let url = crtsh_query_url("example.com");
    assert!(url.starts_with("https://crt.sh/?q=%."), "got {url}");
    assert!(url.ends_with("&output=json"));
    assert!(url.contains("%.example.com"));
}

#[test]
fn url_percent_encodes_hostile_domain() {
    let url = crtsh_query_url("evil.com&foo=bar baz");
    assert!(!url.contains(' '));
    assert!(url.contains("evil.com%26foo%3Dbar%20baz"));
    assert!(url.ends_with("&output=json"));
}

#[test]
fn url_trims_domain() {
    assert_eq!(
        crtsh_query_url("  example.com  "),
        "https://crt.sh/?q=%.example.com&output=json"
    );
}

#[test]
fn apex_query_url_targets_the_apex_identity() {
    assert_eq!(
        crtsh_apex_query_url("Example.com"),
        "https://crt.sh/?q=Example.com&output=json"
    );
    assert_eq!(
        crtsh_apex_query_url("  example.com  "),
        "https://crt.sh/?q=example.com&output=json"
    );
}

#[test]
fn url_strips_leading_wildcard_from_input_domain() {
    assert_eq!(
        crtsh_query_url("*.example.com"),
        "https://crt.sh/?q=%.example.com&output=json"
    );
    assert_eq!(
        crtsh_apex_query_url("*.example.com"),
        "https://crt.sh/?q=example.com&output=json"
    );
}

#[test]
fn cleans_input_domain_wildcard_and_dots() {
    assert_eq!(clean_domain("  *.example.com.  "), "example.com");
    assert_eq!(clean_domain(".sub.example.com"), "sub.example.com");
    assert_eq!(clean_domain("example.com."), "example.com");
}

#[test]
fn cleans_domain_with_multiple_wildcards_and_dots() {
    assert_eq!(clean_domain("*.*.example.com.."), "example.com");
    assert_eq!(clean_domain("..sub.example.com."), "sub.example.com");
    assert_eq!(clean_domain("*..example.com.."), "example.com");
    assert_eq!(clean_domain("*."), "");
    assert_eq!(clean_domain(".."), "");
}

#[test]
fn url_builder_never_panics() {
    let samples = ["", " ", "*.", "..", "a b", "\u{0}", "%%", "\u{1F600}.example", "x\n&#?/"];
    for domain in samples {
        let url = crtsh_query_url(domain);
        assert!(url.starts_with("https://crt.sh/?q=%."));
        assert!(url.ends_with("&output=json"));
    }
}

#[test]
fn url_encodes_every_byte_of_a_character_in_upper_case() {
    assert_eq!(
        crtsh_apex_query_url("b\u{fc}cher.example"),
        "https://crt.sh/?q=b%C3%BCcher.example&output=json"
    );
    assert_eq!(
        crtsh_query_url("a/b?c#d%e"),
        "https://crt.sh/?q=%.a%2Fb%3Fc%23d%25e&output=json"
    );
}

#[test]
fn url_encoding_leaves_nothing_that_ends_a_parameter() {
    for n in 0..0x80u8 {
        let domain = format!("x{}y", n as char);
        let url = crtsh_apex_query_url(&domain);
        let middle = &url["https://crt.sh/?q=".len()..url.len() - "&output=json".len()];
        assert!(middle
            .chars()
            .all(|c| c.is_ascii_alphanumeric() || "-_.~%".contains(c)));
    }
}

#[test]
fn plain_domain_stands_in_the_url_as_it_is() {
    assert_eq!(
        crtsh_apex_query_url("a-b_c.d~e.Example0.com"),
        "https://crt.sh/?q=a-b_c.d~e.Example0.com&output=json"
    );
}

#[test]
fn discovery_asks_two_questions_of_the_mirror() {
    let (wildcard, apex) = discovery_urls("http://127.0.0.1:8080//", " *.example.com.").unwrap();
    assert_eq!(wildcard, "http://127.0.0.1:8080/?q=%.example.com&output=json");
    assert_eq!(apex, "http://127.0.0.1:8080/?q=example.com&output=json");
    assert_eq!(
        discovery_urls("https://crt.sh", "example.com").unwrap().0,
        crtsh_query_url("example.com")
    );
}

#[test]
fn discover_subdomains_ct_empty_domain_short_circuits() {
    assert!(discovery_urls("https://crt.sh", "  *.  ").is_none());
    assert!(discovery_urls("https://crt.sh", "").is_none());
    assert!(discovery_urls("https://crt.sh", "..").is_none());
}

#[test]
fn cleaning_twice_is_cleaning_once() {
    for domain in ["  *.example.com.  ", "*.*.x..", "..a.b", "*", "*a.b", "", "\u{a0}x\u{3000}"] {
        let once = clean_domain(domain);
        assert_eq!(clean_domain(&once), once);
    }
}

#[test]
fn cleaning_drops_dots_last_and_white_space_first() {
    assert_eq!(clean_domain("x ."), "x ");
    assert_eq!(clean_domain("*. x"), " x");
    assert_eq!(clean_domain("*"), "*");
    assert_eq!(clean_domain("*.*"), "*");
    assert_eq!(clean_domain("\u{2003}a.b\u{85}"), "a.b");
    assert_eq!(clean_domain("Example.COM"), "Example.COM");
}
