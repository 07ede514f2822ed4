//! Attempts, responses, and what is made of them.

use ctlog::{
    asks_apex, combine, is_retryable, read_response, Action, CtError, CtOptions, Discovery, Event,
    Query, Stage, Step,
    CT_MAX_RETRIES, CT_QUERY_TIMEOUT_SECS, CT_RESPONSE_MAX_BYTES, CT_RETRY_BACKOFF_MS,
};

const BODY: &[u8] = br#"[{"name_value":"api.example.com\nexample.com"}]"#;

fn transport_error() -> reqwest::Error {
    reqwest::Client::new().get("no url").build().unwrap_err()
}

fn strings(names: &[&str]) -> Vec<String> {
    names.iter().map(|s| s.to_string()).collect()
}

fn delay(action: Action) -> u64 {
    match action {
        Action::Send { delay_ms } => delay_ms,
        other => panic!("expected another attempt, got {other:?}"),
    }
}

fn result(action: Action) -> Result<Vec<String>, CtError> {
    match action {
        Action::Finish(r) => r,
        other => panic!("expected a result, got {other:?}"),
    }
}

fn answer(query: &mut Query, body: &[u8]) -> Action {
    assert!(matches!(query.step(Event::Head(200)), Action::Read));
    assert!(matches!(query.step(Event::Chunk(body.to_vec())), Action::Read));
    query.step(Event::End)
}

#[test]
fn limits_are_as_documented() {
    assert_eq!(CT_QUERY_TIMEOUT_SECS, 30);
    assert_eq!(CT_RESPONSE_MAX_BYTES, 32 * 1024 * 1024);
    assert_eq!(CT_MAX_RETRIES, 3);
    assert_eq!(CT_RETRY_BACKOFF_MS, 500);
    let options = CtOptions::default();
    assert_eq!(options.max_response_bytes, CT_RESPONSE_MAX_BYTES);
    assert_eq!(options.base_url, "https://crt.sh");
    assert_eq!(options.clone().base_url, options.base_url);
}

#[test]
fn retries_502_then_succeeds() {
    let mut query = Query::new("example.com", &CtOptions::default());
    assert_eq!(delay(query.step(Event::Head(502))), 500);
    assert_eq!(delay(query.step(Event::Head(502))), 1000);
    assert_eq!(result(answer(&mut query, BODY)).unwrap(), ["api.example.com"]);
}

#[test]
fn third_failure_is_the_result() {
    let mut query = Query::new("example.com", &CtOptions::default());
    assert_eq!(delay(query.step(Event::Head(500))), 500);
    assert_eq!(delay(query.step(Event::Failed(transport_error()))), 1000);
    assert!(matches!(result(query.step(Event::Head(429))), Err(CtError::BadStatus(429))));
}

#[test]
fn transport_errors_are_retried_and_handed_on() {
    let mut query = Query::new("example.com", &CtOptions::default());
    assert_eq!(delay(query.step(Event::Failed(transport_error()))), 500);
    assert!(matches!(query.step(Event::Head(200)), Action::Read));
    assert!(matches!(query.step(Event::Chunk(b"[{".to_vec())), Action::Read));
    assert_eq!(delay(query.step(Event::Failed(transport_error()))), 1000);
    match result(query.step(Event::Failed(transport_error()))) {
        Err(CtError::Transport(e)) => assert!(e.is_builder()),
        other => panic!("expected Transport, got {other:?}"),
    }
}

#[test]
fn refusals_are_not_retried() {
    for status in [100, 199, 300, 301, 403, 404, 428, 430, 499, 600, 999] {
        let mut query = Query::new("example.com", &CtOptions::default());
        match result(query.step(Event::Head(status))) {
            Err(CtError::BadStatus(s)) => assert_eq!(s, status),
            other => panic!("expected BadStatus, got {other:?}"),
        }
    }
}

#[test]
fn retryable_errors_are_told_apart() {
    assert!(is_retryable(&CtError::Transport(transport_error())));
    for status in [429, 500, 502, 503, 599] {
        assert!(is_retryable(&CtError::BadStatus(status)));
    }
    for status in [302, 403, 404, 428, 499, 600] {
        assert!(!is_retryable(&CtError::BadStatus(status)));
    }
    assert!(!is_retryable(&CtError::ResponseTooLarge { limit: 1, got: 2 }));
    assert!(!is_retryable(&read_response(b"x".to_vec(), "example.com").unwrap_err()));
}

#[test]
fn rejects_invalid_utf8_response() {
    let body = b"[{\"name_value\": \"bad\xffvalue.example.com\"}]";
    let mut query = Query::new("utf8.example", &CtOptions::default());
    match result(answer(&mut query, body)) {
        Err(CtError::Parse(e)) => assert_eq!(
            e.to_string(),
            "CT response contained invalid UTF-8: invalid utf-8 sequence of 1 bytes from index 20"
        ),
        other => panic!("expected Parse, got {other:?}"),
    }
}

#[test]
fn aborts_body_beyond_32mib_cap() {
    let mut query = Query::new("huge.example", &CtOptions::default());
    assert!(matches!(query.step(Event::Head(200)), Action::Read));
    let half = vec![b'{'; CT_RESPONSE_MAX_BYTES / 2];
    assert!(matches!(query.step(Event::Chunk(half.clone())), Action::Read));
    assert!(matches!(query.step(Event::Chunk(half)), Action::Read));
    match result(query.step(Event::Chunk(vec![b'{']))) {
        Err(CtError::ResponseTooLarge { limit, got }) => {
            assert_eq!(limit, CT_RESPONSE_MAX_BYTES);
            assert!(got > CT_RESPONSE_MAX_BYTES);
            assert_eq!(got, CT_RESPONSE_MAX_BYTES + 1);
        }
        other => panic!("expected ResponseTooLarge, got {other:?}"),
    }
    assert!(query.body.is_empty());
}

#[test]
fn options_response_byte_cap_is_overridable() {
    let small_cap = CtOptions { max_response_bytes: 1, ..CtOptions::default() };
    let mut query = Query::new("example.com", &small_cap);
    assert!(matches!(query.step(Event::Head(200)), Action::Read));
    match result(query.step(Event::Chunk(b"[]".to_vec()))) {
        Err(CtError::ResponseTooLarge { limit, got }) => {
            assert_eq!(limit, 1);
            assert!(got > limit);
        }
        other => panic!("expected ResponseTooLarge, got {other:?}"),
    }
    let large_cap = CtOptions { max_response_bytes: 1024, ..CtOptions::default() };
    let mut query = Query::new("example.com", &large_cap);
    assert!(result(answer(&mut query, b"[]")).unwrap().is_empty());
}

#[test]
fn chunks_of_a_body_add_up() {
    let mut query = Query::new("example.com", &CtOptions::default());
    assert!(matches!(query.step(Event::Head(206)), Action::Read));
    for byte in BODY {
        assert!(matches!(query.step(Event::Chunk(vec![*byte])), Action::Read));
    }
    assert_eq!(query.body, BODY);
    assert_eq!(result(query.step(Event::End)).unwrap(), ["api.example.com"]);
}

#[test]
fn body_of_a_failed_attempt_is_dropped() {
    let mut query = Query::new("example.com", &CtOptions::default());
    assert!(matches!(query.step(Event::Head(200)), Action::Read));
    assert!(matches!(query.step(Event::Chunk(b"[{\"name".to_vec())), Action::Read));
    assert_eq!(delay(query.step(Event::Failed(transport_error()))), 500);
    assert_eq!(result(answer(&mut query, BODY)).unwrap(), ["api.example.com"]);
}

#[test]
fn retries_html_gateway_error_then_succeeds() {
    let page = b"<html><head><title>504 Gateway Time-out</title></head></html>";
    let mut query = Query::new("example.com", &CtOptions::default());
    assert_eq!(delay(answer(&mut query, page)), 500);
    assert_eq!(delay(answer(&mut query, page)), 1000);
    assert_eq!(result(answer(&mut query, BODY)).unwrap(), ["api.example.com"]);
    assert!(matches!(
        read_response(page.to_vec(), "example.com"),
        Err(CtError::BadStatus(503))
    ));
}

#[test]
fn malformed_response_is_not_retried() {
    let mut query = Query::new("example.com", &CtOptions::default());
    assert!(matches!(result(answer(&mut query, b"oops")), Err(CtError::Parse(_))));
    assert_eq!(read_response(b" \n".to_vec(), "example.com").unwrap(), Vec::<String>::new());
}

#[test]
fn fetch_unions_wildcard_and_apex_query_results() {
    let wildcard = read_response(br#"[{"name_value": "example.com"}]"#.to_vec(), "example.com");
    let apex = read_response(BODY.to_vec(), "example.com");
    assert_eq!(combine(wildcard, apex).unwrap(), ["api.example.com"]);
    let both = combine(Ok(strings(&["a.x", "c.x"])), Ok(strings(&["b.x", "c.x"])));
    assert_eq!(both.unwrap(), ["a.x", "b.x", "c.x"]);
}

#[test]
fn fetch_resilient_to_partial_query_failure() {
    let found = || Ok(strings(&["api.example.com"]));
    let down = || Err(CtError::BadStatus(502));
    assert_eq!(combine(found(), down()).unwrap(), ["api.example.com"]);
    assert_eq!(combine(down(), found()).unwrap(), ["api.example.com"]);
    assert!(matches!(
        combine(down(), Err(CtError::BadStatus(429))),
        Err(CtError::BadStatus(502))
    ));
}

#[test]
fn other_failures_end_a_discovery() {
    let found = || Ok(strings(&["api.example.com"]));
    let refused = || Err(CtError::BadStatus(403));
    assert!(matches!(combine(found(), refused()), Err(CtError::BadStatus(403))));
    assert!(matches!(combine(refused(), found()), Err(CtError::BadStatus(403))));
    assert!(matches!(
        combine(refused(), Err(CtError::BadStatus(502))),
        Err(CtError::BadStatus(403))
    ));
    assert!(asks_apex(&found()));
    assert!(asks_apex(&Err(CtError::BadStatus(502))));
    assert!(!asks_apex(&refused()));
}

#[test]
fn errors_convert_into_those_of_the_library() {
    assert!(matches!(CtError::from(transport_error()), CtError::Transport(_)));
    let e = serde_json::from_str::<u8>("x").unwrap_err();
    assert!(matches!(CtError::from(e), CtError::Parse(_)));
}

fn request(step: Step) -> (u64, String) {
    match step {
        Step::Send { delay_ms, url } => (delay_ms, url),
        other => panic!("expected a request, got {other:?}"),
    }
}

fn found(step: Step) -> Result<Vec<String>, CtError> {
    match step {
        Step::Finish(r) => r,
        other => panic!("expected a result, got {other:?}"),
    }
}

fn reply(discovery: &mut Discovery, body: &[u8]) -> Step {
    assert!(matches!(discovery.step(Event::Head(200)), Step::Read));
    assert!(matches!(discovery.step(Event::Chunk(body.to_vec())), Step::Read));
    discovery.step(Event::End)
}

#[test]
fn discovery_asks_for_names_then_for_the_domain_itself() {
    let options = CtOptions { base_url: "http://mirror/".to_string(), ..CtOptions::default() };
    let (mut discovery, first) = Discovery::start("*.Example.com", &options).unwrap();
    assert_eq!(
        request(first),
        (0, "http://mirror/?q=%.Example.com&output=json".to_string())
    );
    let next = reply(&mut discovery, br#"[{"name_value":"b.example.com\nexample.com"}]"#);
    assert_eq!(
        request(next),
        (0, "http://mirror/?q=Example.com&output=json".to_string())
    );
    let last = reply(&mut discovery, br#"[{"name_value":"*.b.example.com\na.example.com"}]"#);
    assert_eq!(found(last).unwrap(), ["a.example.com", "b.example.com"]);
    assert!(matches!(discovery.stage, Stage::Done));
}

#[test]
fn discovery_of_nothing_does_not_start() {
    for domain in ["", "  *.  ", "..", " \n"] {
        assert!(Discovery::start(domain, &CtOptions::default()).is_none());
    }
}

#[test]
fn discovery_gets_by_with_one_answer() {
    let (mut discovery, _) = Discovery::start("example.com", &CtOptions::default()).unwrap();
    assert_eq!(request(reply(&mut discovery, BODY)).0, 0);
    assert_eq!(request(discovery.step(Event::Head(502))).0, 500);
    assert_eq!(request(discovery.step(Event::Head(502))).0, 1000);
    assert_eq!(found(discovery.step(Event::Head(502))).unwrap(), ["api.example.com"]);
}

#[test]
fn discovery_sends_six_requests_at_most() {
    let (mut discovery, first) = Discovery::start("example.com", &CtOptions::default()).unwrap();
    let wildcard = "https://crt.sh/?q=%.example.com&output=json".to_string();
    let apex = "https://crt.sh/?q=example.com&output=json".to_string();
    assert_eq!(request(first), (0, wildcard.clone()));
    assert_eq!(request(discovery.step(Event::Head(503))), (500, wildcard.clone()));
    assert_eq!(request(discovery.step(Event::Head(503))), (1000, wildcard));
    assert_eq!(request(discovery.step(Event::Head(503))), (0, apex.clone()));
    assert_eq!(request(discovery.step(Event::Head(500))), (500, apex.clone()));
    assert_eq!(request(discovery.step(Event::Head(500))), (1000, apex));
    assert!(matches!(
        found(discovery.step(Event::Head(500))),
        Err(CtError::BadStatus(503))
    ));
}

#[test]
fn discovery_stops_at_a_refusal() {
    let (mut discovery, _) = Discovery::start("example.com", &CtOptions::default()).unwrap();
    assert!(matches!(
        found(discovery.step(Event::Head(403))),
        Err(CtError::BadStatus(403))
    ));
}

#[test]
fn transient_failures_are_known_beforehand() {
    let mut query = Query::new("example.com", &CtOptions::default());
    for status in [429, 500, 503, 599] {
        assert!(query.meets_transient_failure(&Event::Head(status)));
    }
    for status in [200, 299, 301, 404, 600] {
        assert!(!query.meets_transient_failure(&Event::Head(status)));
    }
    assert!(query.meets_transient_failure(&Event::Failed(transport_error())));
    assert!(!query.meets_transient_failure(&Event::Chunk(b"<html>".to_vec())));
    assert!(!query.meets_transient_failure(&Event::End));
    assert!(matches!(query.step(Event::Head(200)), Action::Read));
    assert!(matches!(query.step(Event::Chunk(b"<html>".to_vec())), Action::Read));
    assert!(query.meets_transient_failure(&Event::End));
    assert!(matches!(query.step(Event::Chunk(b"\xff".to_vec())), Action::Read));
    assert!(!query.meets_transient_failure(&Event::End));
    assert!(matches!(result(query.step(Event::End)), Err(CtError::Parse(_))));
}

#[test]
fn discovery_lists_the_rows_of_both_responses() {
    let (mut discovery, step) = Discovery::start("example.com", &CtOptions::default()).unwrap();
    assert_eq!(request(step).0, 0);
    let step = reply(&mut discovery, br#"[{"name_value":"*.b.example.com\nexample.com"}]"#);
    assert_eq!(request(step).0, 0);
    let step = reply(&mut discovery, br#"[{"name_value":"A.example.com"},["b.example.com"]]"#);
    assert_eq!(found(step).unwrap(), ["a.example.com", "b.example.com"]);
}

#[test]
fn discovery_gets_by_without_the_domain_itself() {
    let page = b"<html>504</html>";
    let (mut discovery, _) = Discovery::start("example.com", &CtOptions::default()).unwrap();
    assert_eq!(request(reply(&mut discovery, BODY)).0, 0);
    assert_eq!(request(reply(&mut discovery, page)).0, 500);
    assert_eq!(request(reply(&mut discovery, page)).0, 1000);
    assert_eq!(found(reply(&mut discovery, page)).unwrap(), ["api.example.com"]);
}

#[test]
fn discovery_gets_by_without_the_names_under_the_domain() {
    let (mut discovery, _) = Discovery::start("example.com", &CtOptions::default()).unwrap();
    assert_eq!(request(discovery.step(Event::Head(502))).0, 500);
    assert_eq!(request(discovery.step(Event::Head(429))).0, 1000);
    assert_eq!(request(discovery.step(Event::Failed(transport_error()))).0, 0);
    assert!(matches!(discovery.stage, Stage::Apex(Err(CtError::Transport(_)))));
    assert_eq!(found(reply(&mut discovery, BODY)).unwrap(), ["api.example.com"]);
}
