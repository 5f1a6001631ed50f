use hostfacts::racer::{classify_attempt, race_decide, AttemptEvent, ResolutionOutcome};
use hostfacts::AddressFamily;

fn msg_of(o: &ResolutionOutcome) -> String {
    match o {
        ResolutionOutcome::Success(v) => v.clone(),
        ResolutionOutcome::Failure(m) => m.clone(),
    }
}

#[test]
fn classify_success_trims_and_validates() {
    let ev = AttemptEvent::Response { status: 200, body: " 203.0.113.7\n".to_string() };
    let out = classify_attempt("https://a.example", AddressFamily::V4, ev);
    assert!(matches!(&out, ResolutionOutcome::Success(v) if v == "203.0.113.7"));
}

#[test]
fn classify_http_status_names_source_and_code() {
    let ev = AttemptEvent::Response { status: 500, body: "oops".to_string() };
    let out = classify_attempt("https://a.example", AddressFamily::V4, ev);
    assert!(matches!(&out, ResolutionOutcome::Failure(_)));
    assert_eq!(msg_of(&out), "https://a.example: HTTP status 500");
}

#[test]
fn classify_invalid_literal_names_family() {
    let ev = AttemptEvent::Response { status: 200, body: "<html>".to_string() };
    let out = classify_attempt("https://a.example", AddressFamily::V6, ev);
    assert_eq!(msg_of(&out), "https://a.example: invalid IPv6 literal received");
}

#[test]
fn classify_wrong_family_is_invalid() {
    // a well-formed IPv4 literal from an IPv6 source is still rejected
    let ev = AttemptEvent::Response { status: 200, body: "192.168.1.1".to_string() };
    let out = classify_attempt("https://six.example", AddressFamily::V6, ev);
    assert_eq!(msg_of(&out), "https://six.example: invalid IPv6 literal received");
}

#[test]
fn classify_timeout_and_transport_are_distinct() {
    let t = classify_attempt("https://a.example", AddressFamily::V4, AttemptEvent::TimedOut);
    assert_eq!(msg_of(&t), "https://a.example: timed out");
    let ev = AttemptEvent::TransportFailure { detail: "connection refused".to_string() };
    let x = classify_attempt("https://a.example", AddressFamily::V4, ev);
    assert_eq!(msg_of(&x), "https://a.example: transport failure: connection refused");
    assert_ne!(msg_of(&t), msg_of(&x));
}

#[test]
fn race_empty_sources_fails_immediately() {
    let r = race_decide(0, Vec::new());
    assert!(r.address.is_none());
    assert_eq!(r.error.as_deref(), Some("no sources configured"));
}

#[test]
fn race_winner_wins_regardless_of_position() {
    for pos in 0..3usize {
        let mut outcomes = Vec::new();
        for i in 0..3usize {
            if i == pos {
                outcomes.push(ResolutionOutcome::Success("203.0.113.7".to_string()));
            } else {
                outcomes.push(ResolutionOutcome::Failure(format!("src{}: timed out", i)));
            }
        }
        let r = race_decide(3, outcomes);
        assert_eq!(r.address.as_deref(), Some("203.0.113.7"));
        assert!(r.error.is_none());
    }
}

#[test]
fn race_all_failures_reports_every_diagnostic() {
    let d0 = "https://a.example: timed out".to_string();
    let d1 = "https://b.example: HTTP status 503".to_string();
    let d2 = "https://c.example: transport failure: refused".to_string();
    let outcomes = vec![
        ResolutionOutcome::Failure(d0.clone()),
        ResolutionOutcome::Failure(d1.clone()),
        ResolutionOutcome::Failure(d2.clone()),
    ];
    let r = race_decide(3, outcomes);
    assert!(r.address.is_none());
    let err = r.error.expect("combined error expected");
    // content is what matters: each diagnostic occurs, whatever the order
    assert!(err.contains(&d0));
    assert!(err.contains(&d1));
    assert!(err.contains(&d2));
    // the diagnostics are joined with "; ": splitting recovers the set
    let parts: Vec<&str> = err.split("; ").collect();
    assert_eq!(parts.len(), 3);
    for d in [d0.as_str(), d1.as_str(), d2.as_str()] {
        assert!(parts.contains(&d));
    }
}

#[test]
fn race_scenario_first_500_second_wins() {
    // two IPv4 sources: the first answers HTTP 500, the second a literal
    let e0 = AttemptEvent::Response { status: 500, body: "error".to_string() };
    let o0 = classify_attempt("https://a.example", AddressFamily::V4, e0);
    let e1 = AttemptEvent::Response { status: 200, body: "203.0.113.7".to_string() };
    let o1 = classify_attempt("https://b.example", AddressFamily::V4, e1);
    let r = race_decide(2, vec![o0, o1]);
    assert_eq!(r.address.as_deref(), Some("203.0.113.7"));
    assert!(r.error.is_none());
}

#[test]
fn race_scenario_both_fail() {
    let e0 = AttemptEvent::Response { status: 500, body: "error".to_string() };
    let o0 = classify_attempt("https://a.example", AddressFamily::V4, e0);
    let o1 = classify_attempt("https://b.example", AddressFamily::V4, AttemptEvent::TimedOut);
    let r = race_decide(2, vec![o0, o1]);
    assert!(r.address.is_none());
    let err = r.error.expect("combined error expected");
    assert!(err.contains("https://a.example: HTTP status 500"));
    assert!(err.contains("https://b.example: timed out"));
}
