use iploc::resolver::{FetchOutcome, GeoResponse, RequestStep, Resolver};

fn reply_status(step: RequestStep) -> u16 {
    match step {
        RequestStep::Reply(resp) => resp.status_code(),
        RequestStep::Fetch(_) => panic!("expected a terminal reply, got a fetch order"),
    }
}

fn contains_subslice(haystack: &[u8], needle: &[u8]) -> bool {
    haystack.len() >= needle.len() && haystack.windows(needle.len()).any(|w| w == needle)
}

#[test]
fn returns_400_on_invalid_ip() {
    let mut r = Resolver::new(Some(b"testkey".to_vec()), 0, false, true);
    let step = r.handle_request(Some(&b"not-an-ip"[..]), 0);
    assert_eq!(reply_status(step), 400);
}

#[test]
fn rejects_loopback_ip_with_400() {
    let mut r = Resolver::new(Some(b"testkey".to_vec()), 0, false, true);
    let step = r.handle_request(Some(&b"127.0.0.1"[..]), 0);
    assert_eq!(reply_status(step), 400);
}

#[test]
fn rejects_private_ip_with_400() {
    let mut r = Resolver::new(Some(b"testkey".to_vec()), 0, false, true);
    let step = r.handle_request(Some(&b"192.168.1.1"[..]), 0);
    assert_eq!(reply_status(step), 400);
}

#[test]
fn returns_500_when_api_key_missing() {
    let mut r = Resolver::new(None, 0, false, true);
    let step = r.handle_request(Some(&b"1.1.1.1"[..]), 0);
    assert_eq!(reply_status(step), 500);
}

#[test]
fn returns_non_error_on_valid_ip_with_api_key() {
    // Caching disabled, so the full provider path is exercised.
    let mut r = Resolver::new(Some(b"testkey".to_vec()), 0, false, true);
    let step = r.handle_request(Some(&b"1.1.1.1"[..]), 0);
    let ip = match step {
        RequestStep::Fetch(ip) => ip,
        RequestStep::Reply(resp) => {
            let s = resp.status_code();
            assert_ne!(s, 400, "valid IP should not return 400");
            assert_ne!(s, 500, "with API key set, handler should not return 500 for a valid IP");
            return;
        }
    };
    let resp = r.complete_fetch(ip, FetchOutcome::Body(b"{\"ok\":true}".to_vec()), 0);
    let s = resp.status_code();
    assert_ne!(s, 400, "valid IP should not return 400");
    assert_ne!(s, 500, "with API key set, handler should not return 500 for a valid IP");
}

#[test]
fn repeated_requests_with_cache_enabled_return_consistent_status() {
    let mut r = Resolver::new(Some(b"testkey".to_vec()), 60, false, true);
    let step1 = r.handle_request(Some(&b"8.8.8.8"[..]), 0);
    let ip = match step1 {
        RequestStep::Fetch(ip) => ip,
        RequestStep::Reply(_) => panic!("first request should go upstream"),
    };
    let resp1 = r.complete_fetch(ip, FetchOutcome::Body(b"{\"city\":\"x\"}".to_vec()), 0);
    let status1 = resp1.status_code();

    let step2 = r.handle_request(Some(&b"8.8.8.8"[..]), 1);
    let status2 = match step2 {
        RequestStep::Reply(resp) => resp.status_code(),
        RequestStep::Fetch(_) => panic!("second request should be served from cache"),
    };
    assert_eq!(
        status1, status2,
        "cached and non-cached responses should have the same status"
    );
}

#[test]
fn cached_responses_are_annotated_when_flag_enabled() {
    // Caching enabled and the annotation flag turned on.
    let mut r = Resolver::new(Some(b"testkey".to_vec()), 60, true, true);
    let step1 = r.handle_request(Some(&b"1.1.1.1"[..]), 0);
    let ip = match step1 {
        RequestStep::Fetch(ip) => ip,
        RequestStep::Reply(_) => panic!("first request should go upstream"),
    };
    let resp1 = r.complete_fetch(ip, FetchOutcome::Body(b"{\"country\":\"AU\"}".to_vec()), 0);
    let body1 = match resp1 {
        GeoResponse::Success { body, from_cache } => {
            assert!(!from_cache);
            body
        }
        _ => panic!("fetch with a body should succeed"),
    };
    assert!(
        !contains_subslice(&body1, b"\"cached\":true"),
        "first (uncached) response should not contain cached flag"
    );

    let step2 = r.handle_request(Some(&b"1.1.1.1"[..]), 1);
    let body2 = match step2 {
        RequestStep::Reply(GeoResponse::Success { body, from_cache }) => {
            assert!(from_cache);
            body
        }
        _ => panic!("second request should be served from cache"),
    };
    assert!(
        contains_subslice(&body2, b"\"cached\":true"),
        "second (cached) response should contain cached flag"
    );
    assert_eq!(body2, b"{\"cached\":true,\"country\":\"AU\"}".to_vec());
}

#[test]
fn cache_disabled_requests_always_fetch() {
    // With TTL zero both sequential requests for the same address fetch,
    // and a stored body is never observable.
    let mut r = Resolver::new(Some(b"key".to_vec()), 0, false, false);
    let step1 = r.handle_request(Some(&b"1.1.1.1"[..]), 0);
    let ip = match step1 {
        RequestStep::Fetch(ip) => ip,
        _ => panic!("first request should fetch"),
    };
    let resp = r.complete_fetch(ip, FetchOutcome::Body(b"{}".to_vec()), 0);
    assert_eq!(resp.status_code(), 200);
    let step2 = r.handle_request(Some(&b"1.1.1.1"[..]), 0);
    assert!(matches!(step2, RequestStep::Fetch(_)), "second request should fetch again");
}

#[test]
fn missing_ip_parameter_is_bad_input() {
    let mut r = Resolver::new(Some(b"key".to_vec()), 0, false, true);
    let step = r.handle_request(None, 0);
    assert_eq!(reply_status(step), 400);
}

#[test]
fn upstream_failures_map_to_502() {
    let mut r = Resolver::new(Some(b"key".to_vec()), 0, false, true);
    let step = r.handle_request(Some(&b"9.9.9.9"[..]), 0);
    let ip = match step {
        RequestStep::Fetch(ip) => ip,
        _ => panic!("request should fetch"),
    };
    let unreachable = r.complete_fetch(ip, FetchOutcome::SendFailed, 0);
    assert!(matches!(unreachable, GeoResponse::UpstreamUnreachable));
    assert_eq!(unreachable.status_code(), 502);
    let errored = r.complete_fetch(ip, FetchOutcome::ErrorStatus, 0);
    assert!(matches!(errored, GeoResponse::UpstreamError));
    assert_eq!(errored.status_code(), 502);
    let unread = r.complete_fetch(ip, FetchOutcome::ReadFailed, 0);
    assert!(matches!(unread, GeoResponse::UpstreamReadFailure));
    assert_eq!(unread.status_code(), 502);
}

#[test]
fn reserved_ranges_pass_when_policy_off() {
    let mut r = Resolver::new(Some(b"key".to_vec()), 0, false, false);
    let step = r.handle_request(Some(&b"127.0.0.1"[..]), 0);
    assert!(matches!(step, RequestStep::Fetch(_)));
}

#[test]
fn cache_entry_expires_after_ttl() {
    let mut r = Resolver::new(Some(b"key".to_vec()), 10, false, false);
    let step1 = r.handle_request(Some(&b"2.3.4.5"[..]), 100);
    let ip = match step1 {
        RequestStep::Fetch(ip) => ip,
        _ => panic!("first request should fetch"),
    };
    r.complete_fetch(ip, FetchOutcome::Body(b"{\"n\":1}".to_vec()), 100);
    // Fresh strictly before 110.
    let hit = r.handle_request(Some(&b"2.3.4.5"[..]), 109);
    assert!(matches!(hit, RequestStep::Reply(GeoResponse::Success { .. })));
    // Stale at exactly 110: fetch again.
    let miss = r.handle_request(Some(&b"2.3.4.5"[..]), 110);
    assert!(matches!(miss, RequestStep::Fetch(_)));
}
