//! Tests for the executor's outcome handling, the cache store, the fan-out
//! filter and the week arithmetic, with the real JSON library linked.

use ng_gateway::cache::cache_key_for;
use ng_gateway::cache::CacheStore;
use ng_gateway::outcome::first_matching;
use ng_gateway::outcome::process_response;
use ng_gateway::outcome::process_response_now;
use ng_gateway::outcome::response_matches;
use ng_gateway::outcome::RequestResponse;
use ng_gateway::outcome::UpstreamResponse;
use ng_gateway::request::QueuedRequest;
use ng_gateway::ttl_for;
use ng_gateway::weeks::cache_time_for_weeks;
use ng_gateway::weeks::get_cache_time_from_week_number;
use ng_gateway::weeks::get_current_week_number;
use ng_gateway::weeks::get_week_number_from_date;
use ng_gateway::weeks::LONG_CACHE_TTL_SECONDS;

fn req(url: &str, keys: &[&str], cache_time: Option<u64>) -> QueuedRequest {
    QueuedRequest {
        url: url.to_string(),
        method: "GET".to_string(),
        api_keys: keys.iter().map(|k| k.to_string()).collect(),
        cache_time,
    }
}

#[test]
fn success_body_published_canonically_and_cached() {
    let request = req("/a", &["k1"], None);
    let time = "2024-01-02T03:04:05+00:00".to_string();
    let body = UpstreamResponse::BodyText("{ \"answer\" : 41 }".to_string());
    let result = process_response(&request, body, &time);
    assert_eq!(result.event.url, "/a");
    assert_eq!(result.event.method, "GET");
    assert_eq!(result.event.body, "{\"cached\":false,\"data\":{\"answer\":41}}");
    let write = result.cache_write.expect("a clean body must be cached");
    assert_eq!(write.cache_key, "cache:/a");
    assert_eq!(write.ttl_seconds, 1800);
    assert_eq!(
        write.body,
        "{\"cached\":true,\"cached_time\":\"2024-01-02T03:04:05+00:00\",\"data\":{\"answer\":41}}"
    );
}

#[test]
fn cache_time_hint_honored_on_write() {
    let request = req("/a", &["k1"], Some(60));
    let time = "2024-01-02T03:04:05+00:00".to_string();
    let body = UpstreamResponse::BodyText("{\"n\":1}".to_string());
    let result = process_response(&request, body, &time);
    assert_eq!(result.cache_write.expect("cached").ttl_seconds, 60);
}

#[test]
fn upstream_error_body_delivered_verbatim_never_cached() {
    let request = req("/a", &["k1"], None);
    let time = "2024-01-02T03:04:05+00:00".to_string();
    let body = UpstreamResponse::BodyText("{\"error\":\"unauthorized.key\"}".to_string());
    let result = process_response(&request, body, &time);
    assert_eq!(
        result.event.body,
        "{\"cached\":false,\"data\":{\"error\":\"unauthorized.key\"}}"
    );
    assert!(result.cache_write.is_none());
}

#[test]
fn unparseable_body_wrapped_and_never_cached() {
    let request = req("/a", &["k1"], None);
    let time = "2024-01-02T03:04:05+00:00".to_string();
    let body = UpstreamResponse::BodyText("no\"t json".to_string());
    let result = process_response(&request, body, &time);
    assert_eq!(
        result.event.body,
        "{\"cached\":false,\"data\":{\"error\":\"Failed to parse response\",\"message\":\"no\\\"t json\"}}"
    );
    assert!(result.cache_write.is_none());
}

#[test]
fn transport_failure_published_as_fixed_error() {
    let request = req("/a", &["k1"], None);
    let time = "2024-01-02T03:04:05+00:00".to_string();
    let result = process_response(&request, UpstreamResponse::TransportFailure, &time);
    assert_eq!(result.event.body, "{\"error\":\"API request failed\"}");
    assert!(result.cache_write.is_none());
}

#[test]
fn read_failure_substituted_and_never_cached() {
    let request = req("/a", &["k1"], None);
    let time = "2024-01-02T03:04:05+00:00".to_string();
    let result = process_response(&request, UpstreamResponse::ReadFailure, &time);
    assert_eq!(
        result.event.body,
        "{\"cached\":false,\"data\":{\"error\":\"Failed to read response\"}}"
    );
    assert!(result.cache_write.is_none());
}

#[test]
fn cache_round_trip_within_ttl() {
    let mut store = CacheStore::new();
    let key = "cache:/a".to_string();
    let envelope =
        "{\"cached\":true,\"cached_time\":\"2024-01-02T03:04:05+00:00\",\"data\":{\"n\":1}}"
            .to_string();
    store.store(key.clone(), envelope.clone(), 30, 100);
    assert_eq!(store.lookup(&key, 100), Some(envelope.clone()));
    assert_eq!(store.lookup(&key, 129), Some(envelope.clone()));
    assert_eq!(store.lookup(&key, 130), None);
    assert_eq!(store.lookup(&key, 500), None);
}

#[test]
fn cache_cleared_misses() {
    let mut store = CacheStore::new();
    let key = "cache:/a".to_string();
    store.store(key.clone(), "{\"n\":1}".to_string(), 1800, 0);
    store.clear();
    assert_eq!(store.lookup(&key, 1), None);
}

#[test]
fn executor_write_round_trips_through_store() {
    let request = req("/a", &["k1"], None);
    let time = "2024-01-02T03:04:05+00:00".to_string();
    let body = UpstreamResponse::BodyText("{\"n\":1}".to_string());
    let result = process_response(&request, body, &time);
    let write = result.cache_write.expect("cached");
    let mut store = CacheStore::new();
    let probe_key = cache_key_for(&request.url);
    assert_eq!(probe_key, write.cache_key);
    store.store(write.cache_key, write.body.clone(), write.ttl_seconds, 1000);
    assert_eq!(store.lookup(&probe_key, 1000 + 1799), Some(write.body));
    assert_eq!(store.lookup(&probe_key, 1000 + 1800), None);
}

#[test]
fn fanout_delivers_only_matching_outcome() {
    let events = vec![
        RequestResponse {
            url: "/other".to_string(),
            method: "GET".to_string(),
            body: "{\"x\":1}".to_string(),
        },
        RequestResponse {
            url: "/mine".to_string(),
            method: "GET".to_string(),
            body: "{\"y\":2}".to_string(),
        },
        RequestResponse {
            url: "/mine".to_string(),
            method: "POST".to_string(),
            body: "{\"z\":3}".to_string(),
        },
    ];
    let url = "/mine".to_string();
    let method = "GET".to_string();
    assert!(!response_matches(&events[0], &url, &method));
    assert!(response_matches(&events[1], &url, &method));
    assert_eq!(
        first_matching(&events, &url, &method),
        Some("{\"y\":2}".to_string())
    );
    assert_eq!(
        first_matching(&events, &"/absent".to_string(), &method),
        None
    );
}

#[test]
fn both_callers_receive_same_outcome_body() {
    let request = req("https://publicapi.nationsglory.fr/country/x/fr", &["k1", "k2"], None);
    let time = "2024-01-02T03:04:05+00:00".to_string();
    let body = UpstreamResponse::BodyText("{\"country\":\"fr\"}".to_string());
    let result = process_response(&request, body, &time);
    let events = vec![result.event];
    let method = "GET".to_string();
    let first_caller = first_matching(&events, &request.url, &method);
    let second_caller = first_matching(&events, &request.url, &method);
    assert_eq!(
        first_caller,
        Some("{\"cached\":false,\"data\":{\"country\":\"fr\"}}".to_string())
    );
    assert_eq!(first_caller, second_caller);
}

#[test]
fn week_numbers_count_from_reference_monday() {
    assert_eq!(get_week_number_from_date(11), 1);
    assert_eq!(get_week_number_from_date(17), 1);
    assert_eq!(get_week_number_from_date(18), 2);
    assert_eq!(get_week_number_from_date(10), 1);
    assert_eq!(get_week_number_from_date(4), 0);
    assert_eq!(get_week_number_from_date(3), 0);
    assert_eq!(get_week_number_from_date(-3), -1);
}

#[test]
fn past_weeks_get_long_cache_time() {
    assert_eq!(LONG_CACHE_TTL_SECONDS, 5_184_000);
    assert_eq!(cache_time_for_weeks(5, 10), Some(5_184_000));
    assert_eq!(cache_time_for_weeks(10, 10), None);
    assert_eq!(cache_time_for_weeks(11, 10), None);
    assert_eq!(cache_time_for_weeks(-1, 10), None);
    assert_eq!(get_cache_time_from_week_number(-1), None);
}

#[test]
fn ttl_defaults_when_no_hint() {
    assert_eq!(ttl_for(Some(60)), 60);
    assert_eq!(ttl_for(None), 1800);
}

#[test]
fn cache_key_prefixes_url() {
    assert_eq!(
        cache_key_for(&"https://example.invalid/x".to_string()),
        "cache:https://example.invalid/x"
    );
}

#[test]
fn clock_stamped_write_carries_quoted_time() {
    let request = req("/a", &["k1"], None);
    let body = UpstreamResponse::BodyText("{\"n\":1}".to_string());
    let result = process_response_now(&request, body);
    assert_eq!(result.event.body, "{\"cached\":false,\"data\":{\"n\":1}}");
    let write = result.cache_write.expect("a clean body must be cached");
    assert!(write.body.starts_with("{\"cached\":true,\"cached_time\":\""));
    assert!(write.body.ends_with(",\"data\":{\"n\":1}}"));
}

#[test]
fn current_week_is_in_a_plausible_range() {
    let week = get_current_week_number();
    assert!(week > 2800);
    assert!(week < 10000);
}
