//! Tests for the pending table, the key-usage tracker, the in-flight set
//! and the scheduler pass.

use ng_gateway::inflight::InFlightKeys;
use ng_gateway::request::QueuedRequest;
use ng_gateway::scheduler::dispatch_pass;
use ng_gateway::scheduler::executor_complete;
use ng_gateway::scheduler::received_queue;
use ng_gateway::scheduler::scheduler_tick;
use ng_gateway::scheduler::select_key;
use ng_gateway::usage::ApiKeyUsage;

fn req(url: &str, method: &str, keys: &[&str]) -> QueuedRequest {
    QueuedRequest {
        url: url.to_string(),
        method: method.to_string(),
        api_keys: keys.iter().map(|k| k.to_string()).collect(),
        cache_time: None,
    }
}

#[test]
fn dedup_merges_same_resource() {
    let mut table: Vec<QueuedRequest> = Vec::new();
    QueuedRequest::insert_request_to_queue(&mut table, req("/a", "GET", &["k1"]));
    QueuedRequest::insert_request_to_queue(&mut table, req("/a", "GET", &["k2", "k1"]));
    assert_eq!(table.len(), 1);
    assert_eq!(table[0].api_keys, vec!["k1".to_string(), "k2".to_string()]);
}

#[test]
fn dedup_union_of_n_submissions() {
    let mut table: Vec<QueuedRequest> = Vec::new();
    QueuedRequest::insert_request_to_queue(&mut table, req("/a", "GET", &["k1"]));
    QueuedRequest::insert_request_to_queue(&mut table, req("/a", "GET", &["k2"]));
    QueuedRequest::insert_request_to_queue(&mut table, req("/a", "GET", &["k3", "k2"]));
    QueuedRequest::insert_request_to_queue(&mut table, req("/a", "GET", &["k1"]));
    assert_eq!(table.len(), 1);
    assert_eq!(
        table[0].api_keys,
        vec!["k1".to_string(), "k2".to_string(), "k3".to_string()]
    );
}

#[test]
fn fresh_submission_keys_deduplicated() {
    let mut table: Vec<QueuedRequest> = Vec::new();
    QueuedRequest::insert_request_to_queue(&mut table, req("/a", "GET", &["k1", "k2", "k1"]));
    assert_eq!(table.len(), 1);
    assert_eq!(table[0].api_keys, vec!["k1".to_string(), "k2".to_string()]);
}

#[test]
fn distinct_resources_stay_distinct() {
    let mut table: Vec<QueuedRequest> = Vec::new();
    QueuedRequest::insert_request_to_queue(&mut table, req("/a", "GET", &["k1"]));
    QueuedRequest::insert_request_to_queue(&mut table, req("/a", "POST", &["k1"]));
    QueuedRequest::insert_request_to_queue(&mut table, req("/b", "GET", &["k1"]));
    assert_eq!(table.len(), 3);
}

#[test]
fn merge_keeps_first_cache_time_hint() {
    let mut table: Vec<QueuedRequest> = Vec::new();
    let mut first = req("/a", "GET", &["k1"]);
    first.cache_time = Some(60);
    let mut second = req("/a", "GET", &["k2"]);
    second.cache_time = Some(999);
    QueuedRequest::insert_request_to_queue(&mut table, first);
    QueuedRequest::insert_request_to_queue(&mut table, second);
    assert_eq!(table.len(), 1);
    assert_eq!(table[0].cache_time, Some(60));
}

#[test]
fn key_used_at_zero_eligible_after_interval() {
    let mut usage = ApiKeyUsage::new();
    let key = "k".to_string();
    assert!(usage.can_execute(&key, 0));
    usage.update_usage(key.clone(), 0);
    assert!(!usage.can_execute(&key, 300));
    assert!(!usage.can_execute(&key, 499));
    assert!(usage.can_execute(&key, 500));
    assert!(usage.can_execute(&key, 510));
}

#[test]
fn usage_record_superseded_by_later_use() {
    let mut usage = ApiKeyUsage::new();
    let key = "k".to_string();
    usage.update_usage(key.clone(), 0);
    usage.update_usage(key.clone(), 600);
    assert!(!usage.can_execute(&key, 900));
    assert!(usage.can_execute(&key, 1100));
}

#[test]
fn inflight_reserve_and_release() {
    let mut inflight = InFlightKeys::new();
    let key = "k1".to_string();
    assert!(!inflight.contains_key(&key));
    inflight.insert(&key);
    assert!(inflight.contains_key(&key));
    inflight.remove_key(&key);
    assert!(!inflight.contains_key(&key));
}

#[test]
fn select_key_skips_reserved_and_rate_limited() {
    let mut usage = ApiKeyUsage::new();
    let mut inflight = InFlightKeys::new();
    let request = req("/a", "GET", &["k1", "k2", "k3"]);
    inflight.insert(&"k1".to_string());
    usage.update_usage("k2".to_string(), 0);
    assert_eq!(select_key(&request, &usage, &inflight, 100), Some(2));
    assert_eq!(select_key(&request, &usage, &inflight, 600), Some(1));
    let blocked = req("/a", "GET", &["k1"]);
    assert_eq!(select_key(&blocked, &usage, &inflight, 100), None);
}

#[test]
fn dispatch_pass_reserves_each_key_once() {
    let usage = ApiKeyUsage::new();
    let mut inflight = InFlightKeys::new();
    let mut table = Vec::new();
    QueuedRequest::insert_request_to_queue(&mut table, req("/a", "GET", &["k1"]));
    QueuedRequest::insert_request_to_queue(&mut table, req("/b", "GET", &["k1"]));
    let dispatches = dispatch_pass(&mut table, &usage, &mut inflight, 0);
    assert_eq!(dispatches.len(), 1);
    assert_eq!(dispatches[0].request.url, "/a");
    assert_eq!(dispatches[0].api_key, "k1");
    assert!(inflight.contains_key(&"k1".to_string()));
    assert_eq!(table.len(), 1);
    assert_eq!(table[0].url, "/b");
}

#[test]
fn rate_limited_entry_waits_for_next_pass() {
    let mut usage = ApiKeyUsage::new();
    let mut inflight = InFlightKeys::new();
    usage.update_usage("k1".to_string(), 0);
    let mut table = Vec::new();
    QueuedRequest::insert_request_to_queue(&mut table, req("/a", "GET", &["k1"]));
    let early = dispatch_pass(&mut table, &usage, &mut inflight, 300);
    assert!(early.is_empty());
    assert_eq!(table.len(), 1);
    let later = dispatch_pass(&mut table, &usage, &mut inflight, 510);
    assert_eq!(later.len(), 1);
    assert!(table.is_empty());
}

#[test]
fn executor_complete_releases_and_records() {
    let mut usage = ApiKeyUsage::new();
    let mut inflight = InFlightKeys::new();
    let key = "k1".to_string();
    inflight.insert(&key);
    executor_complete(&mut usage, &mut inflight, &key, 1000);
    assert!(!inflight.contains_key(&key));
    assert!(!usage.can_execute(&key, 1200));
    assert!(usage.can_execute(&key, 1500));
}

#[test]
fn two_callers_one_dispatch_same_tick() {
    let usage = ApiKeyUsage::new();
    let mut inflight = InFlightKeys::new();
    let mut table = Vec::new();
    let arrivals = vec![
        req("https://publicapi.nationsglory.fr/country/x/fr", "GET", &["k1"]),
        req("https://publicapi.nationsglory.fr/country/x/fr", "GET", &["k2"]),
    ];
    let dispatches = scheduler_tick(&mut table, arrivals, &usage, &mut inflight, 0);
    assert_eq!(dispatches.len(), 1);
    assert_eq!(
        dispatches[0].request.api_keys,
        vec!["k1".to_string(), "k2".to_string()]
    );
    assert_eq!(dispatches[0].api_key, "k1");
    assert!(table.is_empty());
    assert!(inflight.contains_key(&"k1".to_string()));
    assert!(!inflight.contains_key(&"k2".to_string()));
}

#[test]
fn received_queue_appends_in_arrival_order() {
    let mut table = Vec::new();
    received_queue(
        vec![req("/a", "GET", &["k1"]), req("/b", "GET", &["k2"])],
        &mut table,
    );
    assert_eq!(table.len(), 2);
    assert_eq!(table[0].url, "/a");
    assert_eq!(table[1].url, "/b");
}
