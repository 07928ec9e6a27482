use rate_limiter::engine::{
    check_request, decide, decide_key, decide_outcome, Decision, Evaluation, FailPolicy,
    StoreOutcome,
};
use rate_limiter::rules::{ConfigError, Rule, RuleSet, ScopeType};
use rate_limiter::scope::{normalize_path, resolve, RequestInfo};
use rate_limiter::store::{CounterRecord, MemoryStore};

fn route_rule(max_requests: u64, window_secs: u64) -> Rule {
    Rule { scope: ScopeType::Route, max_requests, window_secs }
}

fn ip_rule(max_requests: u64, window_secs: u64) -> Rule {
    Rule { scope: ScopeType::ClientIp, max_requests, window_secs }
}

fn request(path: &str, peer: Option<&str>) -> RequestInfo {
    RequestInfo { path: path.to_string(), peer_addr: peer.map(|p| p.to_string()) }
}

#[test]
fn config_same_rules_twice_identical() {
    let entries = vec![route_rule(5, 60), ip_rule(10, 60)];
    let first = RuleSet::new(entries.clone()).unwrap();
    let second = RuleSet::new(entries).unwrap();
    assert_eq!(first, second);
    assert_eq!(first.len(), 2);
    assert_eq!(first.get(0), route_rule(5, 60));
    assert_eq!(first.get(1), ip_rule(10, 60));
}

#[test]
fn config_rejects_zero_max_requests() {
    let entries = vec![route_rule(5, 60), ip_rule(0, 60)];
    assert_eq!(
        RuleSet::new(entries),
        Err(ConfigError::InvalidMaxRequests { index: 1 })
    );
}

#[test]
fn config_rejects_zero_window() {
    let entries = vec![route_rule(5, 0)];
    assert_eq!(RuleSet::new(entries), Err(ConfigError::InvalidWindow { index: 0 }));
}

#[test]
fn config_reports_first_invalid_rule_and_zero_max_first() {
    let entries = vec![route_rule(5, 60), Rule {
        scope: ScopeType::Route,
        max_requests: 0,
        window_secs: 0,
    }, ip_rule(0, 60)];
    assert_eq!(
        RuleSet::new(entries),
        Err(ConfigError::InvalidMaxRequests { index: 1 })
    );
}

#[test]
fn path_normalization() {
    assert_eq!(normalize_path("/hello"), "/hello");
    assert_eq!(normalize_path("/hello/"), "/hello");
    assert_eq!(normalize_path("/hello///"), "/hello");
    assert_eq!(normalize_path("/hello?x=1&y=2"), "/hello");
    assert_eq!(normalize_path("/hello/?x=1"), "/hello");
    assert_eq!(normalize_path("/"), "/");
    assert_eq!(normalize_path(""), "/");
    assert_eq!(normalize_path("/?q"), "/");
    assert_eq!(normalize_path("/a/b"), "/a/b");
}

#[test]
fn resolved_scope_keys() {
    let req = request("/hello/", Some("203.0.113.5"));
    assert_eq!(resolve(ScopeType::Route, &req), "route:/hello");
    assert_eq!(resolve(ScopeType::ClientIp, &req), "ip:203.0.113.5");
    let anonymous = request("/hello", None);
    assert_eq!(resolve(ScopeType::ClientIp, &anonymous), "ip:unknown");
}

#[test]
fn scenario_route_quota_on_root() {
    // One route-scope rule: at most 5 requests per 60 seconds.
    let rules = RuleSet::new(vec![route_rule(5, 60)]).unwrap();
    let mut store = MemoryStore::new();
    let req = request("/", Some("203.0.113.5"));
    for _ in 0..5 {
        let d = check_request(&mut store, &rules, &req, 0);
        assert!(d.allowed);
        assert_eq!(d.retry_after_secs, None);
    }
    // The sixth request inside the same window is denied, with the window's
    // remaining time as the retry hint.
    let sixth = check_request(&mut store, &rules, &req, 10);
    assert!(!sixth.allowed);
    assert_eq!(sixth.retry_after_secs, Some(50));
}

#[test]
fn scenario_client_ip_quota_independent_of_route_counter() {
    let route_rules = RuleSet::new(vec![route_rule(5, 60)]).unwrap();
    let ip_rules = RuleSet::new(vec![ip_rule(10, 60)]).unwrap();
    let mut store = MemoryStore::new();

    // Exhaust the route counter for "/" first.
    let root = request("/", Some("198.51.100.7"));
    for _ in 0..6 {
        check_request(&mut store, &route_rules, &root, 0);
    }

    // The client-address counter is untouched by the route counter: ten
    // requests from one address pass, the eleventh is denied.
    let hello = request("/hello", Some("198.51.100.7"));
    for _ in 0..10 {
        let d = check_request(&mut store, &ip_rules, &hello, 0);
        assert!(d.allowed);
    }
    let eleventh = check_request(&mut store, &ip_rules, &hello, 0);
    assert!(!eleventh.allowed);
    assert_eq!(eleventh.retry_after_secs, Some(60));
}

#[test]
fn scenario_window_expiry_admits_again() {
    let rules = RuleSet::new(vec![route_rule(2, 60)]).unwrap();
    let mut store = MemoryStore::new();
    let req = request("/", None);
    assert!(check_request(&mut store, &rules, &req, 0).allowed);
    assert!(check_request(&mut store, &rules, &req, 5).allowed);
    let denied = check_request(&mut store, &rules, &req, 30);
    assert!(!denied.allowed);
    assert_eq!(denied.retry_after_secs, Some(30));
    // Once the window has fully elapsed the counter resets by expiry and the
    // same scope admits again.
    let retried = check_request(&mut store, &rules, &req, 60);
    assert!(retried.allowed);
    // The fresh window counts from one again.
    assert!(check_request(&mut store, &rules, &req, 61).allowed);
    assert!(!check_request(&mut store, &rules, &req, 62).allowed);
}

#[test]
fn admitted_requests_never_exceed_quota_within_window() {
    let rules = RuleSet::new(vec![route_rule(3, 60)]).unwrap();
    let mut store = MemoryStore::new();
    let req = request("/limited", None);
    let mut admitted = 0;
    for t in 0..50u64 {
        if check_request(&mut store, &rules, &req, t).allowed {
            admitted += 1;
        }
    }
    assert_eq!(admitted, 3);
}

#[test]
fn different_scope_keys_do_not_affect_each_other() {
    let rules = RuleSet::new(vec![route_rule(1, 60)]).unwrap();
    let mut store = MemoryStore::new();
    assert!(check_request(&mut store, &rules, &request("/a", None), 0).allowed);
    assert!(!check_request(&mut store, &rules, &request("/a", None), 0).allowed);
    // "/a" is exhausted; "/b" has its own counter and admits.
    assert!(check_request(&mut store, &rules, &request("/b", None), 0).allowed);
    // The query string and trailing slash collapse into "/a"'s bucket.
    assert!(!check_request(&mut store, &rules, &request("/a/?x=1", None), 0).allowed);
}

#[test]
fn fail_policy_decides_when_store_unreachable() {
    let closed = decide_outcome(StoreOutcome::Unavailable, 5, 0, FailPolicy::Closed);
    assert!(!closed.allowed);
    assert_eq!(closed.retry_after_secs, None);
    let open = decide_outcome(StoreOutcome::Unavailable, 5, 0, FailPolicy::Open);
    assert!(open.allowed);
}

#[test]
fn decision_from_counter_record() {
    let within = decide(CounterRecord { count: 5, expires_at: 100 }, 5, 40);
    assert!(within.allowed);
    assert_eq!(within.retry_after_secs, None);
    let over = decide(CounterRecord { count: 6, expires_at: 100 }, 5, 40);
    assert!(!over.allowed);
    assert_eq!(over.retry_after_secs, Some(60));
}

#[test]
fn evaluation_cursor_walks_rules_and_short_circuits() {
    let rules = RuleSet::new(vec![route_rule(5, 60), ip_rule(10, 60)]).unwrap();
    let req = request("/hello", Some("203.0.113.5"));

    let mut eval = Evaluation::new();
    let (key, rule) = eval.current(&rules, &req).unwrap();
    assert_eq!(key, "route:/hello");
    assert_eq!(rule, route_rule(5, 60));
    let fed = eval.absorb(
        &rules,
        StoreOutcome::Counted(CounterRecord { count: 1, expires_at: 60 }),
        0,
        FailPolicy::Closed,
    );
    assert_eq!(fed, None);

    let (key, rule) = eval.current(&rules, &req).unwrap();
    assert_eq!(key, "ip:203.0.113.5");
    assert_eq!(rule, ip_rule(10, 60));
    let fed = eval.absorb(
        &rules,
        StoreOutcome::Counted(CounterRecord { count: 11, expires_at: 60 }),
        20,
        FailPolicy::Closed,
    );
    assert_eq!(
        fed,
        Some(Decision { allowed: false, retry_after_secs: Some(40) })
    );

    // A denial leaves the cursor in place; an exhausted cursor admits.
    let mut all_pass = Evaluation::new();
    for _ in 0..2 {
        let fed = all_pass.absorb(
            &rules,
            StoreOutcome::Counted(CounterRecord { count: 1, expires_at: 60 }),
            0,
            FailPolicy::Closed,
        );
        assert!(fed.is_none());
    }
    assert!(all_pass.current(&rules, &req).is_none());
}

#[test]
fn store_counts_atomically_per_key() {
    let mut store = MemoryStore::new();
    let key = "route:/".to_string();
    assert_eq!(store.increment_and_check(&key, 2, 60, 0), (1, true));
    assert_eq!(store.increment_and_check(&key, 2, 60, 10), (2, true));
    assert_eq!(store.increment_and_check(&key, 2, 60, 20), (3, false));
    // A fresh window starts once the old one has expired.
    assert_eq!(store.increment_and_check(&key, 2, 60, 60), (1, true));
    // Another key counts on its own.
    assert_eq!(store.increment_and_check(&"route:/x".to_string(), 2, 60, 20), (1, true));
}

#[test]
fn decision_engine_consults_store_once_per_key() {
    let mut store = MemoryStore::new();
    let key = "ip:203.0.113.5".to_string();
    let rule = ip_rule(1, 30);
    assert!(decide_key(&mut store, &key, rule, 0).allowed);
    let denied = decide_key(&mut store, &key, rule, 10);
    assert!(!denied.allowed);
    assert_eq!(denied.retry_after_secs, Some(20));
}

#[test]
fn denied_requests_still_consume_quota() {
    // A denied request still counts: the counter keeps rising, so the window
    // does not hand out free retries.
    let rules = RuleSet::new(vec![route_rule(1, 100)]).unwrap();
    let mut store = MemoryStore::new();
    let req = request("/", None);
    assert!(check_request(&mut store, &rules, &req, 0).allowed);
    for t in 1..5u64 {
        assert!(!check_request(&mut store, &rules, &req, t).allowed);
    }
}
