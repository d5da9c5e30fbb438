use rpc_relay::config::{
    Config, Endpoint, HealthMonitorConfig, RelayConfig, RpcEndpoints, ServerConfig,
};
use rpc_relay::error_reason::{get_last_error, ErrorReason};
use rpc_relay::health::{apply_sweep, ProbeReply};
use rpc_relay::json::Json;
use rpc_relay::relay::{apply_reload, begin, status, AppState, Outcome, Reply, RpcRequest, Start, Step};
use rpc_relay::selection::select;
use rpc_relay::state::reconcile_registry;

const NOW_MS: u64 = 1_700_000_000_000;

fn ep(url: &str, max_tps: u32, weight: u32) -> Endpoint {
    Endpoint { url: url.to_string(), max_tps: Some(max_tps), weight }
}

fn config(primary: Vec<Endpoint>, secondary: Vec<Endpoint>) -> Config {
    Config {
        network: "testnet".to_string(),
        server: ServerConfig { bind_addr: "0.0.0.0".to_string(), port: 5588, request_timeout_ms: 30_000 },
        relay: RelayConfig {
            latency_threshold_ms: None,
            max_provider_tries: 3,
            upstream_timeout_ms: 30_000,
            broadcast_methods: vec!["eth_sendRawTransaction".to_string()],
            broadcast_redundancy: 2,
            ban_error_threshold: 3,
            ban_seconds: 30,
        },
        health_monitor: HealthMonitorConfig { max_blocks_behind: 6, monitor_interval_s: 5 },
        cache_ttl: Vec::new(),
        rpc_endpoints: RpcEndpoints { primary, secondary },
    }
}

fn request(id: &str, method: &str, params: Vec<&str>) -> RpcRequest {
    RpcRequest {
        id: id.to_string(),
        method: method.to_string(),
        params: Json::Array(params.into_iter().map(|p| p.to_string()).collect()),
    }
}

fn result_body(id: &str, result: &str) -> Json {
    Json::Object(vec![
        ("\"id\"".to_string(), id.to_string()),
        ("\"jsonrpc\"".to_string(), "\"2.0\"".to_string()),
        ("\"result\"".to_string(), result.to_string()),
    ])
}

fn error_body(id: &str) -> Json {
    Json::Object(vec![
        ("\"error\"".to_string(), "{\"code\":-32000,\"message\":\"boom\"}".to_string()),
        ("\"id\"".to_string(), id.to_string()),
        ("\"jsonrpc\"".to_string(), "\"2.0\"".to_string()),
    ])
}

fn member(j: &Json, key: &str) -> Option<String> {
    match j {
        Json::Object(m) => m.iter().rev().find(|(k, _)| k == key).map(|(_, v)| v.clone()),
        _ => None,
    }
}

/// Marks every provider healthy the way a sweep does: each answers block 1.
fn sweep_all(app: &mut AppState) {
    let probes: Vec<ProbeReply> = app
        .registry
        .all()
        .into_iter()
        .map(|url| ProbeReply { url, reply: Some(("0x1".to_string(), 10)) })
        .collect();
    assert!(apply_sweep(&mut app.registry, &probes, 6));
}

fn provider<'a>(app: &'a AppState, url: &str) -> &'a rpc_relay::state::ProviderState {
    app.registry.primaries.iter().chain(app.registry.secondaries.iter()).find(|p| p.url == url).unwrap()
}

#[test]
fn cache_hit_serves_second_request_with_its_own_id() {
    let mut cfg = config(vec![ep("http://a", 0, 1)], vec![]);
    cfg.cache_ttl = vec![("eth_chainId".to_string(), 60_000)];
    let mut app = AppState::new(cfg);
    sweep_all(&mut app);

    let mut s = match begin(&mut app, request("1", "eth_chainId", vec![]), NOW_MS) {
        Start::Failover(s) => s,
        _ => panic!("expected the failover path"),
    };
    let url = match s.next(&mut app, NOW_MS) {
        Step::Dispatch { url, .. } => url,
        Step::Done(_) => panic!("expected a dispatch"),
    };
    assert_eq!(url, "http://a");
    let first = s.complete(&mut app, &url, Outcome::Answer(result_body("1", "\"0x1\"")), NOW_MS).unwrap();
    assert_eq!(first.status, 200);

    match begin(&mut app, request("2", "eth_chainId", vec![]), NOW_MS + 1_000) {
        Start::Done(resp) => {
            assert_eq!(resp.status, 200);
            assert_eq!(resp.id, "2");
            match resp.reply {
                Reply::Body(body) => {
                    assert_eq!(member(&body, "\"id\""), Some("2".to_string()));
                    assert_eq!(member(&body, "\"result\""), Some("\"0x1\"".to_string()));
                }
                Reply::Failure { .. } => panic!("expected a body"),
            }
        }
        _ => panic!("expected a cache hit"),
    }
    assert_eq!(app.cache_hits, 1);
    assert_eq!(app.total_calls, 2);
    assert_eq!(provider(&app, "http://a").call_count, 1);
}

#[test]
fn cache_entry_expires_after_its_ttl() {
    let mut cfg = config(vec![ep("http://a", 0, 1)], vec![]);
    cfg.cache_ttl = vec![("eth_chainId".to_string(), 60_000)];
    let mut app = AppState::new(cfg);
    sweep_all(&mut app);
    let mut s = match begin(&mut app, request("1", "eth_chainId", vec![]), NOW_MS) {
        Start::Failover(s) => s,
        _ => panic!("expected the failover path"),
    };
    let url = match s.next(&mut app, NOW_MS) {
        Step::Dispatch { url, .. } => url,
        Step::Done(_) => panic!("expected a dispatch"),
    };
    s.complete(&mut app, &url, Outcome::Answer(result_body("1", "\"0x1\"")), NOW_MS).unwrap();
    assert!(matches!(begin(&mut app, request("2", "eth_chainId", vec![]), NOW_MS + 60_000), Start::Failover(_)));
    assert_eq!(app.cache_hits, 0);
}

#[test]
fn failover_moves_to_the_next_provider_after_a_timeout() {
    let mut cfg = config(vec![ep("http://a", 0, 1), ep("http://b", 0, 1)], vec![]);
    cfg.relay.max_provider_tries = 2;
    let mut app = AppState::new(cfg);
    sweep_all(&mut app);
    let mut s = match begin(&mut app, request("5", "eth_blockNumber", vec![]), NOW_MS) {
        Start::Failover(s) => s,
        _ => panic!("expected the failover path"),
    };
    let first = match s.next(&mut app, NOW_MS) {
        Step::Dispatch { url, .. } => url,
        Step::Done(_) => panic!("expected a dispatch"),
    };
    assert_eq!(first, "http://a");
    assert!(s.complete(&mut app, &first, Outcome::Timeout, NOW_MS).is_none());
    let second = match s.next(&mut app, NOW_MS) {
        Step::Dispatch { url, .. } => url,
        Step::Done(_) => panic!("expected a dispatch"),
    };
    assert_eq!(second, "http://b");
    let resp = s.complete(&mut app, &second, Outcome::Answer(result_body("5", "\"0x10\"")), NOW_MS).unwrap();
    assert_eq!(resp.status, 200);
    assert_eq!(resp.id, "5");
    match resp.reply {
        Reply::Body(body) => assert_eq!(member(&body, "\"result\""), Some("\"0x10\"".to_string())),
        Reply::Failure { .. } => panic!("expected a body"),
    }
    assert_eq!(provider(&app, "http://a").errors, 1);
    assert_eq!(provider(&app, "http://a").call_count, 1);
    assert_eq!(provider(&app, "http://b").call_count, 1);
    assert_eq!(get_last_error(&app.last_errors, &"http://a".to_string()), ErrorReason::Timeout);
    assert_eq!(get_last_error(&app.last_errors, &"http://b".to_string()), ErrorReason::Unset);
}

#[test]
fn single_try_turns_one_failure_into_bad_gateway() {
    let mut cfg = config(vec![ep("http://a", 0, 1), ep("http://b", 0, 1)], vec![]);
    cfg.relay.max_provider_tries = 1;
    let mut app = AppState::new(cfg);
    sweep_all(&mut app);
    let mut s = match begin(&mut app, request("9", "eth_call", vec![]), NOW_MS) {
        Start::Failover(s) => s,
        _ => panic!("expected the failover path"),
    };
    let url = match s.next(&mut app, NOW_MS) {
        Step::Dispatch { url, .. } => url,
        Step::Done(_) => panic!("expected a dispatch"),
    };
    assert!(s.complete(&mut app, &url, Outcome::Transport, NOW_MS).is_none());
    match s.next(&mut app, NOW_MS) {
        Step::Done(resp) => {
            assert_eq!(resp.status, 502);
            assert_eq!(resp.id, "9");
            match resp.reply {
                Reply::Failure { code, message } => {
                    assert_eq!(code, -32603);
                    assert_eq!(message, "Upstream provider error after failover: upstream error");
                }
                Reply::Body(_) => panic!("expected a failure"),
            }
        }
        Step::Dispatch { .. } => panic!("failover must be off"),
    }
    assert_eq!(get_last_error(&app.last_errors, &url), ErrorReason::HttpError);
}

fn broadcast_app(redundancy: usize) -> AppState {
    let mut cfg = config(vec![ep("http://a", 0, 1), ep("http://b", 0, 1), ep("http://c", 0, 1)], vec![]);
    cfg.relay.broadcast_redundancy = redundancy;
    let mut app = AppState::new(cfg);
    sweep_all(&mut app);
    app.registry.primaries[0].latency_ms = 30;
    app.registry.primaries[1].latency_ms = 10;
    app.registry.primaries[2].latency_ms = 20;
    app
}

#[test]
fn broadcast_dispatches_to_the_lowest_latency_providers() {
    let mut app = broadcast_app(2);
    let mut s = match begin(&mut app, request("7", "eth_sendRawTransaction", vec!["\"0xabc\""]), NOW_MS) {
        Start::Broadcast(s) => s,
        _ => panic!("expected the broadcast path"),
    };
    assert_eq!(s.targets, vec!["http://b".to_string(), "http://c".to_string()]);
    assert_eq!(s.pending, 2);
    assert_eq!(provider(&app, "http://a").call_count, 0);
    assert_eq!(provider(&app, "http://b").call_count, 1);
    assert_eq!(provider(&app, "http://c").call_count, 1);
    let c = "http://c".to_string();
    let resp = s.complete(&mut app, &c, Outcome::Answer(result_body("7", "\"0xhash\"")), NOW_MS).unwrap();
    assert_eq!(resp.status, 200);
    assert_eq!(resp.id, "7");
    match resp.reply {
        Reply::Body(body) => assert_eq!(member(&body, "\"id\""), Some("7".to_string())),
        Reply::Failure { .. } => panic!("expected a body"),
    }
}

#[test]
fn broadcast_with_redundancy_one_sends_to_one_provider() {
    let mut app = broadcast_app(1);
    match begin(&mut app, request("7", "eth_sendRawTransaction", vec!["\"0xabc\""]), NOW_MS) {
        Start::Broadcast(s) => {
            assert_eq!(s.targets, vec!["http://b".to_string()]);
            assert_eq!(s.pending, 1);
        }
        _ => panic!("expected the broadcast path"),
    }
}

#[test]
fn broadcast_reports_the_first_failure_when_all_fail() {
    let mut app = broadcast_app(2);
    let mut s = match begin(&mut app, request("7", "eth_sendRawTransaction", vec!["\"0xabc\""]), NOW_MS) {
        Start::Broadcast(s) => s,
        _ => panic!("expected the broadcast path"),
    };
    let b = "http://b".to_string();
    let c = "http://c".to_string();
    assert!(s.complete(&mut app, &c, Outcome::BadJson("eof".to_string()), NOW_MS).is_none());
    let resp = s.complete(&mut app, &b, Outcome::Answer(error_body("7")), NOW_MS).unwrap();
    assert_eq!(resp.status, 502);
    match resp.reply {
        Reply::Failure { code, message } => {
            assert_eq!(code, -32603);
            assert_eq!(message, "All broadcast attempts failed: bad json: eof");
        }
        Reply::Body(_) => panic!("expected a failure"),
    }
    assert_eq!(provider(&app, "http://b").errors, 1);
    assert_eq!(provider(&app, "http://c").errors, 1);
    assert_eq!(get_last_error(&app.last_errors, &b), ErrorReason::RpcError);
    assert_eq!(get_last_error(&app.last_errors, &c), ErrorReason::BadJson);
}

#[test]
fn rate_limited_when_no_bucket_admits() {
    let mut cfg = config(vec![ep("http://a", 1, 1)], vec![]);
    cfg.relay.max_provider_tries = 1;
    let mut app = AppState::new(cfg);
    sweep_all(&mut app);
    let mut s = match begin(&mut app, request("1", "eth_call", vec![]), NOW_MS) {
        Start::Failover(s) => s,
        _ => panic!("expected the failover path"),
    };
    assert!(matches!(s.next(&mut app, NOW_MS), Step::Dispatch { .. }));
    let mut s2 = match begin(&mut app, request("2", "eth_call", vec![]), NOW_MS) {
        Start::Failover(s) => s,
        _ => panic!("expected the failover path"),
    };
    match s2.next(&mut app, NOW_MS) {
        Step::Done(resp) => {
            assert_eq!(resp.status, 429);
            assert_eq!(resp.id, "2");
            assert!(matches!(resp.reply, Reply::Failure { code: -32005, .. }));
        }
        Step::Dispatch { .. } => panic!("the bucket is empty"),
    }
    assert_eq!(provider(&app, "http://a").call_count, 1);
    assert!(s.tries == 1 && s2.attempt == 0);
}

#[test]
fn no_healthy_provider_gives_internal_error() {
    let mut app = AppState::new(config(vec![ep("http://a", 0, 1)], vec![]));
    match begin(&mut app, request("\"x\"", "eth_call", vec![]), NOW_MS) {
        Start::Done(resp) => {
            assert_eq!(resp.status, 500);
            assert_eq!(resp.id, "\"x\"");
            match resp.reply {
                Reply::Failure { code, message } => {
                    assert_eq!(code, -32000);
                    assert_eq!(message, "No healthy RPCs available");
                }
                Reply::Body(_) => panic!("expected a failure"),
            }
        }
        _ => panic!("expected an immediate answer"),
    }
}

#[test]
fn two_failures_ban_a_provider_for_the_ban_time() {
    let mut cfg = config(vec![ep("http://a", 0, 1)], vec![]);
    cfg.relay.ban_error_threshold = 2;
    cfg.relay.ban_seconds = 30;
    cfg.relay.max_provider_tries = 2;
    let mut app = AppState::new(cfg);
    sweep_all(&mut app);
    let mut s = match begin(&mut app, request("1", "eth_call", vec![]), NOW_MS) {
        Start::Failover(s) => s,
        _ => panic!("expected the failover path"),
    };
    for _ in 0..2 {
        let url = match s.next(&mut app, NOW_MS) {
            Step::Dispatch { url, .. } => url,
            Step::Done(_) => panic!("expected a dispatch"),
        };
        assert!(s.complete(&mut app, &url, Outcome::Answer(error_body("1")), NOW_MS).is_none());
    }
    let now_s = NOW_MS / 1000;
    assert_eq!(provider(&app, "http://a").breaker.banned_until(), now_s + 30);
    assert!(select(&app.registry, None, now_s).is_empty());
    assert!(select(&app.registry, None, now_s + 29).is_empty());
    assert_eq!(select(&app.registry, None, now_s + 30), vec![0]);
    assert!(matches!(begin(&mut app, request("2", "eth_call", vec![]), NOW_MS), Start::Done(_)));
}

#[test]
fn reload_keeps_counters_of_surviving_providers() {
    let mut app = AppState::new(config(vec![ep("http://a", 0, 1)], vec![]));
    app.registry.primaries[0].call_count = 42;
    app.registry.primaries[0].breaker.fail_streak = 1;
    app.registry.primaries[0].breaker.banned_until_epoch = 99;
    let new_eps = RpcEndpoints { primary: vec![ep("http://a", 0, 1), ep("http://d", 0, 1)], secondary: vec![] };
    reconcile_registry(&mut app.registry, &new_eps);
    let a = provider(&app, "http://a");
    assert_eq!(a.call_count, 42);
    assert_eq!(a.breaker.fail_streak, 1);
    assert_eq!(a.breaker.banned_until(), 99);
    let d = provider(&app, "http://d");
    assert_eq!(d.call_count, 0);
    assert_eq!(d.errors, 0);
    assert!(!d.healthy);
    assert_eq!(app.registry.primaries.len(), 2);
}

#[test]
fn reload_against_own_config_changes_nothing() {
    let mut app = AppState::new(config(vec![ep("http://a", 5, 2)], vec![ep("http://s", 0, 1)]));
    app.registry.primaries[0].call_count = 7;
    app.registry.primaries[0].bucket.tokens_milli = 1234;
    app.registry.secondaries[0].errors = 3;
    let own = RpcEndpoints { primary: vec![ep("http://a", 5, 2)], secondary: vec![ep("http://s", 0, 1)] };
    reconcile_registry(&mut app.registry, &own);
    assert_eq!(app.registry.primaries[0].call_count, 7);
    assert_eq!(app.registry.primaries[0].bucket.tokens_milli, 1234);
    assert_eq!(app.registry.secondaries[0].errors, 3);
}

#[test]
fn reload_moves_tiers_and_drops_missing_and_resets_changed_bucket() {
    let mut app = AppState::new(config(vec![ep("http://a", 5, 1), ep("http://b", 0, 1)], vec![]));
    app.registry.primaries[0].call_count = 3;
    app.registry.primaries[0].bucket.tokens_milli = 0;
    let new_eps = RpcEndpoints { primary: vec![], secondary: vec![ep("http://a", 9, 0)] };
    reconcile_registry(&mut app.registry, &new_eps);
    assert!(app.registry.primaries.is_empty());
    assert_eq!(app.registry.secondaries.len(), 1);
    let a = &app.registry.secondaries[0];
    assert_eq!(a.call_count, 3);
    assert_eq!(a.weight, 1);
    assert_eq!(a.max_tps, 9);
    assert_eq!(a.bucket.tokens_milli, 9_000);
}

#[test]
fn health_sweep_evicts_lagging_provider() {
    let mut app = AppState::new(config(vec![ep("http://a", 0, 1), ep("http://b", 0, 1), ep("http://c", 0, 1)], vec![]));
    let probes = vec![
        ProbeReply { url: "http://a".to_string(), reply: Some(("0x64".to_string(), 12)) },
        ProbeReply { url: "http://b".to_string(), reply: Some(("0x64".to_string(), 15)) },
        ProbeReply { url: "http://c".to_string(), reply: Some(("0x5d".to_string(), 9)) },
    ];
    assert!(apply_sweep(&mut app.registry, &probes, 6));
    let rows = status(&app);
    assert!(rows[0].healthy && rows[0].behind == 0 && rows[0].latest_block == 100 && rows[0].latency_ms == 12);
    assert!(rows[1].healthy && rows[1].behind == 0);
    assert!(!rows[2].healthy);
    assert_eq!(rows[2].behind, 7);
    assert_eq!(rows[2].latest_block, 93);
    assert_eq!(select(&app.registry, None, NOW_MS / 1000), vec![0, 1]);
}

#[test]
fn failed_probe_marks_provider_unhealthy_and_keeps_fields() {
    let mut app = AppState::new(config(vec![ep("http://a", 0, 1), ep("http://b", 0, 1)], vec![]));
    app.registry.primaries[1].latest_block = 50;
    let probes = vec![
        ProbeReply { url: "http://a".to_string(), reply: Some(("0x10".to_string(), 5)) },
        ProbeReply { url: "http://b".to_string(), reply: Some(("nonsense".to_string(), 5)) },
    ];
    assert!(apply_sweep(&mut app.registry, &probes, 6));
    assert!(app.registry.primaries[0].healthy);
    assert!(!app.registry.primaries[1].healthy);
    assert_eq!(app.registry.primaries[1].latest_block, 50);
    let stale = vec![ProbeReply { url: "http://z".to_string(), reply: None }];
    assert!(!apply_sweep(&mut app.registry, &stale, 6));
}

#[test]
fn secondary_tier_used_until_a_primary_recovers() {
    let mut app = AppState::new(config(vec![ep("http://p", 0, 1)], vec![ep("http://s", 0, 2)]));
    app.registry.secondaries[0].healthy = true;
    assert_eq!(select(&app.registry, None, 0), vec![1, 1]);
    app.registry.primaries[0].healthy = true;
    assert_eq!(select(&app.registry, None, 0), vec![0]);
}

#[test]
fn status_lists_every_provider_with_its_last_error() {
    let mut app = AppState::new(config(vec![ep("http://a", 0, 1)], vec![ep("http://s", 0, 1)]));
    sweep_all(&mut app);
    let mut s = match begin(&mut app, request("1", "eth_call", vec![]), NOW_MS) {
        Start::Failover(s) => s,
        _ => panic!("expected the failover path"),
    };
    let url = match s.next(&mut app, NOW_MS) {
        Step::Dispatch { url, .. } => url,
        Step::Done(_) => panic!("expected a dispatch"),
    };
    s.complete(&mut app, &url, Outcome::Timeout, NOW_MS);
    let rows = status(&app);
    assert_eq!(rows.len(), 2);
    assert_eq!(rows[0].url, "http://a");
    assert_eq!(rows[0].last_error, "timeout");
    assert_eq!(rows[0].errors, 1);
    assert_eq!(rows[0].call_count, 1);
    assert_eq!(rows[0].latency_ms, 10);
    assert_eq!(rows[1].last_error, "none");
}

#[test]
fn reload_swaps_config_and_forgets_removed_providers() {
    let mut app = AppState::new(config(vec![ep("http://a", 0, 1), ep("http://b", 0, 1)], vec![]));
    sweep_all(&mut app);
    app.registry.primaries[0].call_count = 5;
    let mut s = match begin(&mut app, request("1", "eth_call", vec![]), NOW_MS) {
        Start::Failover(s) => s,
        _ => panic!("expected the failover path"),
    };
    let url = match s.next(&mut app, NOW_MS) {
        Step::Dispatch { url, .. } => url,
        Step::Done(_) => panic!("expected a dispatch"),
    };
    s.complete(&mut app, &url, Outcome::Timeout, NOW_MS);
    let mut new_cfg = config(vec![ep("http://b", 0, 1)], vec![ep("http://a", 0, 1)]);
    new_cfg.relay.ban_seconds = 99;
    apply_reload(&mut app, new_cfg);
    assert_eq!(app.breaker_cfg.ban_seconds, 99);
    assert_eq!(app.cfg.relay.ban_seconds, 99);
    assert_eq!(app.registry.secondaries[0].url, "http://a");
    assert_eq!(app.registry.secondaries[0].call_count, 6);
    assert_eq!(get_last_error(&app.last_errors, &"http://a".to_string()), ErrorReason::Timeout);
    apply_reload(&mut app, config(vec![ep("http://b", 0, 1)], vec![]));
    assert_eq!(get_last_error(&app.last_errors, &"http://a".to_string()), ErrorReason::Unset);
}
