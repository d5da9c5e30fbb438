use rpc_relay::circuit_breaker::{BreakerConfig, CircuitBreaker};
use rpc_relay::config::{
    apply_env_overrides, default_ban_error_threshold, default_ban_seconds, default_broadcast_methods,
    default_broadcast_redundancy, default_max_blocks_behind, default_max_provider_tries,
    default_monitor_interval_s, default_request_timeout_ms, default_upstream_timeout_ms, default_weight,
    Config, EnvOverrides, HealthMonitorConfig, RelayConfig, RpcEndpoints, ServerConfig,
};
use rpc_relay::error_reason::{get_last_error, retain_last_errors, set_last_error, ErrorReason, LastErrors};
use rpc_relay::json::{normalize_params, Json};
use rpc_relay::num::{hex_to_u64, parse_decimal};
use rpc_relay::cache::TtlCache;
use rpc_relay::token_bucket::TokenBucket;
use rpc_relay::ui::{make_summary_line, pad, truncate};

fn arr(items: &[&str]) -> Json {
    Json::Array(items.iter().map(|s| s.to_string()).collect())
}

fn texts(j: &Json) -> Vec<String> {
    match j {
        Json::Array(a) => a.clone(),
        _ => panic!("expected an array"),
    }
}

#[test]
fn unlimited_bucket_admits_ten_thousand_takes() {
    let mut b = TokenBucket::new(0);
    for i in 0..10_000u64 {
        assert!(b.try_take_at(1, i / 7));
    }
}

#[test]
fn bucket_admits_capacity_then_refills_with_time() {
    let mut b = TokenBucket::new(2);
    assert_eq!(b.tokens_milli, 2_000);
    assert!(b.try_take_at(1, 1_000));
    assert!(b.try_take_at(1, 1_000));
    assert!(!b.try_take_at(1, 1_000));
    assert!(!b.try_take_at(1, 1_499));
    assert!(b.try_take_at(1, 1_500));
    assert!(b.try_take_at(1, 100_000));
    assert!(b.try_take_at(1, 100_000));
    assert!(!b.try_take_at(1, 100_000));
}

#[test]
fn bucket_admissions_stay_within_rate_over_a_second() {
    let mut b = TokenBucket::new(5);
    let mut admitted = 0u64;
    for t in 0..=1_000u64 {
        if b.try_take_at(1, t) {
            admitted += 1;
        }
    }
    assert!(admitted <= 5 + 5);
    assert_eq!(admitted, 10);
}

#[test]
fn breaker_bans_at_threshold_and_success_keeps_ban() {
    let cfg = BreakerConfig { ban_error_threshold: 2, ban_seconds: 30 };
    let mut b = CircuitBreaker::new();
    b.on_failure_at(&cfg, 100);
    assert_eq!(b.fail_streak, 1);
    assert!(!b.is_banned_at(100));
    b.on_failure_at(&cfg, 100);
    assert_eq!(b.fail_streak, 0);
    assert_eq!(b.banned_until(), 130);
    assert!(b.is_banned_at(129));
    assert!(!b.is_banned_at(130));
    b.on_success();
    assert_eq!(b.banned_until(), 130);
    let d: CircuitBreaker = Default::default();
    assert_eq!(d.banned_until(), 0);
    assert!(!d.is_banned());
}

#[test]
fn breaker_ban_saturates_at_the_end_of_time() {
    let cfg = BreakerConfig { ban_error_threshold: 1, ban_seconds: u64::MAX };
    let mut b = CircuitBreaker::new();
    b.on_failure_at(&cfg, 5);
    assert_eq!(b.banned_until(), u64::MAX);
}

#[test]
fn decimal_parsing_follows_std() {
    assert_eq!(parse_decimal("42"), Some(42));
    assert_eq!(parse_decimal("+7"), Some(7));
    assert_eq!(parse_decimal(""), None);
    assert_eq!(parse_decimal("+"), None);
    assert_eq!(parse_decimal("-1"), None);
    assert_eq!(parse_decimal("12a"), None);
    assert_eq!(parse_decimal("18446744073709551615"), Some(u64::MAX));
    assert_eq!(parse_decimal("18446744073709551616"), None);
}

#[test]
fn hex_block_numbers_parse() {
    assert_eq!(hex_to_u64("0x10"), Some(16));
    assert_eq!(hex_to_u64("0xFf"), Some(255));
    assert_eq!(hex_to_u64("ff"), Some(255));
    assert_eq!(hex_to_u64("0x0x1"), Some(1));
    assert_eq!(hex_to_u64("0x"), None);
    assert_eq!(hex_to_u64("0xg"), None);
    assert_eq!(hex_to_u64("0xffffffffffffffff"), Some(u64::MAX));
    assert_eq!(hex_to_u64("0x10000000000000000"), None);
}

#[test]
fn normalization_pins_pending_and_is_idempotent() {
    let m = "eth_getTransactionCount".to_string();
    let once = normalize_params(&m, arr(&["\"0xabc\"", "\"latest\"", "3"]));
    assert_eq!(texts(&once), vec!["\"0xabc\"".to_string(), "\"pending\"".to_string()]);
    let twice = normalize_params(&m, normalize_params(&m, arr(&["\"0xabc\"", "\"latest\"", "3"])));
    assert_eq!(texts(&twice), texts(&once));
    let short = normalize_params(&m, arr(&["\"0xabc\""]));
    assert_eq!(texts(&short), vec!["\"0xabc\"".to_string(), "\"pending\"".to_string()]);
    assert!(texts(&normalize_params(&m, arr(&[]))).is_empty());
    let other = normalize_params(&"eth_call".to_string(), arr(&["1", "2", "3"]));
    assert_eq!(texts(&other).len(), 3);
}

#[test]
fn canonical_text_of_values() {
    assert_eq!(arr(&["1", "\"a\""]).text(), "[1,\"a\"]");
    assert_eq!(arr(&[]).text(), "[]");
    let obj = Json::Object(vec![("\"a\"".to_string(), "1".to_string()), ("\"b\"".to_string(), "[]".to_string())]);
    assert_eq!(obj.text(), "{\"a\":1,\"b\":[]}");
    assert_eq!(Json::Other("null".to_string()).text(), "null");
}

#[test]
fn setting_a_member_replaces_it() {
    let obj = Json::Object(vec![("\"id\"".to_string(), "1".to_string()), ("\"result\"".to_string(), "2".to_string())]);
    let set = obj.with_member(&"\"id\"".to_string(), "9".to_string());
    assert_eq!(set.get_member(&"\"id\"".to_string()), Some("9".to_string()));
    assert_eq!(set.get_member(&"\"result\"".to_string()), Some("2".to_string()));
    match set {
        Json::Object(m) => assert_eq!(m.len(), 2),
        _ => panic!("expected an object"),
    }
}

#[test]
fn cache_serves_fresh_entries_and_evicts_stale_ones() {
    let mut c = TtlCache::new();
    let key = ("eth_chainId".to_string(), "[]".to_string());
    assert!(c.get(&key, 0).is_none());
    c.insert_with_ttl(key.clone(), Json::Other("1".to_string()), 100, 1_000);
    assert_eq!(c.get(&key, 1_099).map(|v| v.text()), Some("1".to_string()));
    c.insert_with_ttl(key.clone(), Json::Other("2".to_string()), 100, 1_050);
    assert_eq!(c.entries.len(), 1);
    assert_eq!(c.get(&key, 1_149).map(|v| v.text()), Some("2".to_string()));
    assert!(c.get(&key, 1_150).is_none());
    assert!(c.entries.is_empty());
}

#[test]
fn last_error_is_sticky_and_defaults_to_unset() {
    let mut reg = LastErrors::new();
    let a = "http://a".to_string();
    assert_eq!(get_last_error(&reg, &a), ErrorReason::Unset);
    set_last_error(&mut reg, &a, ErrorReason::Timeout);
    set_last_error(&mut reg, &"http://b".to_string(), ErrorReason::BadJson);
    assert_eq!(get_last_error(&reg, &a), ErrorReason::Timeout);
    set_last_error(&mut reg, &a, ErrorReason::RpcError);
    assert_eq!(get_last_error(&reg, &a), ErrorReason::RpcError);
    assert_eq!(reg.entries.len(), 2);
}

#[test]
fn error_labels() {
    assert_eq!(ErrorReason::Unset.as_str(), "none");
    assert_eq!(ErrorReason::RpcError.as_str(), "rpc_error");
    assert_eq!(ErrorReason::BadJson.as_str(), "bad_json");
    assert_eq!(ErrorReason::HttpError.as_str(), "http_error");
    assert_eq!(ErrorReason::Timeout.as_str(), "timeout");
}

#[test]
fn defaults_match_the_schema() {
    assert_eq!(default_request_timeout_ms(), 30_000);
    assert_eq!(default_max_blocks_behind(), 6);
    assert_eq!(default_monitor_interval_s(), 5);
    assert_eq!(default_max_provider_tries(), 3);
    assert_eq!(default_upstream_timeout_ms(), 30_000);
    assert_eq!(default_broadcast_methods(), vec!["eth_sendRawTransaction".to_string()]);
    assert_eq!(default_broadcast_redundancy(), 2);
    assert_eq!(default_ban_error_threshold(), 3);
    assert_eq!(default_ban_seconds(), 30);
    assert_eq!(default_weight(), 1);
}

fn base_config() -> Config {
    Config {
        network: "mainnet".to_string(),
        server: ServerConfig { bind_addr: "0.0.0.0".to_string(), port: 5588, request_timeout_ms: 30_000 },
        relay: RelayConfig {
            latency_threshold_ms: Some(500),
            max_provider_tries: 3,
            upstream_timeout_ms: 30_000,
            broadcast_methods: vec![],
            broadcast_redundancy: 2,
            ban_error_threshold: 3,
            ban_seconds: 30,
        },
        health_monitor: HealthMonitorConfig { max_blocks_behind: 6, monitor_interval_s: 5 },
        cache_ttl: vec![("eth_chainId".to_string(), 1_000)],
        rpc_endpoints: RpcEndpoints { primary: vec![], secondary: vec![] },
    }
}

#[test]
fn env_overrides_clamp_and_clear() {
    let mut cfg = base_config();
    let env = EnvOverrides {
        network: Some("sepolia".to_string()),
        http_addr: None,
        http_port: Some("70000".to_string()),
        broadcast_redundancy: Some("0".to_string()),
        latency_threshold_ms: Some("".to_string()),
        max_provider_tries: Some("0".to_string()),
        upstream_timeout_ms: Some("10".to_string()),
        ban_seconds: Some("45".to_string()),
    };
    apply_env_overrides(&mut cfg, &env);
    assert_eq!(cfg.network, "sepolia");
    assert_eq!(cfg.server.bind_addr, "0.0.0.0");
    assert_eq!(cfg.server.port, 5588);
    assert_eq!(cfg.relay.broadcast_redundancy, 1);
    assert_eq!(cfg.relay.latency_threshold_ms, None);
    assert_eq!(cfg.relay.max_provider_tries, 1);
    assert_eq!(cfg.relay.upstream_timeout_ms, 1_000);
    assert_eq!(cfg.relay.ban_seconds, 45);
    assert_eq!(cfg.ttl_for(&"eth_chainId".to_string()), 1_000);
    assert_eq!(cfg.ttl_for(&"eth_call".to_string()), 0);
}

#[test]
fn env_overrides_take_valid_values() {
    let mut cfg = base_config();
    let env = EnvOverrides {
        network: None,
        http_addr: Some("127.0.0.1".to_string()),
        http_port: Some("8080".to_string()),
        broadcast_redundancy: Some("4".to_string()),
        latency_threshold_ms: Some("250".to_string()),
        max_provider_tries: None,
        upstream_timeout_ms: Some("5000".to_string()),
        ban_seconds: Some("x".to_string()),
    };
    apply_env_overrides(&mut cfg, &env);
    assert_eq!(cfg.network, "mainnet");
    assert_eq!(cfg.server.bind_addr, "127.0.0.1");
    assert_eq!(cfg.server.port, 8080);
    assert_eq!(cfg.relay.broadcast_redundancy, 4);
    assert_eq!(cfg.relay.latency_threshold_ms, Some(250));
    assert_eq!(cfg.relay.max_provider_tries, 3);
    assert_eq!(cfg.relay.upstream_timeout_ms, 5_000);
    assert_eq!(cfg.relay.ban_seconds, 30);
}

#[test]
fn dashboard_text_helpers() {
    assert_eq!(truncate("hello", 10), "hello");
    assert_eq!(truncate("hello world", 5), "hell…");
    assert_eq!(truncate("abc", 0), "…");
    assert_eq!(pad("ab", 4), "ab  ");
    assert_eq!(pad("abcdef", 4), "abcdef");
    assert_eq!(make_summary_line(6, "abcdef"), "│abcd│");
    assert_eq!(make_summary_line(6, "ab"), "│ab  │");
    assert_eq!(make_summary_line(1, "ab"), "││");
}

#[test]
fn removed_providers_lose_their_last_error() {
    let mut reg = LastErrors::new();
    let a = "http://a".to_string();
    let b = "http://b".to_string();
    set_last_error(&mut reg, &a, ErrorReason::Timeout);
    set_last_error(&mut reg, &b, ErrorReason::HttpError);
    retain_last_errors(&mut reg, &vec![b.clone(), "http://c".to_string()]);
    assert_eq!(get_last_error(&reg, &a), ErrorReason::Unset);
    assert_eq!(get_last_error(&reg, &b), ErrorReason::HttpError);
    assert_eq!(reg.entries.len(), 1);
}
