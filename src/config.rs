use vstd::prelude::*;
use crate::num::{parse_decimal, parsed};

verus! {

/// The active configuration snapshot.
pub struct Config {
    pub network: String,
    pub server: ServerConfig,
    pub relay: RelayConfig,
    pub health_monitor: HealthMonitorConfig,
    /// Per-method time to live of cached responses, in milliseconds.
    pub cache_ttl: Vec<(String, u64)>,
    pub rpc_endpoints: RpcEndpoints,
}

pub struct ServerConfig {
    pub bind_addr: String,
    pub port: u16,
    pub request_timeout_ms: u64,
}

pub struct HealthMonitorConfig {
    pub max_blocks_behind: u64,
    pub monitor_interval_s: u64,
}

pub struct RelayConfig {
    pub latency_threshold_ms: Option<u64>,
    pub max_provider_tries: u32,
    pub upstream_timeout_ms: u64,
    pub broadcast_methods: Vec<String>,
    pub broadcast_redundancy: usize,
    pub ban_error_threshold: u32,
    pub ban_seconds: u64,
}

pub struct RpcEndpoints {
    pub primary: Vec<Endpoint>,
    pub secondary: Vec<Endpoint>,
}

/// An upstream as configured; `max_tps` of `None` or 0 means unlimited.
pub struct Endpoint {
    pub url: String,
    pub max_tps: Option<u32>,
    pub weight: u32,
}

pub fn default_request_timeout_ms() -> (r: u64)
    ensures r == 30_000,
{
    30_000
}

pub fn default_max_blocks_behind() -> (r: u64)
    ensures r == 6,
{
    6
}

pub fn default_monitor_interval_s() -> (r: u64)
    ensures r == 5,
{
    5
}

pub fn default_max_provider_tries() -> (r: u32)
    ensures r == 3,
{
    3
}

pub fn default_upstream_timeout_ms() -> (r: u64)
    ensures r == 30_000,
{
    30_000
}

pub fn default_broadcast_methods() -> (r: Vec<String>)
    ensures
        r@.len() == 1,
        r@[0]@ == "eth_sendRawTransaction"@,
{
    let mut v: Vec<String> = Vec::new();
    v.push(String::from_str("eth_sendRawTransaction"));
    v
}

pub fn default_broadcast_redundancy() -> (r: usize)
    ensures r == 2,
{
    2
}

pub fn default_ban_error_threshold() -> (r: u32)
    ensures r == 3,
{
    3
}

pub fn default_ban_seconds() -> (r: u64)
    ensures r == 30,
{
    30
}

pub fn default_weight() -> (r: u32)
    ensures r == 1,
{
    1
}

/// The time to live configured for `method`: the first entry that names it, else 0.
pub open spec fn ttl_lookup(entries: Seq<(String, u64)>, method: Seq<char>) -> u64
    decreases entries.len(),
{
    if entries.len() == 0 {
        0
    } else if entries[0].0@ == method {
        entries[0].1
    } else {
        ttl_lookup(entries.drop_first(), method)
    }
}

pub open spec fn names(list: Seq<String>, method: Seq<char>) -> bool {
    exists|i: int| 0 <= i < list.len() && (#[trigger] list[i])@ == method
}

impl Config {
    /// How long a response to `method` may be served from the cache; 0 for none.
    pub fn ttl_for(&self, method: &String) -> (r: u64)
        ensures
            r == ttl_lookup(self.cache_ttl@, method@),
    {
        let mut i: usize = 0;
        assert(self.cache_ttl@.subrange(0, self.cache_ttl@.len() as int) == self.cache_ttl@);
        while i < self.cache_ttl.len()
            invariant
                i <= self.cache_ttl@.len(),
                ttl_lookup(self.cache_ttl@.subrange(i as int, self.cache_ttl@.len() as int), method@)
                    == ttl_lookup(self.cache_ttl@, method@),
            decreases self.cache_ttl.len() - i,
        {
            let ghost rest = self.cache_ttl@.subrange(i as int, self.cache_ttl@.len() as int);
            if self.cache_ttl[i].0 == *method {
                return self.cache_ttl[i].1;
            }
            assert(rest.drop_first() == self.cache_ttl@.subrange(i + 1, self.cache_ttl@.len() as int));
            i = i + 1;
        }
        0
    }

    /// Whether `method` fans out to several providers.
    pub fn is_broadcast(&self, method: &String) -> (r: bool)
        ensures
            r == names(self.relay.broadcast_methods@, method@),
    {
        let mut i: usize = 0;
        while i < self.relay.broadcast_methods.len()
            invariant
                i <= self.relay.broadcast_methods@.len(),
                forall|j: int| 0 <= j < i ==> (#[trigger] self.relay.broadcast_methods@[j])@ != method@,
            decreases self.relay.broadcast_methods.len() - i,
        {
            if self.relay.broadcast_methods[i] == *method {
                assert(self.relay.broadcast_methods@[i as int]@ == method@);
                return true;
            }
            i = i + 1;
        }
        false
    }
}

/// Values read from the environment, each as the text found, or `None` where unset.
pub struct EnvOverrides {
    pub network: Option<String>,
    pub http_addr: Option<String>,
    pub http_port: Option<String>,
    pub broadcast_redundancy: Option<String>,
    pub latency_threshold_ms: Option<String>,
    pub max_provider_tries: Option<String>,
    pub upstream_timeout_ms: Option<String>,
    pub ban_seconds: Option<String>,
}

/// The decimal number that an override holds, where it is set and parses.
pub open spec fn number_in(o: Option<String>) -> Option<u64> {
    match o {
        Some(s) => parsed(s@, 10),
        None => None,
    }
}

pub open spec fn max_u64(a: u64, b: u64) -> u64 {
    if a >= b { a } else { b }
}

fn read_number(o: &Option<String>) -> (r: Option<u64>)
    ensures
        r == number_in(*o),
{
    match o {
        Some(s) => parse_decimal(s.as_str()),
        None => None,
    }
}

/// Applies environment overrides: a text that does not parse as its field's type
/// leaves the field as it was, but for the latency threshold, which it clears.
/// Redundancy and tries are at least 1, the upstream timeout at least 1000 ms.
pub fn apply_env_overrides(cfg: &mut Config, env: &EnvOverrides)
    ensures
        final(cfg).network == (match env.network { Some(n) => n, None => old(cfg).network }),
        final(cfg).server.bind_addr == (match env.http_addr { Some(a) => a, None => old(cfg).server.bind_addr }),
        final(cfg).server.port == (match number_in(env.http_port) {
            Some(v) => if v <= u16::MAX { v as u16 } else { old(cfg).server.port },
            None => old(cfg).server.port,
        }),
        final(cfg).server.request_timeout_ms == old(cfg).server.request_timeout_ms,
        final(cfg).relay.broadcast_redundancy == (match number_in(env.broadcast_redundancy) {
            Some(v) => if v <= usize::MAX { if v >= 1 { v as usize } else { 1 } } else { old(cfg).relay.broadcast_redundancy },
            None => old(cfg).relay.broadcast_redundancy,
        }),
        final(cfg).relay.latency_threshold_ms == (match env.latency_threshold_ms {
            Some(s) => parsed(s@, 10),
            None => old(cfg).relay.latency_threshold_ms,
        }),
        final(cfg).relay.max_provider_tries == (match number_in(env.max_provider_tries) {
            Some(v) => if v <= u32::MAX { if v >= 1 { v as u32 } else { 1 } } else { old(cfg).relay.max_provider_tries },
            None => old(cfg).relay.max_provider_tries,
        }),
        final(cfg).relay.upstream_timeout_ms == (match number_in(env.upstream_timeout_ms) {
            Some(v) => max_u64(v, 1000),
            None => old(cfg).relay.upstream_timeout_ms,
        }),
        final(cfg).relay.ban_seconds == (match number_in(env.ban_seconds) {
            Some(v) => v,
            None => old(cfg).relay.ban_seconds,
        }),
        final(cfg).relay.broadcast_methods == old(cfg).relay.broadcast_methods,
        final(cfg).relay.ban_error_threshold == old(cfg).relay.ban_error_threshold,
        final(cfg).health_monitor == old(cfg).health_monitor,
        final(cfg).cache_ttl == old(cfg).cache_ttl,
        final(cfg).rpc_endpoints == old(cfg).rpc_endpoints,
{
    if let Some(n) = &env.network {
        cfg.network = n.clone();
    }
    if let Some(a) = &env.http_addr {
        cfg.server.bind_addr = a.clone();
    }
    if let Some(p) = read_number(&env.http_port) {
        if p <= u16::MAX as u64 {
            cfg.server.port = p as u16;
        }
    }
    if let Some(n) = read_number(&env.broadcast_redundancy) {
        if n <= usize::MAX as u64 {
            cfg.relay.broadcast_redundancy = if n >= 1 { n as usize } else { 1 };
        }
    }
    if let Some(s) = &env.latency_threshold_ms {
        cfg.relay.latency_threshold_ms = parse_decimal(s.as_str());
    }
    if let Some(t) = read_number(&env.max_provider_tries) {
        if t <= u32::MAX as u64 {
            cfg.relay.max_provider_tries = if t >= 1 { t as u32 } else { 1 };
        }
    }
    if let Some(v) = read_number(&env.upstream_timeout_ms) {
        cfg.relay.upstream_timeout_ms = if v >= 1000 { v } else { 1000 };
    }
    if let Some(v) = read_number(&env.ban_seconds) {
        cfg.relay.ban_seconds = v;
    }
}

} // verus!
