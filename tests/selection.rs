use rpc_relay::config::{Endpoint, RpcEndpoints};
use rpc_relay::selection::{apply_weights, filter_latency, healthy_candidates, unique_by_low_latency};
use rpc_relay::state::build_registry;

fn ep(url: &str, weight: u32) -> Endpoint {
    Endpoint { url: url.to_string(), max_tps: None, weight }
}

#[test]
fn weights_expand_in_order_and_zero_weight_counts_once() {
    let mut reg = build_registry(&RpcEndpoints { primary: vec![ep("a", 2), ep("b", 0), ep("c", 3)], secondary: vec![] });
    assert!(healthy_candidates(&reg, 0).is_empty());
    for p in reg.primaries.iter_mut() {
        p.healthy = true;
    }
    assert_eq!(apply_weights(&reg, vec![0, 1, 2]), vec![0, 0, 1, 2, 2, 2]);
    assert_eq!(healthy_candidates(&reg, 0), vec![0, 0, 1, 2, 2, 2]);
}

#[test]
fn latency_gate_keeps_fast_ones_or_the_fastest() {
    let mut reg = build_registry(&RpcEndpoints { primary: vec![ep("a", 1), ep("b", 1), ep("c", 1)], secondary: vec![] });
    reg.primaries[0].latency_ms = 300;
    reg.primaries[1].latency_ms = 100;
    reg.primaries[2].latency_ms = 100;
    assert_eq!(filter_latency(&reg, vec![0, 1, 2], None), vec![0, 1, 2]);
    assert_eq!(filter_latency(&reg, vec![0, 1, 2], Some(200)), vec![1, 2]);
    assert_eq!(filter_latency(&reg, vec![0, 1, 2], Some(50)), vec![1, 2]);
    assert_eq!(filter_latency(&reg, vec![0], Some(50)), vec![0]);
    assert!(filter_latency(&reg, vec![], Some(50)).is_empty());
}

#[test]
fn broadcast_order_dedupes_and_sorts_by_latency() {
    let mut reg = build_registry(&RpcEndpoints { primary: vec![ep("a", 1), ep("b", 1), ep("c", 1)], secondary: vec![] });
    reg.primaries[0].latency_ms = 30;
    reg.primaries[1].latency_ms = 10;
    reg.primaries[2].latency_ms = 20;
    assert_eq!(unique_by_low_latency(&reg, vec![0, 0, 1, 1, 2]), vec![1, 2, 0]);
}
