use vstd::prelude::*;
use crate::num::{hex_to_u64, parsed, strip_hex_prefix};
use crate::state::ProviderRegistry;

verus! {

/// What one `eth_blockNumber` probe of a provider brought back.
pub struct ProbeReply {
    pub url: String,
    /// The `result` string and the round-trip time in milliseconds, where the
    /// provider answered with JSON whose `result` is a string; `None` on any failure.
    pub reply: Option<(String, u64)>,
}

/// The block number a probe reports, where its result is a hex integer.
pub open spec fn block_of(p: ProbeReply) -> Option<u64> {
    match p.reply {
        Some(r) => parsed(strip_hex_prefix(r.0@), 16),
        None => None,
    }
}

/// The round-trip time a probe measured, 0 where it failed.
pub open spec fn latency_of(p: ProbeReply) -> u64 {
    match p.reply {
        Some(r) => r.1,
        None => 0,
    }
}

/// The highest block reported in `probes`, 0 where none reported one.
pub open spec fn sweep_max(probes: Seq<ProbeReply>) -> u64
    decreases probes.len(),
{
    if probes.len() == 0 {
        0
    } else {
        let m = sweep_max(probes.drop_last());
        match block_of(probes.last()) {
            Some(b) => if b > m { b } else { m },
            None => m,
        }
    }
}

proof fn lemma_sweep_max(probes: Seq<ProbeReply>)
    ensures
        forall|k: int| 0 <= k < probes.len() && (#[trigger] block_of(probes[k])) is Some
            ==> block_of(probes[k])->0 <= sweep_max(probes),
    decreases probes.len(),
{
    if probes.len() > 0 {
        let d = probes.drop_last();
        lemma_sweep_max(d);
        assert forall|k: int| 0 <= k < probes.len() && (#[trigger] block_of(probes[k])) is Some
            implies block_of(probes[k])->0 <= sweep_max(probes) by {
            if k < d.len() {
                assert(probes[k] == d[k]);
            }
        }
    }
}

/// The probes were made of the registry as it stands: one per provider, in order.
pub open spec fn probes_match(reg: ProviderRegistry, probes: Seq<ProbeReply>) -> bool {
    &&& probes.len() == reg.all_seq().len()
    &&& forall|k: int| 0 <= k < probes.len() ==> (#[trigger] probes[k]).url@ == reg.all_seq()[k].url@
}

/// Books a finished health sweep. A provider whose probe reported a block takes
/// it and the latency, is `sweep_max - block` behind, and is healthy exactly when
/// that is at most `max_behind`; any other provider is unhealthy, its other fields
/// kept. Counters, buckets and breakers are untouched. Where the probes do not
/// match the registry (it was reloaded meanwhile), nothing changes.
pub fn apply_sweep(reg: &mut ProviderRegistry, probes: &Vec<ProbeReply>, max_behind: u64) -> (r: bool)
    requires
        old(reg).wf(),
    ensures
        final(reg).wf(),
        r == probes_match(*old(reg), probes@),
        !r ==> *final(reg) == *old(reg),
        r ==> final(reg).primaries@.len() == old(reg).primaries@.len(),
        r ==> final(reg).all_seq().len() == old(reg).all_seq().len(),
        r ==> forall|k: int| 0 <= k < final(reg).all_seq().len() && (#[trigger] final(reg).all_seq()[k]).healthy
            ==> block_of(probes@[k]) is Some,
        r ==> forall|k: int| 0 <= k < old(reg).all_seq().len() ==> {
            let p = #[trigger] final(reg).all_seq()[k];
            let o = old(reg).all_seq()[k];
            &&& p.url == o.url
            &&& p.call_count == o.call_count
            &&& p.errors == o.errors
            &&& p.breaker == o.breaker
            &&& p.bucket == o.bucket
            &&& p.weight == o.weight
            &&& p.max_tps == o.max_tps
            &&& match block_of(probes@[k]) {
                Some(b) => {
                    &&& p.latest_block == b
                    &&& p.latency_ms == latency_of(probes@[k])
                    &&& p.behind == sweep_max(probes@) - b
                    &&& p.healthy == (sweep_max(probes@) - b <= max_behind)
                },
                None => {
                    &&& !p.healthy
                    &&& p.latest_block == o.latest_block
                    &&& p.latency_ms == o.latency_ms
                    &&& p.behind == o.behind
                },
            }
        },
{
    let n = reg.len();
    if probes.len() != n {
        return false;
    }
    let mut k: usize = 0;
    while k < n
        invariant
            n == reg.all_seq().len(),
            n == probes@.len(),
            k <= n,
            reg.wf(),
            forall|j: int| 0 <= j < k ==> (#[trigger] probes@[j]).url@ == reg.all_seq()[j].url@,
        decreases n - k,
    {
        if probes[k].url != reg.get(k).url {
            return false;
        }
        k = k + 1;
    }
    let mut blocks: Vec<Option<u64>> = Vec::new();
    let mut max_block: u64 = 0;
    let mut k: usize = 0;
    assert(probes@.take(0) =~= Seq::<ProbeReply>::empty());
    while k < n
        invariant
            n == probes@.len(),
            k <= n,
            blocks@.len() == k,
            forall|j: int| 0 <= j < k ==> #[trigger] blocks@[j] == block_of(probes@[j]),
            max_block == sweep_max(probes@.take(k as int)),
        decreases n - k,
    {
        assert(probes@.take(k + 1).drop_last() =~= probes@.take(k as int));
        assert(probes@.take(k + 1).last() == probes@[k as int]);
        let b: Option<u64> = match &probes[k].reply {
            Some(r) => hex_to_u64(r.0.as_str()),
            None => None,
        };
        if let Some(v) = b {
            if v > max_block {
                max_block = v;
            }
        }
        blocks.push(b);
        k = k + 1;
    }
    assert(probes@.take(n as int) =~= probes@);
    proof { lemma_sweep_max(probes@); }
    let ghost reg0 = *reg;
    let mut k: usize = 0;
    while k < n
        invariant
            n == reg0.all_seq().len(),
            n == probes@.len(),
            k <= n,
            reg.wf(),
            blocks@.len() == n,
            forall|j: int| 0 <= j < n ==> #[trigger] blocks@[j] == block_of(probes@[j]),
            max_block == sweep_max(probes@),
            forall|j: int| 0 <= j < n && (#[trigger] block_of(probes@[j])) is Some ==> block_of(probes@[j])->0 <= max_block,
            reg.primaries@.len() == reg0.primaries@.len(),
            reg.all_seq().len() == n,
            forall|j: int| k <= j < n ==> #[trigger] reg.all_seq()[j] == reg0.all_seq()[j],
            forall|j: int| 0 <= j < k ==> {
                let p = #[trigger] reg.all_seq()[j];
                let o = reg0.all_seq()[j];
                &&& p.url == o.url
                &&& p.call_count == o.call_count
                &&& p.errors == o.errors
                &&& p.breaker == o.breaker
                &&& p.bucket == o.bucket
                &&& p.weight == o.weight
                &&& p.max_tps == o.max_tps
                &&& match block_of(probes@[j]) {
                    Some(b) => {
                        &&& p.latest_block == b
                        &&& p.latency_ms == latency_of(probes@[j])
                        &&& p.behind == sweep_max(probes@) - b
                        &&& p.healthy == (sweep_max(probes@) - b <= max_behind)
                    },
                    None => {
                        &&& !p.healthy
                        &&& p.latest_block == o.latest_block
                        &&& p.latency_ms == o.latency_ms
                        &&& p.behind == o.behind
                    },
                }
            },
        decreases n - k,
    {
        let ghost before = *reg;
        match blocks[k] {
            Some(b) => {
                assert(block_of(probes@[k as int]) == Some(b));
                let lat: u64 = match &probes[k].reply {
                    Some(r) => r.1,
                    None => 0,
                };
                reg.record_probe(k, b, lat);
                let ghost mid = *reg;
                let behind = max_block - b;
                reg.set_lag(k, behind, behind <= max_behind);
                assert forall|j: int| 0 <= j < n && j != k implies #[trigger] reg.all_seq()[j] == before.all_seq()[j] by {
                    assert(mid.all_seq()[j] == before.all_seq()[j]);
                }
            },
            None => {
                reg.set_health(k, false);
                assert forall|j: int| 0 <= j < n && j != k implies #[trigger] reg.all_seq()[j] == before.all_seq()[j] by {}
            },
        }
        k = k + 1;
    }
    true
}

} // verus!
