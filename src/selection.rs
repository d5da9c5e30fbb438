use vstd::prelude::*;
use crate::state::{at_least_one, ProviderRegistry};

verus! {

/// Indices in `[lo, hi)` of the registry whose provider is a candidate at `now`.
pub open spec fn healthy_in(reg: ProviderRegistry, lo: int, hi: int, now: u64) -> Seq<usize>
    decreases hi - lo,
{
    if hi <= lo {
        Seq::empty()
    } else {
        let prev = healthy_in(reg, lo, hi - 1, now);
        if reg.all_seq()[hi - 1].candidate_at(now) { prev.push((hi - 1) as usize) } else { prev }
    }
}

/// The candidates of the primary tier, or of the secondary tier where no primary is one.
pub open spec fn tier_pick(reg: ProviderRegistry, now: u64) -> Seq<usize> {
    let np = reg.primaries@.len() as int;
    let p = healthy_in(reg, 0, np, now);
    if p.len() > 0 { p } else { healthy_in(reg, np, np + reg.secondaries@.len(), now) }
}

pub open spec fn weight_of(reg: ProviderRegistry, i: usize) -> nat {
    at_least_one(reg.all_seq()[i as int].weight) as nat
}

/// Each index repeated as many times as its provider's weight, order kept.
pub open spec fn expand(reg: ProviderRegistry, list: Seq<usize>) -> Seq<usize>
    decreases list.len(),
{
    if list.len() == 0 {
        Seq::empty()
    } else {
        expand(reg, list.drop_last()) + Seq::new(weight_of(reg, list.last()), |k: int| list.last())
    }
}

pub open spec fn latency(reg: ProviderRegistry, i: usize) -> u64 {
    reg.all_seq()[i as int].latency_ms
}

/// The entries of `list` whose latency is below `t`.
pub open spec fn under(reg: ProviderRegistry, list: Seq<usize>, t: u64) -> Seq<usize>
    decreases list.len(),
{
    if list.len() == 0 {
        Seq::empty()
    } else {
        let prev = under(reg, list.drop_last(), t);
        if latency(reg, list.last()) < t { prev.push(list.last()) } else { prev }
    }
}

/// The entries of `list` whose latency is exactly `m`.
pub open spec fn at_latency(reg: ProviderRegistry, list: Seq<usize>, m: u64) -> Seq<usize>
    decreases list.len(),
{
    if list.len() == 0 {
        Seq::empty()
    } else {
        let prev = at_latency(reg, list.drop_last(), m);
        if latency(reg, list.last()) == m { prev.push(list.last()) } else { prev }
    }
}

pub open spec fn min_latency(reg: ProviderRegistry, list: Seq<usize>) -> u64
    decreases list.len(),
{
    if list.len() == 0 {
        u64::MAX
    } else {
        let m = min_latency(reg, list.drop_last());
        let l = latency(reg, list.last());
        if l < m { l } else { m }
    }
}

/// The latency gate: below the threshold where any are, else those tied for the
/// lowest latency; without a threshold, the list as it is.
pub open spec fn gated(reg: ProviderRegistry, list: Seq<usize>, threshold: Option<u64>) -> Seq<usize> {
    match threshold {
        None => list,
        Some(t) => {
            let u = under(reg, list, t);
            if u.len() > 0 {
                u
            } else {
                at_latency(reg, list, min_latency(reg, list))
            }
        },
    }
}

/// What selection hands to the relay: tier preference, weights, latency gate.
pub open spec fn selected(reg: ProviderRegistry, threshold: Option<u64>, now: u64) -> Seq<usize> {
    gated(reg, expand(reg, tier_pick(reg, now)), threshold)
}

pub open spec fn valid_indices(reg: ProviderRegistry, list: Seq<usize>) -> bool {
    forall|k: int| 0 <= k < list.len() ==> (#[trigger] list[k]) < reg.all_seq().len()
}

pub open spec fn all_candidates(reg: ProviderRegistry, list: Seq<usize>, now: u64) -> bool {
    forall|k: int| 0 <= k < list.len() ==> #[trigger] reg.all_seq()[list[k] as int].candidate_at(now)
}

fn healthy_range(reg: &ProviderRegistry, lo: usize, hi: usize, now: u64) -> (r: Vec<usize>)
    requires
        reg.wf(),
        lo <= hi <= reg.all_seq().len(),
    ensures
        r@ == healthy_in(*reg, lo as int, hi as int, now),
        valid_indices(*reg, r@),
        all_candidates(*reg, r@, now),
{
    let mut out: Vec<usize> = Vec::new();
    let mut i: usize = lo;
    while i < hi
        invariant
            lo <= i <= hi <= reg.all_seq().len(),
            out@ == healthy_in(*reg, lo as int, i as int, now),
            valid_indices(*reg, out@),
            all_candidates(*reg, out@, now),
        decreases hi - i,
    {
        if reg.get(i).is_candidate_at(now) {
            out.push(i);
        }
        i = i + 1;
    }
    out
}

proof fn lemma_expand_props(reg: ProviderRegistry, list: Seq<usize>, now: u64)
    requires
        valid_indices(reg, list),
    ensures
        valid_indices(reg, expand(reg, list)),
        all_candidates(reg, list, now) ==> all_candidates(reg, expand(reg, list), now),
    decreases list.len(),
{
    if list.len() > 0 {
        let d = list.drop_last();
        assert(valid_indices(reg, d)) by {
            assert forall|k: int| 0 <= k < d.len() implies (#[trigger] d[k]) < reg.all_seq().len() by {
                assert(d[k] == list[k]);
            }
        }
        if all_candidates(reg, list, now) {
            assert(all_candidates(reg, d, now)) by {
                assert forall|k: int| 0 <= k < d.len() implies #[trigger] reg.all_seq()[d[k] as int].candidate_at(now) by {
                    assert(d[k] == list[k]);
                }
            }
        }
        lemma_expand_props(reg, d, now);
        assert(list.last() == list[list.len() - 1]);
    }
}

/// Each candidate repeated `weight` times, in order.
pub fn apply_weights(reg: &ProviderRegistry, list: Vec<usize>) -> (r: Vec<usize>)
    requires
        reg.wf(),
        valid_indices(*reg, list@),
    ensures
        r@ == expand(*reg, list@),
{
    let mut out: Vec<usize> = Vec::new();
    let mut i: usize = 0;
    assert(list@.take(0) =~= Seq::<usize>::empty());
    while i < list.len()
        invariant
            i <= list@.len(),
            valid_indices(*reg, list@),
            reg.wf(),
            out@ == expand(*reg, list@.take(i as int)),
        decreases list.len() - i,
    {
        let p = list[i];
        let w = reg.get(p).get_weight();
        let ghost before = out@;
        assert(list@.take(i + 1).drop_last() =~= list@.take(i as int));
        assert(list@.take(i + 1).last() == p);
        let mut k: u32 = 0;
        while k < w
            invariant
                k <= w,
                out@ == before + Seq::new(k as nat, |j: int| p),
            decreases w - k,
        {
            out.push(p);
            assert(out@ =~= before + Seq::new((k + 1) as nat, |j: int| p));
            k = k + 1;
        }
        i = i + 1;
    }
    assert(list@.take(list@.len() as int) =~= list@);
    out
}

/// The candidates at epoch second `now`, weight-expanded: the healthy, unbanned
/// primaries, or the secondaries where no primary qualifies.
pub fn healthy_candidates(reg: &ProviderRegistry, now: u64) -> (r: Vec<usize>)
    requires
        reg.wf(),
    ensures
        r@ == expand(*reg, tier_pick(*reg, now)),
        valid_indices(*reg, r@),
        all_candidates(*reg, r@, now),
{
    let np = reg.primaries.len();
    let n = reg.len();
    let prim = healthy_range(reg, 0, np, now);
    let pick = if prim.len() > 0 { prim } else { healthy_range(reg, np, n, now) };
    proof { lemma_expand_props(*reg, pick@, now); }
    apply_weights(reg, pick)
}

proof fn lemma_gate_subset(reg: ProviderRegistry, list: Seq<usize>, t: u64, m: u64)
    ensures
        forall|k: int| 0 <= k < under(reg, list, t).len() ==> list.contains(#[trigger] under(reg, list, t)[k]),
        forall|k: int| 0 <= k < at_latency(reg, list, m).len() ==> list.contains(#[trigger] at_latency(reg, list, m)[k]),
    decreases list.len(),
{
    if list.len() > 0 {
        let d = list.drop_last();
        lemma_gate_subset(reg, d, t, m);
        assert forall|x: usize| d.contains(x) implies list.contains(x) by {
            let k = choose|k: int| 0 <= k < d.len() && d[k] == x;
            assert(list[k] == x);
        }
        assert(list[list.len() - 1] == list.last());
        let u = under(reg, list, t);
        let pu = under(reg, d, t);
        assert forall|k: int| 0 <= k < u.len() implies list.contains(#[trigger] u[k]) by {
            if k < pu.len() { assert(u[k] == pu[k]); assert(d.contains(pu[k])); }
        }
        let a = at_latency(reg, list, m);
        let pa = at_latency(reg, d, m);
        assert forall|k: int| 0 <= k < a.len() implies list.contains(#[trigger] a[k]) by {
            if k < pa.len() { assert(a[k] == pa[k]); assert(d.contains(pa[k])); }
        }
    }
}

/// The latency gate over a candidate list.
pub fn filter_latency(reg: &ProviderRegistry, list: Vec<usize>, threshold_ms: Option<u64>) -> (r: Vec<usize>)
    requires
        reg.wf(),
        valid_indices(*reg, list@),
    ensures
        r@ == gated(*reg, list@, threshold_ms),
        forall|k: int| 0 <= k < r@.len() ==> list@.contains(#[trigger] r@[k]),
{
    match threshold_ms {
        None => list,
        Some(th) => {
            let mut below: Vec<usize> = Vec::new();
            let mut m: u64 = u64::MAX;
            let mut i: usize = 0;
            assert(list@.take(0) =~= Seq::<usize>::empty());
            while i < list.len()
                invariant
                    i <= list@.len(),
                    reg.wf(),
                    valid_indices(*reg, list@),
                    below@ == under(*reg, list@.take(i as int), th),
                    m == min_latency(*reg, list@.take(i as int)),
                decreases list.len() - i,
            {
                assert(list@.take(i + 1).drop_last() =~= list@.take(i as int));
                assert(list@.take(i + 1).last() == list@[i as int]);
                let l = reg.get(list[i]).get_latency();
                if l < th {
                    below.push(list[i]);
                }
                if l < m {
                    m = l;
                }
                i = i + 1;
            }
            assert(list@.take(list@.len() as int) =~= list@);
            proof { lemma_gate_subset(*reg, list@, th, m); }
            if below.len() > 0 {
                return below;
            }
            let mut tied: Vec<usize> = Vec::new();
            let mut j: usize = 0;
            while j < list.len()
                invariant
                    j <= list@.len(),
                    reg.wf(),
                    valid_indices(*reg, list@),
                    tied@ == at_latency(*reg, list@.take(j as int), m),
                decreases list.len() - j,
            {
                assert(list@.take(j + 1).drop_last() =~= list@.take(j as int));
                assert(list@.take(j + 1).last() == list@[j as int]);
                if reg.get(list[j]).get_latency() == m {
                    tied.push(list[j]);
                }
                j = j + 1;
            }
            tied
        },
    }
}

/// The ordered candidate list for one request at epoch second `now`. Every entry
/// names a provider that is healthy and not banned at `now`.
pub fn select(reg: &ProviderRegistry, threshold_ms: Option<u64>, now: u64) -> (r: Vec<usize>)
    requires
        reg.wf(),
    ensures
        r@ == selected(*reg, threshold_ms, now),
        valid_indices(*reg, r@),
        all_candidates(*reg, r@, now),
{
    let cands = healthy_candidates(reg, now);
    let ghost c = cands@;
    let r = filter_latency(reg, cands, threshold_ms);
    assert forall|k: int| 0 <= k < r@.len() implies #[trigger] reg.all_seq()[r@[k] as int].candidate_at(now) && r@[k] < reg.all_seq().len() by {
        assert(c.contains(r@[k]));
    }
    r
}

pub open spec fn url_at(reg: ProviderRegistry, i: usize) -> Seq<char> {
    reg.all_seq()[i as int].url@
}

/// Some entry of `r` has the URL of provider `x`.
pub open spec fn covers(reg: ProviderRegistry, r: Seq<usize>, x: usize) -> bool {
    exists|j: int| 0 <= j < r.len() && url_at(reg, r[j]) == url_at(reg, x)
}

/// The broadcast order of `list`: one entry per URL, by ascending latency.
pub open spec fn broadcast_order(reg: ProviderRegistry, list: Seq<usize>, r: Seq<usize>) -> bool {
    &&& forall|k: int| 0 <= k < r.len() ==> list.contains(#[trigger] r[k])
    &&& by_latency(reg, r)
    &&& distinct_urls(reg, r)
    &&& forall|k: int| 0 <= k < list.len() ==> covers(reg, r, #[trigger] list[k])
}

pub open spec fn by_latency(reg: ProviderRegistry, s: Seq<usize>) -> bool {
    forall|a: int, b: int| 0 <= a < b < s.len() ==> latency(reg, #[trigger] s[a]) <= latency(reg, #[trigger] s[b])
}

pub open spec fn distinct_urls(reg: ProviderRegistry, s: Seq<usize>) -> bool {
    forall|a: int, b: int| 0 <= a < b < s.len() ==> url_at(reg, #[trigger] s[a]) != url_at(reg, #[trigger] s[b])
}

fn url_listed(reg: &ProviderRegistry, out: &Vec<usize>, x: usize) -> (r: bool)
    requires
        reg.wf(),
        valid_indices(*reg, out@),
        x < reg.all_seq().len(),
    ensures
        r == covers(*reg, out@, x),
{
    let mut j: usize = 0;
    while j < out.len()
        invariant
            j <= out@.len(),
            valid_indices(*reg, out@),
            x < reg.all_seq().len(),
            forall|m: int| 0 <= m < j ==> url_at(*reg, #[trigger] out@[m]) != url_at(*reg, x),
        decreases out.len() - j,
    {
        if reg.get(out[j]).url == reg.get(x).url {
            return true;
        }
        j = j + 1;
    }
    false
}

fn insert_by_latency(reg: &ProviderRegistry, out: &mut Vec<usize>, x: usize)
    requires
        reg.wf(),
        valid_indices(*reg, old(out)@),
        x < reg.all_seq().len(),
        by_latency(*reg, old(out)@),
        distinct_urls(*reg, old(out)@),
        forall|m: int| 0 <= m < old(out)@.len() ==> url_at(*reg, #[trigger] old(out)@[m]) != url_at(*reg, x),
    ensures
        valid_indices(*reg, final(out)@),
        by_latency(*reg, final(out)@),
        distinct_urls(*reg, final(out)@),
        final(out)@.contains(x),
        forall|k: int| 0 <= k < final(out)@.len() ==> #[trigger] final(out)@[k] == x || old(out)@.contains(final(out)@[k]),
        forall|k: int| 0 <= k < old(out)@.len() ==> final(out)@.contains(#[trigger] old(out)@[k]),
{
    let lx = reg.get(x).get_latency();
    let mut pos: usize = 0;
    while pos < out.len() && reg.get(out[pos]).get_latency() <= lx
        invariant
            pos <= out@.len(),
            valid_indices(*reg, out@),
            lx == latency(*reg, x),
            forall|m: int| 0 <= m < pos ==> latency(*reg, #[trigger] out@[m]) <= lx,
        decreases out.len() - pos,
    {
        pos = pos + 1;
    }
    let ghost before = out@;
    assert forall|m: int| pos <= m < before.len() implies latency(*reg, #[trigger] before[m]) > lx by {
        assert(latency(*reg, before[pos as int]) > lx);
        if m > pos {
            assert(latency(*reg, before[pos as int]) <= latency(*reg, before[m]));
        }
    }
    out.insert(pos, x);
    assert forall|m: int| 0 <= m < out@.len() implies #[trigger] out@[m] == (if m < pos { before[m] } else if m == pos { x } else { before[m - 1] }) by {}
    assert(out@[pos as int] == x);
    assert forall|a: int, b: int| 0 <= a < b < out@.len() implies latency(*reg, #[trigger] out@[a]) <= latency(*reg, #[trigger] out@[b]) by {
        if a < pos && b > pos { assert(latency(*reg, before[a]) <= lx); }
    }
    assert forall|k: int| 0 <= k < out@.len() implies #[trigger] out@[k] == x || before.contains(out@[k]) by {
        if k < pos { assert(before[k] == out@[k]); } else if k > pos { assert(before[k - 1] == out@[k]); }
    }
    assert forall|k: int| 0 <= k < before.len() implies out@.contains(#[trigger] before[k]) by {
        if k < pos { assert(out@[k] == before[k]); } else { assert(out@[k + 1] == before[k]); }
    }
}

/// One entry per URL, ordered by ascending latency.
pub fn unique_by_low_latency(reg: &ProviderRegistry, list: Vec<usize>) -> (r: Vec<usize>)
    requires
        reg.wf(),
        valid_indices(*reg, list@),
    ensures
        broadcast_order(*reg, list@, r@),
        valid_indices(*reg, r@),
{
    let mut out: Vec<usize> = Vec::new();
    let mut i: usize = 0;
    while i < list.len()
        invariant
            i <= list@.len(),
            reg.wf(),
            valid_indices(*reg, list@),
            valid_indices(*reg, out@),
            by_latency(*reg, out@),
            distinct_urls(*reg, out@),
            forall|k: int| 0 <= k < out@.len() ==> list@.contains(#[trigger] out@[k]),
            forall|k: int| 0 <= k < i ==> covers(*reg, out@, #[trigger] list@[k]),
        decreases list.len() - i,
    {
        let x = list[i];
        let listed = url_listed(reg, &out, x);
        if listed {
            assert forall|k: int| 0 <= k < i + 1 implies covers(*reg, out@, #[trigger] list@[k]) by {
                if k == i {
                    assert(list@[k] == x);
                }
            }
        } else {
            let ghost before = out@;
            insert_by_latency(reg, &mut out, x);
            assert(list@.contains(x)) by { assert(list@[i as int] == x); }
            assert forall|k: int| 0 <= k < out@.len() implies list@.contains(#[trigger] out@[k]) by {
                if out@[k] != x { assert(before.contains(out@[k])); }
            }
            assert forall|k: int| 0 <= k < i + 1 implies covers(*reg, out@, #[trigger] list@[k]) by {
                if k < i {
                    assert(covers(*reg, before, list@[k]));
                    let j0 = choose|j: int| 0 <= j < before.len() && url_at(*reg, before[j]) == url_at(*reg, list@[k]);
                    assert(out@.contains(before[j0]));
                    let j1 = choose|j: int| 0 <= j < out@.len() && out@[j] == before[j0];
                    assert(url_at(*reg, out@[j1]) == url_at(*reg, list@[k]));
                } else {
                    assert(out@.contains(x));
                    let j1 = choose|j: int| 0 <= j < out@.len() && out@[j] == x;
                    assert(list@[k] == x);
                    assert(url_at(*reg, out@[j1]) == url_at(*reg, list@[k]));
                }
            }
        }
        i = i + 1;
    }
    assert(i == list@.len());
    assert forall|k: int| 0 <= k < list@.len() implies covers(*reg, out@, #[trigger] list@[k]) by {
        assert(k < i);
    }
    out
}

proof fn lemma_healthy_in_range(reg: ProviderRegistry, lo: int, hi: int, now: u64)
    requires
        0 <= lo,
        hi <= usize::MAX,
    ensures
        forall|k: int| 0 <= k < healthy_in(reg, lo, hi, now).len() ==>
            lo <= #[trigger] healthy_in(reg, lo, hi, now)[k] < hi,
        (exists|i: int| lo <= i < hi && #[trigger] reg.all_seq()[i].candidate_at(now))
            ==> healthy_in(reg, lo, hi, now).len() > 0,
    decreases hi - lo,
{
    if hi > lo {
        lemma_healthy_in_range(reg, lo, hi - 1, now);
        let prev = healthy_in(reg, lo, hi - 1, now);
        assert forall|k: int| 0 <= k < healthy_in(reg, lo, hi, now).len() implies
            lo <= #[trigger] healthy_in(reg, lo, hi, now)[k] < hi by {
            if k < prev.len() {
                assert(healthy_in(reg, lo, hi, now)[k] == prev[k]);
            }
        }
        if exists|i: int| lo <= i < hi && #[trigger] reg.all_seq()[i].candidate_at(now) {
            let i = choose|i: int| lo <= i < hi && #[trigger] reg.all_seq()[i].candidate_at(now);
            if i < hi - 1 {
                assert(prev.len() > 0);
            }
        }
    }
}

/// Tier preference: while any primary is a candidate, only primaries are picked;
/// otherwise exactly the candidate secondaries are, in tier order.
pub proof fn lemma_tier_preference(reg: ProviderRegistry, now: u64)
    requires
        reg.wf(),
    ensures
        (exists|i: int| 0 <= i < reg.primaries@.len() && #[trigger] reg.all_seq()[i].candidate_at(now)) ==>
            forall|k: int| 0 <= k < tier_pick(reg, now).len() ==> #[trigger] tier_pick(reg, now)[k] < reg.primaries@.len(),
        !(exists|i: int| 0 <= i < reg.primaries@.len() && #[trigger] reg.all_seq()[i].candidate_at(now)) ==>
            tier_pick(reg, now) == healthy_in(reg, reg.primaries@.len() as int, reg.all_seq().len() as int, now),
{
    let np = reg.primaries@.len() as int;
    lemma_healthy_in_range(reg, 0, np, now);
    if !(exists|i: int| 0 <= i < np && #[trigger] reg.all_seq()[i].candidate_at(now)) {
        lemma_no_healthy(reg, 0, np, now);
    }
}

proof fn lemma_no_healthy(reg: ProviderRegistry, lo: int, hi: int, now: u64)
    requires
        !(exists|i: int| lo <= i < hi && #[trigger] reg.all_seq()[i].candidate_at(now)),
    ensures
        healthy_in(reg, lo, hi, now).len() == 0,
    decreases hi - lo,
{
    if hi > lo {
        lemma_no_healthy(reg, lo, hi - 1, now);
        assert(!reg.all_seq()[hi - 1].candidate_at(now));
    }
}

} // verus!
