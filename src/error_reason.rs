use vstd::prelude::*;

verus! {

/// The class of a provider's most recent failure.
#[derive(Clone, Copy, Debug, PartialEq, Eq, Structural)]
pub enum ErrorReason {
    Unset,
    RpcError,
    BadJson,
    HttpError,
    Timeout,
}

pub open spec fn label(r: ErrorReason) -> Seq<char> {
    match r {
        ErrorReason::Unset => "none"@,
        ErrorReason::RpcError => "rpc_error"@,
        ErrorReason::BadJson => "bad_json"@,
        ErrorReason::HttpError => "http_error"@,
        ErrorReason::Timeout => "timeout"@,
    }
}

impl ErrorReason {
    /// The label shown on the status surface.
    pub fn as_str(&self) -> (r: &'static str)
        ensures
            r@ == label(*self),
    {
        match self {
            ErrorReason::Unset => "none",
            ErrorReason::RpcError => "rpc_error",
            ErrorReason::BadJson => "bad_json",
            ErrorReason::HttpError => "http_error",
            ErrorReason::Timeout => "timeout",
        }
    }
}

/// Provider URL to the class of its last failure. Success never clears an entry.
pub struct LastErrors {
    pub entries: Vec<(String, ErrorReason)>,
}

impl LastErrors {
    /// No URL is listed twice.
    pub open spec fn wf(self) -> bool {
        forall|i: int, j: int|
            0 <= i < self.entries@.len() && 0 <= j < self.entries@.len() && i != j
                ==> (#[trigger] self.entries@[i]).0@ != (#[trigger] self.entries@[j]).0@
    }

    pub open spec fn lists(self, url: Seq<char>) -> bool {
        exists|i: int| 0 <= i < self.entries@.len() && (#[trigger] self.entries@[i]).0@ == url
    }

    /// The recorded class for `url`, `None` where nothing is recorded.
    pub open spec fn reason_of(self, url: Seq<char>) -> ErrorReason {
        if self.lists(url) {
            self.entries@[choose|i: int| 0 <= i < self.entries@.len() && (#[trigger] self.entries@[i]).0@ == url].1
        } else {
            ErrorReason::Unset
        }
    }

    pub fn new() -> (r: LastErrors)
        ensures
            r.wf(),
            r.entries@.len() == 0,
            forall|u: Seq<char>| r.reason_of(u) == ErrorReason::Unset,
    {
        LastErrors { entries: Vec::new() }
    }

    fn find(&self, url: &String) -> (r: Option<usize>)
        ensures
            match r {
                Some(i) => i < self.entries@.len() && self.entries@[i as int].0@ == url@,
                None => !self.lists(url@),
            },
    {
        let mut i: usize = 0;
        while i < self.entries.len()
            invariant
                i <= self.entries@.len(),
                forall|j: int| 0 <= j < i ==> (#[trigger] self.entries@[j]).0@ != url@,
            decreases self.entries.len() - i,
        {
            if self.entries[i].0 == *url {
                return Some(i);
            }
            i = i + 1;
        }
        None
    }
}

/// Records `reason` as the last failure class of `url`.
pub fn set_last_error(reg: &mut LastErrors, url: &String, reason: ErrorReason)
    requires
        old(reg).wf(),
    ensures
        final(reg).wf(),
        final(reg).reason_of(url@) == reason,
        forall|u: Seq<char>| u != url@ ==> final(reg).reason_of(u) == old(reg).reason_of(u),
{
    let ghost pre = reg.entries@;
    match reg.find(url) {
        Some(i) => {
            reg.entries.set(i, (url.clone(), reason));
            assert(reg.entries@[i as int].0@ == url@);
            assert forall|u: Seq<char>| u != url@ implies #[trigger] reg.reason_of(u) == old(reg).reason_of(u) by {
                if old(reg).lists(u) {
                    let k = choose|k: int| 0 <= k < pre.len() && (#[trigger] pre[k]).0@ == u;
                    assert(reg.entries@[k].0@ == u);
                    assert(reg.lists(u));
                } else {
                    assert forall|k: int| 0 <= k < reg.entries@.len() implies (#[trigger] reg.entries@[k]).0@ != u by {
                        if k != i { assert(reg.entries@[k] == pre[k]); }
                    }
                }
            }
        },
        None => {
            reg.entries.push((url.clone(), reason));
            let ghost n = pre.len() as int;
            assert(reg.entries@[n].0@ == url@);
            assert forall|u: Seq<char>| u != url@ implies #[trigger] reg.reason_of(u) == old(reg).reason_of(u) by {
                if old(reg).lists(u) {
                    let k = choose|k: int| 0 <= k < pre.len() && (#[trigger] pre[k]).0@ == u;
                    assert(reg.entries@[k] == pre[k]);
                    assert(reg.lists(u));
                } else {
                    assert forall|k: int| 0 <= k < reg.entries@.len() implies (#[trigger] reg.entries@[k]).0@ != u by {
                        if k < n { assert(reg.entries@[k] == pre[k]); }
                    }
                }
            }
        },
    }
}

/// The last failure class recorded for `url`, `ErrorReason::Unset` if none was.
pub fn get_last_error(reg: &LastErrors, url: &String) -> (r: ErrorReason)
    requires
        reg.wf(),
    ensures
        r == reg.reason_of(url@),
{
    match reg.find(url) {
        Some(i) => reg.entries[i].1,
        None => ErrorReason::Unset,
    }
}

pub open spec fn listed(urls: Seq<String>, u: Seq<char>) -> bool {
    exists|i: int| 0 <= i < urls.len() && (#[trigger] urls[i])@ == u
}

fn is_listed(urls: &Vec<String>, u: &String) -> (r: bool)
    ensures
        r == listed(urls@, u@),
{
    let mut i: usize = 0;
    while i < urls.len()
        invariant
            i <= urls@.len(),
            forall|j: int| 0 <= j < i ==> (#[trigger] urls@[j])@ != u@,
        decreases urls.len() - i,
    {
        if urls[i] == *u {
            assert(urls@[i as int]@ == u@);
            return true;
        }
        i = i + 1;
    }
    false
}

/// Forgets the providers that are gone: entries of URLs not in `urls` are dropped.
pub fn retain_last_errors(reg: &mut LastErrors, urls: &Vec<String>)
    requires
        old(reg).wf(),
    ensures
        final(reg).wf(),
        forall|u: Seq<char>| #[trigger] listed(urls@, u) ==> final(reg).reason_of(u) == old(reg).reason_of(u),
        forall|u: Seq<char>| !#[trigger] listed(urls@, u) ==> final(reg).reason_of(u) == ErrorReason::Unset,
{
    let ghost e = reg.entries@;
    let mut out: Vec<(String, ErrorReason)> = Vec::new();
    let ghost mut idx: Seq<int> = Seq::empty();
    let mut i: usize = 0;
    while i < reg.entries.len()
        invariant
            reg.entries@ == e,
            old(reg).entries@ == e,
            old(reg).wf(),
            i <= e.len(),
            idx.len() == out@.len(),
            forall|j: int| 0 <= j < idx.len() ==> 0 <= #[trigger] idx[j] < i,
            forall|j: int, l: int| 0 <= j < l < idx.len() ==> #[trigger] idx[j] < #[trigger] idx[l],
            forall|j: int| 0 <= j < out@.len() ==> (#[trigger] out@[j]).0@ == e[idx[j]].0@ && out@[j].1 == e[idx[j]].1
                && listed(urls@, out@[j].0@),
            forall|m: int| 0 <= m < i && #[trigger] listed(urls@, e[m].0@) ==>
                exists|j: int| 0 <= j < idx.len() && idx[j] == m,
        decreases e.len() - i,
    {
        let keep = is_listed(urls, &reg.entries[i].0);
        let ghost idx0 = idx;
        if keep {
            let k = reg.entries[i].0.clone();
            out.push((k, reg.entries[i].1));
            proof {
                idx = idx.push(i as int);
                assert(idx[idx.len() - 1] == i as int);
            }
        }
        proof {
            assert forall|m: int| 0 <= m < i + 1 && #[trigger] listed(urls@, e[m].0@) implies
                exists|j: int| 0 <= j < idx.len() && idx[j] == m by {
                if m < i {
                    let j = choose|j: int| 0 <= j < idx0.len() && idx0[j] == m;
                    assert(idx[j] == idx0[j]);
                } else {
                    assert(idx[idx.len() - 1] == m);
                }
            }
        }
        i = i + 1;
    }
    let ghost pre = *old(reg);
    reg.entries = out;
    assert(reg.wf()) by {
        assert forall|a: int, b: int| 0 <= a < reg.entries@.len() && 0 <= b < reg.entries@.len() && a != b
            implies (#[trigger] reg.entries@[a]).0@ != (#[trigger] reg.entries@[b]).0@ by {
            assert(idx[a] != idx[b]);
            assert(e[idx[a]].0@ != e[idx[b]].0@);
        }
    }
    assert forall|u: Seq<char>| #[trigger] listed(urls@, u) implies reg.reason_of(u) == pre.reason_of(u) by {
        if pre.lists(u) {
            let m = choose|m: int| 0 <= m < e.len() && (#[trigger] e[m]).0@ == u;
            assert(listed(urls@, e[m].0@));
            let j = choose|j: int| 0 <= j < idx.len() && idx[j] == m;
            assert(reg.entries@[j].0@ == u);
            assert(reg.lists(u));
            let c = choose|c: int| 0 <= c < reg.entries@.len() && (#[trigger] reg.entries@[c]).0@ == u;
            assert(c == j);
            let c0 = choose|c: int| 0 <= c < e.len() && (#[trigger] e[c]).0@ == u;
            assert(c0 == m);
        } else {
            assert forall|j: int| 0 <= j < reg.entries@.len() implies (#[trigger] reg.entries@[j]).0@ != u by {
                assert(e[idx[j]].0@ == reg.entries@[j].0@);
            }
        }
    }
    assert forall|u: Seq<char>| !#[trigger] listed(urls@, u) implies reg.reason_of(u) == ErrorReason::Unset by {
        assert forall|j: int| 0 <= j < reg.entries@.len() implies (#[trigger] reg.entries@[j]).0@ != u by {}
    }
}

} // verus!
