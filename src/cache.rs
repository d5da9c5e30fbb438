use vstd::prelude::*;
use crate::json::{Json, JsonModel};

verus! {

/// A cached response: stored at `inserted_ms`, served while younger than `ttl_ms`.
pub struct CacheEntry {
    pub method: String,
    pub params: String,
    pub value: Json,
    pub inserted_ms: u64,
    pub ttl_ms: u64,
}

pub open spec fn fresh_at(e: CacheEntry, now: u64) -> bool {
    now < e.inserted_ms + e.ttl_ms
}

pub open spec fn keyed(e: CacheEntry, key: (Seq<char>, Seq<char>)) -> bool {
    e.method@ == key.0 && e.params@ == key.1
}

/// Responses by method and canonical params text. Expired entries are removed
/// when a read finds them.
pub struct TtlCache {
    pub entries: Vec<CacheEntry>,
}

pub open spec fn key_view(key: &(String, String)) -> (Seq<char>, Seq<char>) {
    (key.0@, key.1@)
}

pub open spec fn unique_keys(s: Seq<CacheEntry>) -> bool {
    forall|i: int, j: int| 0 <= i < j < s.len()
        ==> !keyed(#[trigger] s[i], (s[j].method@, (#[trigger] s[j]).params@))
}

pub open spec fn stores(s: Seq<CacheEntry>, key: (Seq<char>, Seq<char>)) -> bool {
    exists|i: int| 0 <= i < s.len() && keyed(#[trigger] s[i], key)
}

pub open spec fn pick(s: Seq<CacheEntry>, key: (Seq<char>, Seq<char>)) -> CacheEntry {
    s[choose|i: int| 0 <= i < s.len() && keyed(#[trigger] s[i], key)]
}

proof fn lemma_pick(s: Seq<CacheEntry>, key: (Seq<char>, Seq<char>), i: int)
    requires
        unique_keys(s),
        0 <= i < s.len(),
        keyed(s[i], key),
    ensures
        stores(s, key),
        pick(s, key) == s[i],
{
    let c = choose|j: int| 0 <= j < s.len() && keyed(#[trigger] s[j], key);
    if c < i {
        assert(!keyed(s[c], (s[i].method@, s[i].params@)));
    } else if c > i {
        assert(!keyed(s[i], (s[c].method@, s[c].params@)));
    }
}

/// `post` keeps every key of `pre` but `key`, with the same entry.
pub open spec fn same_elsewhere(pre: Seq<CacheEntry>, post: Seq<CacheEntry>, key: (Seq<char>, Seq<char>)) -> bool {
    forall|k: (Seq<char>, Seq<char>)| k != key ==> (stores(post, k) == stores(pre, k)
        && (stores(pre, k) ==> pick(post, k) == pick(pre, k)))
}

impl TtlCache {
    /// No key is stored twice.
    pub open spec fn wf(self) -> bool {
        unique_keys(self.entries@)
    }

    pub open spec fn holds_key(self, key: (Seq<char>, Seq<char>)) -> bool {
        stores(self.entries@, key)
    }

    /// The entry stored under `key`; meaningful where `holds_key(key)`.
    pub open spec fn entry(self, key: (Seq<char>, Seq<char>)) -> CacheEntry {
        pick(self.entries@, key)
    }

    pub fn new() -> (r: TtlCache)
        ensures
            r.wf(),
            r.entries@.len() == 0,
            forall|k: (Seq<char>, Seq<char>)| !r.holds_key(k),
    {
        TtlCache { entries: Vec::new() }
    }

    fn find(&self, key: &(String, String)) -> (r: Option<usize>)
        requires
            self.wf(),
        ensures
            match r {
                Some(i) => i < self.entries@.len() && keyed(self.entries@[i as int], key_view(key))
                    && self.entry(key_view(key)) == self.entries@[i as int],
                None => !self.holds_key(key_view(key)),
            },
    {
        let mut i: usize = 0;
        while i < self.entries.len()
            invariant
                i <= self.entries@.len(),
                self.wf(),
                forall|j: int| 0 <= j < i ==> !keyed(#[trigger] self.entries@[j], key_view(key)),
            decreases self.entries.len() - i,
        {
            if self.entries[i].method == key.0 && self.entries[i].params == key.1 {
                proof { lemma_pick(self.entries@, key_view(key), i as int); }
                return Some(i);
            }
            i = i + 1;
        }
        None
    }

    /// The value stored under `key` if it is still fresh at `now_ms`. A hit is a
    /// value that was inserted under `key` less than its TTL before `now_ms`.
    pub fn get(&mut self, key: &(String, String), now_ms: u64) -> (r: Option<Json>)
        requires
            old(self).wf(),
        ensures
            final(self).wf(),
            match r {
                Some(v) => old(self).holds_key(key_view(key))
                    && fresh_at(old(self).entry(key_view(key)), now_ms)
                    && v@ == old(self).entry(key_view(key)).value@,
                None => !old(self).holds_key(key_view(key)) || !fresh_at(old(self).entry(key_view(key)), now_ms),
            },
            r is Some ==> *final(self) == *old(self),
            same_elsewhere(old(self).entries@, final(self).entries@, key_view(key)),
    {
        match self.find(key) {
            None => None,
            Some(i) => {
                let e = &self.entries[i];
                let live = now_ms < e.inserted_ms || now_ms - e.inserted_ms < e.ttl_ms;
                if live {
                    Some(e.value.duplicate())
                } else {
                    let ghost pre = self.entries@;
                    self.entries.remove(i);
                    proof { lemma_removed(pre, self.entries@, i as int, key_view(key)); }
                    None
                }
            },
        }
    }

    /// Stores `val` under `key` at `now_ms` for `ttl_ms`, replacing what was there.
    pub fn insert_with_ttl(&mut self, key: (String, String), val: Json, ttl_ms: u64, now_ms: u64)
        requires
            old(self).wf(),
        ensures
            final(self).wf(),
            final(self).holds_key(key_view(&key)),
            final(self).entry(key_view(&key)).value@ == val@,
            final(self).entry(key_view(&key)).inserted_ms == now_ms,
            final(self).entry(key_view(&key)).ttl_ms == ttl_ms,
            same_elsewhere(old(self).entries@, final(self).entries@, key_view(&key)),
    {
        let ghost kv = key_view(&key);
        let found = self.find(&key);
        let ghost pre = self.entries@;
        let (m, p) = key;
        let e = CacheEntry { method: m, params: p, value: val, inserted_ms: now_ms, ttl_ms };
        match found {
            Some(i) => {
                self.entries.set(i, e);
                proof {
                    assert(self.entries@ == pre.update(i as int, self.entries@[i as int]));
                    lemma_replaced(pre, self.entries@, i as int, kv);
                }
            },
            None => {
                self.entries.push(e);
                proof {
                    assert(self.entries@.drop_last() =~= pre);
                    lemma_pushed(pre, self.entries@, kv);
                }
            },
        }
    }
}

proof fn lemma_removed(pre: Seq<CacheEntry>, post: Seq<CacheEntry>, i: int, key: (Seq<char>, Seq<char>))
    requires
        unique_keys(pre),
        0 <= i < pre.len(),
        post == pre.remove(i),
        keyed(pre[i], key),
    ensures
        unique_keys(post),
        same_elsewhere(pre, post, key),
{
    assert forall|a: int, b: int| 0 <= a < b < post.len() implies !keyed(#[trigger] post[a], (post[b].method@, (#[trigger] post[b]).params@)) by {
        let a0 = if a < i { a } else { a + 1 };
        let b0 = if b < i { b } else { b + 1 };
        assert(post[a] == pre[a0] && post[b] == pre[b0]);
    }
    assert forall|k: (Seq<char>, Seq<char>)| k != key implies (stores(post, k) == stores(pre, k)
        && (stores(pre, k) ==> pick(post, k) == pick(pre, k))) by {
        if stores(pre, k) {
            let j = choose|j: int| 0 <= j < pre.len() && keyed(#[trigger] pre[j], k);
            assert(j != i);
            let j1 = if j < i { j } else { j - 1 };
            assert(post[j1] == pre[j]);
            lemma_pick(pre, k, j);
            lemma_pick(post, k, j1);
        }
        if stores(post, k) {
            let j = choose|j: int| 0 <= j < post.len() && keyed(#[trigger] post[j], k);
            let j0 = if j < i { j } else { j + 1 };
            assert(post[j] == pre[j0]);
        }
    }
}

proof fn lemma_replaced(pre: Seq<CacheEntry>, post: Seq<CacheEntry>, i: int, key: (Seq<char>, Seq<char>))
    requires
        unique_keys(pre),
        0 <= i < pre.len(),
        post == pre.update(i, post[i]),
        keyed(pre[i], key),
        keyed(post[i], key),
    ensures
        unique_keys(post),
        same_elsewhere(pre, post, key),
        stores(post, key),
        pick(post, key) == post[i],
{
    assert forall|a: int, b: int| 0 <= a < b < post.len() implies !keyed(#[trigger] post[a], (post[b].method@, (#[trigger] post[b]).params@)) by {
        if a == i {
            assert(!keyed(pre[a], (pre[b].method@, pre[b].params@)));
        } else if b == i {
            assert(!keyed(pre[a], (pre[b].method@, pre[b].params@)));
        }
    }
    lemma_pick(post, key, i);
    assert forall|k: (Seq<char>, Seq<char>)| k != key implies (stores(post, k) == stores(pre, k)
        && (stores(pre, k) ==> pick(post, k) == pick(pre, k))) by {
        if stores(pre, k) {
            let j = choose|j: int| 0 <= j < pre.len() && keyed(#[trigger] pre[j], k);
            assert(j != i);
            assert(post[j] == pre[j]);
            lemma_pick(pre, k, j);
            lemma_pick(post, k, j);
        }
        if stores(post, k) {
            let j = choose|j: int| 0 <= j < post.len() && keyed(#[trigger] post[j], k);
            assert(j != i);
            assert(post[j] == pre[j]);
        }
    }
}

proof fn lemma_pushed(pre: Seq<CacheEntry>, post: Seq<CacheEntry>, key: (Seq<char>, Seq<char>))
    requires
        unique_keys(pre),
        !stores(pre, key),
        post.len() == pre.len() + 1,
        post.drop_last() == pre,
        keyed(post.last(), key),
    ensures
        unique_keys(post),
        same_elsewhere(pre, post, key),
        stores(post, key),
        pick(post, key) == post.last(),
{
    let n = pre.len() as int;
    assert forall|a: int| 0 <= a < n implies #[trigger] post[a] == pre[a] by {
        assert(post.drop_last()[a] == post[a]);
    }
    assert forall|a: int, b: int| 0 <= a < b < post.len() implies !keyed(#[trigger] post[a], (post[b].method@, (#[trigger] post[b]).params@)) by {
        if b == n {
            assert(post[b] == post.last());
            if keyed(post[a], (post[b].method@, post[b].params@)) {
                assert(keyed(pre[a], key));
            }
        }
    }
    lemma_pick(post, key, n);
    assert forall|k: (Seq<char>, Seq<char>)| k != key implies (stores(post, k) == stores(pre, k)
        && (stores(pre, k) ==> pick(post, k) == pick(pre, k))) by {
        if stores(pre, k) {
            let j = choose|j: int| 0 <= j < pre.len() && keyed(#[trigger] pre[j], k);
            lemma_pick(pre, k, j);
            lemma_pick(post, k, j);
        }
        if stores(post, k) {
            let j = choose|j: int| 0 <= j < post.len() && keyed(#[trigger] post[j], k);
            if j == n {
                assert(keyed(post.last(), k));
            }
        }
    }
}

} // verus!
