//! Hot-tier cache: a least-recently-used store of frames under string keys,
//! with hit and miss counters.
use vstd::prelude::*;

use crate::frame::{Frame, FrameV};
use crate::storage_stats::StorageStats;

verus! {

/// One cache entry.
pub struct CacheEntry {
    pub key: String,
    pub frame: Frame,
}

/// The mathematical value of a `CacheEntry`.
pub struct EntryV {
    pub key: Seq<char>,
    pub frame: FrameV,
}

impl View for CacheEntry {
    type V = EntryV;

    open spec fn view(&self) -> EntryV {
        EntryV { key: self.key@, frame: self.frame@ }
    }
}

impl DeepView for CacheEntry {
    type V = EntryV;

    open spec fn deep_view(&self) -> EntryV {
        self.view()
    }
}

/// Index of the first entry at or after `from` with the given key, or -1.
pub open spec fn find_key_from(s: Seq<EntryV>, key: Seq<char>, from: int) -> int
    decreases s.len() - from,
{
    if from < 0 || from >= s.len() {
        -1
    } else if s[from].key == key {
        from
    } else {
        find_key_from(s, key, from + 1)
    }
}

/// Index of the first entry with the given key, or -1 when absent.
pub open spec fn find_key(s: Seq<EntryV>, key: Seq<char>) -> int {
    find_key_from(s, key, 0)
}

/// All entry keys are pairwise distinct.
pub open spec fn keys_distinct(s: Seq<EntryV>) -> bool {
    forall|i: int, j: int| 0 <= i < j < s.len() ==> s[i].key != s[j].key
}

/// What storing a key does to the recency order: an existing entry is
/// replaced and promoted; at capacity the least-recent entry is evicted;
/// the stored entry becomes the most recent one.
pub open spec fn store_spec(s: Seq<EntryV>, cap: nat, key: Seq<char>, f: FrameV) -> Seq<EntryV> {
    let idx = find_key(s, key);
    let base = if idx >= 0 {
        s.remove(idx)
    } else if s.len() >= cap {
        s.drop_first()
    } else {
        s
    };
    base.push(EntryV { key, frame: f })
}

/// What a hit does to the recency order: the entry moves to the front of
/// recency (the end of the run).
pub open spec fn promote_spec(s: Seq<EntryV>, idx: int) -> Seq<EntryV> {
    s.remove(idx).push(s[idx])
}

/// The hot tier: entries ordered least-recent first, a fixed capacity in
/// entries, and hit/miss counters.
pub struct CacheBackend {
    pub entries: Vec<CacheEntry>,
    pub capacity: usize,
    pub hits: u64,
    pub misses: u64,
}

impl CacheBackend {
    pub open spec fn view_entries(self) -> Seq<EntryV> {
        self.entries.deep_view()
    }

    /// Cache invariant: distinct keys, within capacity, frames well-formed.
    pub open spec fn wf(self) -> bool {
        &&& keys_distinct(self.view_entries())
        &&& self.view_entries().len() <= self.capacity
        &&& self.capacity >= 1
        &&& forall|i: int|
            0 <= i < self.view_entries().len() ==> (#[trigger] self.view_entries()[i]).frame.wf()
    }

    /// A cache bounded by a number of entries.
    pub fn new(capacity: usize) -> (r: CacheBackend)
        requires
            capacity >= 1,
        ensures
            r.wf(),
            r.view_entries().len() == 0,
            r.capacity == capacity,
            r.hits == 0,
            r.misses == 0,
    {
        CacheBackend { entries: Vec::new(), capacity, hits: 0, misses: 0 }
    }

    /// A cache sized from a memory budget in megabytes, at the documented
    /// rule of ten megabytes per entry, never below one entry.
    pub fn from_size_mb(size_mb: u64) -> (r: CacheBackend)
        ensures
            r.wf(),
            r.view_entries().len() == 0,
            r.capacity as int == if size_mb / 10 >= 1 {
                if size_mb / 10 <= usize::MAX {
                    (size_mb / 10) as int
                } else {
                    usize::MAX as int
                }
            } else {
                1
            },
            r.hits == 0,
            r.misses == 0,
    {
        let per_entry: u64 = size_mb / 10;
        let cap: usize = if per_entry >= 1 {
            if per_entry <= usize::MAX as u64 {
                per_entry as usize
            } else {
                usize::MAX
            }
        } else {
            1
        };
        CacheBackend::new(cap)
    }

    pub fn len(&self) -> (r: usize)
        ensures
            r as nat == self.view_entries().len(),
    {
        self.entries.len()
    }

    pub fn is_empty(&self) -> (r: bool)
        ensures
            r == (self.view_entries().len() == 0),
    {
        self.entries.len() == 0
    }

    /// Drops every entry; the counters stay.
    pub fn clear(&mut self)
        ensures
            final(self).view_entries().len() == 0,
            final(self).capacity == old(self).capacity,
            final(self).hits == old(self).hits,
            final(self).misses == old(self).misses,
    {
        self.entries = Vec::new();
    }

    /// Index of the entry holding `key`, if any.
    #[verifier::loop_isolation(false)]
    fn find_entry(&self, key: &String) -> (r: Option<usize>)
        ensures
            match r {
                Some(i) => find_key(self.view_entries(), key@) == i as int,
                None => find_key(self.view_entries(), key@) == -1,
            },
    {
        let mut i: usize = 0;
        while i < self.entries.len()
            invariant
                0 <= i <= self.view_entries().len(),
                find_key_from(self.view_entries(), key@, 0) == find_key_from(
                    self.view_entries(),
                    key@,
                    i as int,
                ),
            decreases self.entries.len() - i,
        {
            if self.entries[i].key == *key {
                return Some(i);
            }
            i += 1;
        }
        None
    }
}

impl CacheBackend {
    /// Inserts under `key`, replacing and promoting an existing entry, and
    /// evicting the least-recently-used entry when the cache is full.
    #[verifier::loop_isolation(false)]
    pub fn store(&mut self, key: &String, frame: Frame)
        requires
            old(self).wf(),
            frame.wf(),
        ensures
            final(self).wf(),
            final(self).view_entries() == store_spec(
                old(self).view_entries(),
                old(self).capacity as nat,
                key@,
                frame@,
            ),
            final(self).capacity == old(self).capacity,
            final(self).hits == old(self).hits,
            final(self).misses == old(self).misses,
    {
        let ghost pre = self.view_entries();
        let ghost cap = self.capacity as nat;
        proof {
            lemma_find_key_spec(pre, key@);
        }
        let ghost idx = find_key(pre, key@);
        let ghost base: Seq<EntryV> = if idx >= 0 {
            pre.remove(idx)
        } else if pre.len() >= cap {
            pre.drop_first()
        } else {
            pre
        };
        match self.find_entry(key) {
            Some(i) => {
                let ghost snap = self.entries@;
                self.entries.remove(i);
                proof {
                    assert forall|t: int|
                        0 <= t < self.entries@.len() implies #[trigger] self.entries@[t]@
                        == base[t] by {
                        if t < idx {
                            assert(self.entries@[t] == snap[t]);
                        } else {
                            assert(self.entries@[t] == snap[t + 1]);
                        }
                    }
                }
            },
            None => {
                if self.entries.len() >= self.capacity {
                    let ghost snap = self.entries@;
                    self.entries.remove(0);
                    proof {
                        assert forall|t: int|
                            0 <= t < self.entries@.len() implies #[trigger] self.entries@[t]@
                            == base[t] by {
                            assert(self.entries@[t] == snap[t + 1]);
                        }
                    }
                }
            },
        }
        proof {
            assert(self.view_entries() =~= base);
        }
        let ghost mid = self.view_entries();
        self.entries.push(CacheEntry { key: key.clone(), frame });
        proof {
            assert(self.view_entries() =~= base.push(EntryV { key: key@, frame: frame@ }));
            assert(self.view_entries() =~= store_spec(pre, cap, key@, frame@));
            lemma_store_spec_wf(pre, cap, key@, frame@);
        }
    }

    /// Looks `key` up: a hit hands back the frame and promotes the entry to
    /// most-recent, counting a hit; a miss only counts a miss.
    pub fn load(&mut self, key: &String) -> (r: Option<Frame>)
        requires
            old(self).wf(),
        ensures
            final(self).wf(),
            final(self).capacity == old(self).capacity,
            find_key(old(self).view_entries(), key@) == -1 ==> {
                &&& r is None
                &&& final(self).view_entries() == old(self).view_entries()
                &&& final(self).misses == bump(old(self).misses)
                &&& final(self).hits == old(self).hits
            },
            find_key(old(self).view_entries(), key@) >= 0 ==> {
                let idx = find_key(old(self).view_entries(), key@);
                &&& (r matches Some(f) && f@ == old(self).view_entries()[idx].frame && f.wf())
                &&& final(self).view_entries() == promote_spec(old(self).view_entries(), idx)
                &&& final(self).hits == bump(old(self).hits)
                &&& final(self).misses == old(self).misses
            },
    {
        let ghost pre = self.view_entries();
        proof {
            lemma_find_key_spec(pre, key@);
        }
        match self.find_entry(key) {
            None => {
                if self.misses < u64::MAX {
                    self.misses = self.misses + 1;
                }
                None
            },
            Some(i) => {
                let ghost idx = i as int;
                let ghost snap = self.entries@;
                let entry = self.entries.remove(i);
                let out = entry.frame.duplicate();
                self.entries.push(entry);
                if self.hits < u64::MAX {
                    self.hits = self.hits + 1;
                }
                proof {
                    assert forall|t: int|
                        0 <= t < self.entries@.len() implies #[trigger] self.entries@[t]@
                        == promote_spec(pre, idx)[t] by {
                        if t < self.entries@.len() - 1 {
                            if t < idx {
                                assert(self.entries@[t] == snap[t]);
                            } else {
                                assert(self.entries@[t] == snap[t + 1]);
                            }
                        }
                    }
                    assert(self.view_entries() =~= promote_spec(pre, idx));
                    lemma_promote_spec_wf(pre, idx);
                    assert(self.view_entries().len() <= self.capacity);
                }
                Some(out)
            },
        }
    }

    /// The cached keys, least-recently used first.
    #[verifier::loop_isolation(false)]
    pub fn list_keys(&self) -> (r: Vec<String>)
        ensures
            r.deep_view().len() == self.view_entries().len(),
            forall|i: int|
                0 <= i < r.deep_view().len() ==> #[trigger] r.deep_view()[i]
                    == self.view_entries()[i].key,
    {
        let mut out: Vec<String> = Vec::new();
        let mut i: usize = 0;
        while i < self.entries.len()
            invariant
                0 <= i <= self.entries@.len(),
                out.deep_view().len() == i as int,
                forall|t: int|
                    0 <= t < i ==> #[trigger] out.deep_view()[t] == self.view_entries()[t].key,
            decreases self.entries.len() - i,
        {
            proof {
                assert forall|t: int| 0 <= t < i implies #[trigger] out@[t]@
                    == self.view_entries()[t].key by {
                    assert(out.deep_view()[t] == out@[t]@);
                }
            }
            let ghost snap = out@;
            out.push(self.entries[i].key.clone());
            proof {
                assert(self.view_entries()[i as int] == self.entries@[i as int]@);
                assert forall|t: int| 0 <= t < i + 1 implies #[trigger] out.deep_view()[t]
                    == self.view_entries()[t].key by {
                    assert(out.deep_view()[t] == out@[t]@);
                    if t < i {
                        assert(out@[t] == snap[t]);
                    }
                }
            }
            i += 1;
        }
        out
    }

    /// Removes the entry under `key`; removing an absent key is not an error.
    pub fn delete(&mut self, key: &String)
        requires
            old(self).wf(),
        ensures
            final(self).wf(),
            final(self).capacity == old(self).capacity,
            final(self).hits == old(self).hits,
            final(self).misses == old(self).misses,
            ({
                let idx = find_key(old(self).view_entries(), key@);
                if idx == -1 {
                    final(self).view_entries() == old(self).view_entries()
                } else {
                    final(self).view_entries() == old(self).view_entries().remove(idx)
                }
            }),
    {
        let ghost pre = self.view_entries();
        proof {
            lemma_find_key_spec(pre, key@);
        }
        match self.find_entry(key) {
            None => {},
            Some(i) => {
                let ghost idx = i as int;
                let ghost snap = self.entries@;
                self.entries.remove(i);
                proof {
                    assert forall|t: int|
                        0 <= t < self.entries@.len() implies #[trigger] self.entries@[t]@
                        == pre.remove(idx)[t] by {
                        if t < idx {
                            assert(self.entries@[t] == snap[t]);
                        } else {
                            assert(self.entries@[t] == snap[t + 1]);
                        }
                    }
                    assert(self.view_entries() =~= pre.remove(idx));
                    lemma_remove_keeps_distinct(pre, idx);
                    assert forall|t: int|
                        0 <= t < self.view_entries().len() implies
                        (#[trigger] self.view_entries()[t]).frame.wf() by {
                        if t < idx {
                            assert(self.view_entries()[t] == pre[t]);
                        } else {
                            assert(self.view_entries()[t] == pre[t + 1]);
                        }
                    }
                }
            },
        }
    }

    /// Counters and an estimated resident size at the documented rule of
    /// ten megabytes per entry.
    pub fn stats(&self) -> (r: StorageStats)
        ensures
            r.total_keys as nat == self.view_entries().len(),
            self.view_entries().len() * 10_000_000 <= u64::MAX ==> r.total_size_bytes as int
                == self.view_entries().len() * 10_000_000,
            r.cache_hits == self.hits,
            r.cache_misses == self.misses,
            r.compression_ratio_percent == 100,
    {
        let n = self.entries.len();
        let size: u64 = if (n as u64) <= u64::MAX / 10_000_000 {
            (n as u64) * 10_000_000
        } else {
            u64::MAX
        };
        StorageStats {
            total_keys: n as u64,
            total_size_bytes: size,
            cache_hits: self.hits,
            cache_misses: self.misses,
            compression_ratio_percent: 100,
        }
    }

    /// Hits per hundred lookups; zero before any lookup.
    pub fn hit_rate_percent(&self) -> (r: u64)
        ensures
            self.hits + self.misses == 0 ==> r == 0,
            self.hits + self.misses > 0 ==> r as int == (self.hits as int * 100) / (
            self.hits as int + self.misses as int),
    {
        if self.hits == 0 && self.misses == 0 {
            return 0;
        }
        let total: u128 = self.hits as u128 + self.misses as u128;
        let rate: u128 = (self.hits as u128 * 100) / total;
        proof {
            assert(rate as int <= 100) by (nonlinear_arith)
                requires
                    total as int > 0,
                    self.hits as int <= total as int,
                    rate as int == (self.hits as int * 100) / (total as int),
            {}
        }
        rate as u64
    }
}

/// A saturating counter step.
pub open spec fn bump(x: u64) -> u64 {
    if x == u64::MAX {
        x
    } else {
        (x + 1) as u64
    }
}

/// Removing an entry keeps the remaining keys distinct.
proof fn lemma_remove_keeps_distinct(s: Seq<EntryV>, idx: int)
    requires
        keys_distinct(s),
        0 <= idx < s.len(),
    ensures
        keys_distinct(s.remove(idx)),
{
    let post = s.remove(idx);
    assert forall|i: int, j: int| 0 <= i < j < post.len() implies post[i].key != post[j].key by {
        let pi: int = if i < idx {
            i
        } else {
            i + 1
        };
        let pj: int = if j < idx {
            j
        } else {
            j + 1
        };
        assert(post[i] == s[pi]);
        assert(post[j] == s[pj]);
    }
}

/// After removing the only entry with a key, no entry carries the key.
pub proof fn lemma_remove_clears_key(s: Seq<EntryV>, idx: int)
    requires
        keys_distinct(s),
        0 <= idx < s.len(),
        find_key(s, s[idx].key) == idx,
    ensures
        forall|t: int| 0 <= t < s.remove(idx).len() ==> (#[trigger] s.remove(idx)[t]).key
            != s[idx].key,
{
    let post = s.remove(idx);
    assert forall|t: int| 0 <= t < post.len() implies (#[trigger] post[t]).key != s[idx].key by {
        if t < idx {
            assert(post[t] == s[t]);
        } else {
            assert(post[t] == s[t + 1]);
        }
    }
}

/// Storing keeps the cache invariant: keys stay distinct and the entry
/// count stays within capacity.
pub proof fn lemma_store_spec_wf(s: Seq<EntryV>, cap: nat, key: Seq<char>, f: FrameV)
    requires
        keys_distinct(s),
        s.len() <= cap,
        cap >= 1,
        forall|i: int| 0 <= i < s.len() ==> (#[trigger] s[i]).frame.wf(),
        f.wf(),
    ensures
        keys_distinct(store_spec(s, cap, key, f)),
        store_spec(s, cap, key, f).len() <= cap,
        forall|i: int|
            0 <= i < store_spec(s, cap, key, f).len() ==> (#[trigger] store_spec(
                s,
                cap,
                key,
                f,
            )[i]).frame.wf(),
{
    lemma_find_key_spec(s, key);
    let idx = find_key(s, key);
    let base: Seq<EntryV> = if idx >= 0 {
        s.remove(idx)
    } else if s.len() >= cap {
        s.drop_first()
    } else {
        s
    };
    let post = store_spec(s, cap, key, f);
    assert(post == base.push(EntryV { key, frame: f }));
    if idx >= 0 {
        lemma_remove_keeps_distinct(s, idx);
        lemma_remove_clears_key(s, idx);
    } else if s.len() >= cap {
        assert forall|i: int, j: int| 0 <= i < j < base.len() implies base[i].key
            != base[j].key by {
            assert(base[i] == s[i + 1]);
            assert(base[j] == s[j + 1]);
        }
        assert forall|t: int| 0 <= t < base.len() implies (#[trigger] base[t]).key != key by {
            assert(base[t] == s[t + 1]);
        }
    }
    assert forall|i: int, j: int| 0 <= i < j < post.len() implies post[i].key != post[j].key by {
        if j < post.len() - 1 {
            assert(post[i] == base[i] && post[j] == base[j]);
        } else {
            assert(post[i] == base[i]);
        }
    }
    assert forall|i: int| 0 <= i < post.len() implies (#[trigger] post[i]).frame.wf() by {
        if i < post.len() - 1 {
            assert(post[i] == base[i]);
            if idx >= 0 {
                if i < idx {
                    assert(base[i] == s[i]);
                } else {
                    assert(base[i] == s[i + 1]);
                }
            } else if s.len() >= cap {
                assert(base[i] == s[i + 1]);
            }
        }
    }
}

/// Promoting a hit keeps the cache invariant.
pub proof fn lemma_promote_spec_wf(s: Seq<EntryV>, idx: int)
    requires
        keys_distinct(s),
        0 <= idx < s.len(),
        forall|i: int| 0 <= i < s.len() ==> (#[trigger] s[i]).frame.wf(),
    ensures
        keys_distinct(promote_spec(s, idx)),
        promote_spec(s, idx).len() == s.len(),
        forall|i: int|
            0 <= i < promote_spec(s, idx).len() ==> (#[trigger] promote_spec(s, idx)[i]).frame.wf(),
{
    let base = s.remove(idx);
    let post = promote_spec(s, idx);
    lemma_remove_keeps_distinct(s, idx);
    assert forall|i: int, j: int| 0 <= i < j < post.len() implies post[i].key != post[j].key by {
        if j < post.len() - 1 {
            assert(post[i] == base[i] && post[j] == base[j]);
        } else {
            assert(post[j] == s[idx]);
            assert(post[i] == base[i]);
            if i < idx {
                assert(base[i] == s[i]);
            } else {
                assert(base[i] == s[i + 1]);
            }
        }
    }
    assert forall|i: int| 0 <= i < post.len() implies (#[trigger] post[i]).frame.wf() by {
        if i < post.len() - 1 {
            if i < idx {
                assert(post[i] == s[i]);
            } else {
                assert(post[i] == s[i + 1]);
            }
        } else {
            assert(post[i] == s[idx]);
        }
    }
}

/// The keys of a run of entries, in recency order.
pub open spec fn keys_of(s: Seq<EntryV>) -> Seq<Seq<char>> {
    Seq::new(s.len(), |i: int| s[i].key)
}

/// The cache contents after storing frames under the run of keys `ks`,
/// in order, into an empty cache of capacity `cap`.
pub open spec fn fill_seq(cap: nat, ks: Seq<Seq<char>>, f: FrameV) -> Seq<EntryV>
    decreases ks.len(),
{
    if ks.len() == 0 {
        Seq::empty()
    } else {
        store_spec(fill_seq(cap, ks.drop_last(), f), cap, ks.last(), f)
    }
}

/// How many keys fall out of a cache of capacity `cap` when `n` distinct
/// keys are stored.
pub open spec fn evicted(n: int, cap: nat) -> int {
    if n <= cap {
        0
    } else {
        n - cap
    }
}

/// Filling a cache with distinct keys keeps exactly the last `cap` of
/// them, in order.
pub proof fn lemma_fill_keys(cap: nat, ks: Seq<Seq<char>>, f: FrameV)
    requires
        cap >= 1,
        forall|i: int, j: int| 0 <= i < j < ks.len() ==> ks[i] != ks[j],
    ensures
        keys_of(fill_seq(cap, ks, f)) == ks.skip(evicted(ks.len() as int, cap)),
        fill_seq(cap, ks, f).len() <= cap,
        keys_distinct(fill_seq(cap, ks, f)),
    decreases ks.len(),
{
    if ks.len() == 0 {
        assert(keys_of(fill_seq(cap, ks, f)) =~= ks.skip(0));
    } else {
        let dl = ks.drop_last();
        let k = ks.last();
        lemma_fill_keys(cap, dl, f);
        let prev = fill_seq(cap, dl, f);
        let e = evicted(dl.len() as int, cap);
        assert(keys_of(prev).len() == prev.len());
        assert(keys_of(prev) == dl.skip(e));
        assert(dl.skip(e).len() == dl.len() - e);
        assert(prev.len() == dl.len() - e);
        assert forall|t: int| 0 <= t < prev.len() implies (#[trigger] prev[t]).key != k by {
            assert(keys_of(prev)[t] == prev[t].key);
            assert(dl.skip(e)[t] == dl[t + e]);
            assert(dl[t + e] == ks[t + e]);
            assert(ks[t + e] != ks[ks.len() - 1]);
        }
        lemma_find_key_absent(prev, k);
        let post = fill_seq(cap, ks, f);
        assert(post == store_spec(prev, cap, k, f));
        let e2 = evicted(ks.len() as int, cap);
        if prev.len() >= cap {
            assert(prev.len() == cap);
            assert(dl.len() >= cap);
            assert(e2 == dl.len() + 1 - cap);
            assert(post == prev.drop_first().push(EntryV { key: k, frame: f }));
            assert(keys_of(post) =~= ks.skip(e2)) by {
                assert(keys_of(post).len() == post.len());
                assert forall|t: int| 0 <= t < keys_of(post).len() implies keys_of(post)[t]
                    == ks.skip(e2)[t] by {
                    assert(keys_of(post)[t] == post[t].key);
                    assert(ks.skip(e2)[t] == ks[t + e2]);
                    if t < keys_of(post).len() - 1 {
                        assert(post[t] == prev.drop_first()[t]);
                        assert(prev.drop_first()[t] == prev[t + 1]);
                        assert(keys_of(prev)[t + 1] == prev[t + 1].key);
                        assert(dl.skip(e)[t + 1] == dl[t + 1 + e]);
                        assert(dl[t + 1 + e] == ks[t + 1 + e]);
                    } else {
                        assert(post[t].key == k);
                        assert(ks[t + e2] == ks[ks.len() - 1]);
                    }
                }
            }
        } else {
            assert(e2 == 0 && e == 0);
            assert(post == prev.push(EntryV { key: k, frame: f }));
            assert(keys_of(post) =~= ks.skip(e2)) by {
                assert(keys_of(post).len() == post.len());
                assert forall|t: int| 0 <= t < keys_of(post).len() implies keys_of(post)[t]
                    == ks.skip(e2)[t] by {
                    assert(keys_of(post)[t] == post[t].key);
                    assert(ks.skip(e2)[t] == ks[t + e2]);
                    if t < keys_of(post).len() - 1 {
                        assert(post[t] == prev[t]);
                        assert(keys_of(prev)[t] == prev[t].key);
                        assert(dl.skip(e)[t] == dl[t + e]);
                        assert(dl[t] == ks[t]);
                    } else {
                        assert(post[t].key == k);
                        assert(ks[t] == ks[ks.len() - 1]);
                    }
                }
            }
        }
        assert forall|i: int, j: int| 0 <= i < j < post.len() implies post[i].key
            != post[j].key by {
            assert(keys_of(post)[i] == post[i].key);
            assert(keys_of(post)[j] == post[j].key);
            assert(ks.skip(e2)[i] == ks[i + e2]);
            assert(ks.skip(e2)[j] == ks[j + e2]);
        }
    }
}

/// Cache LRU law: after filling an empty cache of capacity `N` with `N + 1`
/// distinct keys in order, the first key misses and every later key hits.
pub proof fn lemma_lru_eviction(cap: nat, ks: Seq<Seq<char>>, f: FrameV)
    requires
        cap >= 1,
        ks.len() == cap + 1,
        forall|i: int, j: int| 0 <= i < j < ks.len() ==> ks[i] != ks[j],
    ensures
        find_key(fill_seq(cap, ks, f), ks[0]) == -1,
        forall|i: int| 1 <= i < ks.len() ==> find_key(fill_seq(cap, ks, f), #[trigger] ks[i]) >= 0,
{
    lemma_fill_keys(cap, ks, f);
    let post = fill_seq(cap, ks, f);
    assert(evicted(ks.len() as int, cap) == 1);
    assert(keys_of(post) == ks.skip(1));
    assert(keys_of(post).len() == post.len());
    assert(post.len() == cap);
    assert forall|t: int| 0 <= t < post.len() implies (#[trigger] post[t]).key != ks[0] by {
        assert(keys_of(post)[t] == post[t].key);
        assert(ks.skip(1)[t] == ks[t + 1]);
    }
    lemma_find_key_absent(post, ks[0]);
    assert forall|i: int| 1 <= i < ks.len() implies find_key(post, #[trigger] ks[i]) >= 0 by {
        lemma_find_key_spec(post, ks[i]);
        if find_key(post, ks[i]) == -1 {
            assert(keys_of(post)[i - 1] == post[i - 1].key);
            assert(ks.skip(1)[i - 1] == ks[i]);
        }
    }
}

/// `find_key_from` returns a real index of an entry with the key, or -1 and
/// then no entry at or after `from` carries the key.
pub proof fn lemma_find_key_from_spec(s: Seq<EntryV>, key: Seq<char>, from: int)
    requires
        0 <= from,
    ensures
        find_key_from(s, key, from) >= 0 ==> from <= find_key_from(s, key, from) < s.len()
            && s[find_key_from(s, key, from)].key == key,
        find_key_from(s, key, from) == -1 ==> forall|i: int|
            from <= i < s.len() ==> (#[trigger] s[i]).key != key,
        find_key_from(s, key, from) == -1 || from <= find_key_from(s, key, from) < s.len(),
    decreases s.len() - from,
{
    if from < s.len() {
        lemma_find_key_from_spec(s, key, from + 1);
    }
}

/// `find_key` over the whole run.
pub proof fn lemma_find_key_spec(s: Seq<EntryV>, key: Seq<char>)
    ensures
        find_key(s, key) >= 0 ==> find_key(s, key) < s.len() && s[find_key(s, key)].key == key,
        find_key(s, key) == -1 ==> forall|i: int|
            0 <= i < s.len() ==> (#[trigger] s[i]).key != key,
        -1 <= find_key(s, key) < s.len(),
{
    lemma_find_key_from_spec(s, key, 0);
}

/// A key held by no entry is not found.
pub proof fn lemma_find_key_absent(s: Seq<EntryV>, key: Seq<char>)
    requires
        forall|i: int| 0 <= i < s.len() ==> (#[trigger] s[i]).key != key,
    ensures
        find_key(s, key) == -1,
{
    lemma_find_key_spec(s, key);
    if find_key(s, key) >= 0 {
        assert(s[find_key(s, key)].key == key);
    }
}

} // verus!
