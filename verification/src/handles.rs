//! Handle registry: maps issued handle ids to frames with a time-to-live.
//!
//! Time is carried as a caller-supplied monotonic clock reading in
//! milliseconds, so that every contract is exact about expiry.
use vstd::prelude::*;

use crate::frame::{Frame, FrameV};
use crate::ServiceError;

verus! {

/// One registry entry.
pub struct HandleRecord {
    pub handle_id: u64,
    pub frame: Frame,
    pub created_at: u64,
    pub last_accessed: u64,
    pub ttl: u64,
}

/// The mathematical value of a `HandleRecord`.
pub struct RecordV {
    pub id: u64,
    pub frame: FrameV,
    pub created_at: u64,
    pub last_accessed: u64,
    pub ttl: u64,
}

impl View for HandleRecord {
    type V = RecordV;

    open spec fn view(&self) -> RecordV {
        RecordV {
            id: self.handle_id,
            frame: self.frame@,
            created_at: self.created_at,
            last_accessed: self.last_accessed,
            ttl: self.ttl,
        }
    }
}

impl DeepView for HandleRecord {
    type V = RecordV;

    open spec fn deep_view(&self) -> RecordV {
        self.view()
    }
}

/// A record is expired at `now` when more than `ttl` milliseconds passed
/// since it was last accessed.
pub open spec fn expired_at(r: RecordV, now: u64) -> bool {
    now > r.last_accessed + r.ttl
}

/// The record with its access time refreshed.
pub open spec fn touched(r: RecordV, now: u64) -> RecordV {
    RecordV { last_accessed: now, ..r }
}

/// Index of the first record at or after `from` with the given id, or -1.
pub open spec fn find_from(s: Seq<RecordV>, id: u64, from: int) -> int
    decreases s.len() - from,
{
    if from < 0 || from >= s.len() {
        -1
    } else if s[from].id == id {
        from
    } else {
        find_from(s, id, from + 1)
    }
}

/// Index of the first record with the given id, or -1 when absent.
pub open spec fn find_idx(s: Seq<RecordV>, id: u64) -> int {
    find_from(s, id, 0)
}

/// All record ids are pairwise distinct.
pub open spec fn ids_distinct(s: Seq<RecordV>) -> bool {
    forall|i: int, j: int| 0 <= i < j < s.len() ==> s[i].id != s[j].id
}

/// The registry's records with the expired ones removed.
pub open spec fn retain_live(s: Seq<RecordV>, now: u64) -> Seq<RecordV>
    decreases s.len(),
{
    if s.len() == 0 {
        Seq::empty()
    } else if expired_at(s.last(), now) {
        retain_live(s.drop_last(), now)
    } else {
        retain_live(s.drop_last(), now).push(s.last())
    }
}

/// The in-process handle registry: issued ids, their frames, and one
/// default time-to-live.
pub struct HandleManager {
    pub records: Vec<HandleRecord>,
    pub next_id: u64,
    pub default_ttl: u64,
    pub issued: Ghost<Set<u64>>,
}

impl HandleManager {
    pub open spec fn recs(self) -> Seq<RecordV> {
        self.records.deep_view()
    }

    /// Registry invariant: ids are distinct, below the issue counter, drawn
    /// from the issued set, and every held frame is well-formed.
    pub open spec fn wf(self) -> bool {
        &&& ids_distinct(self.recs())
        &&& forall|i: int|
            0 <= i < self.recs().len() ==> (#[trigger] self.recs()[i]).id < self.next_id
                && self.issued@.contains(self.recs()[i].id) && self.recs()[i].frame.wf()
        &&& forall|id: u64| #[trigger] self.issued@.contains(id) ==> id < self.next_id
    }

    pub fn new(default_ttl: u64) -> (r: HandleManager)
        ensures
            r.wf(),
            r.recs().len() == 0,
            r.default_ttl == default_ttl,
            r.next_id == 0,
            r.issued@ == Set::<u64>::empty(),
    {
        HandleManager {
            records: Vec::new(),
            next_id: 0,
            default_ttl,
            issued: Ghost(Set::empty()),
        }
    }

    pub fn handle_count(&self) -> (r: usize)
        ensures
            r as nat == self.recs().len(),
    {
        self.records.len()
    }

    /// Issues a fresh handle for the frame. The returned id was never
    /// issued before by this registry: handle ids are unique over the
    /// registry's lifetime.
    #[verifier::loop_isolation(false)]
    pub fn create_handle(&mut self, frame: Frame, now: u64) -> (h: u64)
        requires
            old(self).wf(),
            frame.wf(),
            old(self).next_id < u64::MAX,
        ensures
            !old(self).issued@.contains(h),
            final(self).issued@ == old(self).issued@.insert(h),
            final(self).recs() == old(self).recs().push(
                RecordV {
                    id: h,
                    frame: frame@,
                    created_at: now,
                    last_accessed: now,
                    ttl: old(self).default_ttl,
                },
            ),
            find_idx(old(self).recs(), h) == -1,
            final(self).default_ttl == old(self).default_ttl,
            final(self).next_id == old(self).next_id + 1,
            final(self).wf(),
    {
        let h = self.next_id;
        self.next_id = self.next_id + 1;
        let rec = HandleRecord {
            handle_id: h,
            frame,
            created_at: now,
            last_accessed: now,
            ttl: self.default_ttl,
        };
        self.records.push(rec);
        proof {
            self.issued@ = self.issued@.insert(h);
            assert(self.recs() =~= old(self).recs().push(
                RecordV {
                    id: h,
                    frame: frame@,
                    created_at: now,
                    last_accessed: now,
                    ttl: old(self).default_ttl,
                },
            ));
            lemma_find_absent(old(self).recs(), h, old(self).next_id);
        }
        h
    }
}

impl HandleManager {
    /// Index of the record holding `handle`, if any.
    #[verifier::loop_isolation(false)]
    fn find_record(&self, handle: u64) -> (r: Option<usize>)
        ensures
            match r {
                Some(i) => find_idx(self.recs(), handle) == i as int,
                None => find_idx(self.recs(), handle) == -1,
            },
    {
        let mut i: usize = 0;
        while i < self.records.len()
            invariant
                0 <= i <= self.recs().len(),
                find_from(self.recs(), handle, 0) == find_from(self.recs(), handle, i as int),
            decreases self.records.len() - i,
        {
            if self.records[i].handle_id == handle {
                return Some(i);
            }
            i += 1;
        }
        None
    }

    /// Looks a handle up. A missing handle fails `HandleNotFound`; an
    /// expired one is removed and fails `HandleExpired`; a live one has its
    /// access time refreshed and its frame returned.
    pub fn get_dataframe(&mut self, handle: u64, now: u64) -> (r: Result<Frame, ServiceError>)
        requires
            old(self).wf(),
        ensures
            final(self).wf(),
            final(self).next_id == old(self).next_id,
            final(self).default_ttl == old(self).default_ttl,
            final(self).issued@ == old(self).issued@,
            ({
                let idx = find_idx(old(self).recs(), handle);
                if idx == -1 {
                    &&& (r matches Err(e) && e is HandleNotFound)
                    &&& final(self).recs() == old(self).recs()
                } else if expired_at(old(self).recs()[idx], now) {
                    &&& (r matches Err(e) && e is HandleExpired)
                    &&& final(self).recs() == old(self).recs().remove(idx)
                } else {
                    &&& (r matches Ok(f) && f@ == old(self).recs()[idx].frame && f.wf())
                    &&& final(self).recs() == old(self).recs().update(
                        idx,
                        touched(old(self).recs()[idx], now),
                    )
                }
            }),
    {
        proof {
            lemma_find_idx_spec(self.recs(), handle);
        }
        match self.find_record(handle) {
            None => Err(ServiceError::HandleNotFound),
            Some(i) => {
                let ghost idx = i as int;
                let ghost pre = self.recs();
                let expired = {
                    let rec = &self.records[i];
                    now > rec.last_accessed && now - rec.last_accessed > rec.ttl
                };
                proof {
                    assert(expired == expired_at(pre[idx], now));
                }
                if expired {
                    self.records.remove(i);
                    proof {
                        assert(self.recs() =~= pre.remove(idx)) by {
                            assert forall|t: int| 0 <= t < self.recs().len() implies self.recs()[t]
                                == pre.remove(idx)[t] by {
                                if t < idx {
                                    assert(self.records@[t] == old(self).records@[t]);
                                } else {
                                    assert(self.records@[t] == old(self).records@[t + 1]);
                                }
                            }
                        }
                        lemma_wf_remove(*old(self), *self, idx);
                    }
                    Err(ServiceError::HandleExpired)
                } else {
                    let mut rec = self.records.remove(i);
                    rec.last_accessed = now;
                    let out = rec.frame.duplicate();
                    self.records.insert(i, rec);
                    proof {
                        assert(self.recs() =~= pre.update(idx, touched(pre[idx], now))) by {
                            assert forall|t: int| 0 <= t < self.recs().len() implies self.recs()[t]
                                == pre.update(idx, touched(pre[idx], now))[t] by {
                                if t < idx {
                                    assert(self.records@[t] == old(self).records@[t]);
                                } else if t > idx {
                                    assert(self.records@[t] == old(self).records@[t]);
                                }
                            }
                        }
                        lemma_wf_update_touched(*old(self), *self, idx, now);
                    }
                    Ok(out)
                }
            },
        }
    }

    /// Removes a handle explicitly; fails `HandleNotFound` when absent.
    pub fn drop_handle(&mut self, handle: u64) -> (r: Result<(), ServiceError>)
        requires
            old(self).wf(),
        ensures
            final(self).wf(),
            final(self).next_id == old(self).next_id,
            final(self).default_ttl == old(self).default_ttl,
            final(self).issued@ == old(self).issued@,
            ({
                let idx = find_idx(old(self).recs(), handle);
                if idx == -1 {
                    &&& (r matches Err(e) && e is HandleNotFound)
                    &&& final(self).recs() == old(self).recs()
                } else {
                    &&& r is Ok
                    &&& final(self).recs() == old(self).recs().remove(idx)
                }
            }),
    {
        proof {
            lemma_find_idx_spec(self.recs(), handle);
        }
        match self.find_record(handle) {
            None => Err(ServiceError::HandleNotFound),
            Some(i) => {
                let ghost idx = i as int;
                let ghost pre = self.recs();
                self.records.remove(i);
                proof {
                    assert(self.recs() =~= pre.remove(idx)) by {
                        assert forall|t: int| 0 <= t < self.recs().len() implies self.recs()[t]
                            == pre.remove(idx)[t] by {
                            if t < idx {
                                assert(self.records@[t] == old(self).records@[t]);
                            } else {
                                assert(self.records@[t] == old(self).records@[t + 1]);
                            }
                        }
                    }
                    lemma_wf_remove(*old(self), *self, idx);
                }
                Ok(())
            },
        }
    }

    /// Refreshes a handle's access time without touching its frame; fails
    /// as a lookup does on absence or expiry.
    pub fn heartbeat(&mut self, handle: u64, now: u64) -> (r: Result<(), ServiceError>)
        requires
            old(self).wf(),
        ensures
            final(self).wf(),
            final(self).next_id == old(self).next_id,
            final(self).default_ttl == old(self).default_ttl,
            final(self).issued@ == old(self).issued@,
            ({
                let idx = find_idx(old(self).recs(), handle);
                if idx == -1 {
                    &&& (r matches Err(e) && e is HandleNotFound)
                    &&& final(self).recs() == old(self).recs()
                } else if expired_at(old(self).recs()[idx], now) {
                    &&& (r matches Err(e) && e is HandleExpired)
                    &&& final(self).recs() == old(self).recs().remove(idx)
                } else {
                    &&& r is Ok
                    &&& final(self).recs() == old(self).recs().update(
                        idx,
                        touched(old(self).recs()[idx], now),
                    )
                }
            }),
    {
        proof {
            lemma_find_idx_spec(self.recs(), handle);
        }
        match self.find_record(handle) {
            None => Err(ServiceError::HandleNotFound),
            Some(i) => {
                let ghost idx = i as int;
                let ghost pre = self.recs();
                let expired = {
                    let rec = &self.records[i];
                    now > rec.last_accessed && now - rec.last_accessed > rec.ttl
                };
                if expired {
                    self.records.remove(i);
                    proof {
                        assert(self.recs() =~= pre.remove(idx)) by {
                            assert forall|t: int| 0 <= t < self.recs().len() implies self.recs()[t]
                                == pre.remove(idx)[t] by {
                                if t < idx {
                                    assert(self.records@[t] == old(self).records@[t]);
                                } else {
                                    assert(self.records@[t] == old(self).records@[t + 1]);
                                }
                            }
                        }
                        lemma_wf_remove(*old(self), *self, idx);
                    }
                    Err(ServiceError::HandleExpired)
                } else {
                    let mut rec = self.records.remove(i);
                    rec.last_accessed = now;
                    self.records.insert(i, rec);
                    proof {
                        assert(self.recs() =~= pre.update(idx, touched(pre[idx], now))) by {
                            assert forall|t: int| 0 <= t < self.recs().len() implies self.recs()[t]
                                == pre.update(idx, touched(pre[idx], now))[t] by {
                                if t < idx {
                                    assert(self.records@[t] == old(self).records@[t]);
                                } else if t > idx {
                                    assert(self.records@[t] == old(self).records@[t]);
                                }
                            }
                        }
                        lemma_wf_update_touched(*old(self), *self, idx, now);
                    }
                    Ok(())
                }
            },
        }
    }

    /// Issues a new handle sharing the looked-up handle's frame value.
    pub fn clone_handle(&mut self, handle: u64, now: u64) -> (r: Result<u64, ServiceError>)
        requires
            old(self).wf(),
            old(self).next_id < u64::MAX,
        ensures
            final(self).wf(),
            final(self).default_ttl == old(self).default_ttl,
            ({
                let idx = find_idx(old(self).recs(), handle);
                if idx == -1 {
                    (r matches Err(e) && e is HandleNotFound)
                } else if expired_at(old(self).recs()[idx], now) {
                    (r matches Err(e) && e is HandleExpired)
                } else {
                    r matches Ok(h2) && !old(self).issued@.contains(h2) && final(self).recs()
                        == old(self).recs().update(idx, touched(old(self).recs()[idx], now)).push(
                        RecordV {
                            id: h2,
                            frame: old(self).recs()[idx].frame,
                            created_at: now,
                            last_accessed: now,
                            ttl: old(self).default_ttl,
                        },
                    )
                }
            }),
    {
        match self.get_dataframe(handle, now) {
            Err(e) => Err(e),
            Ok(f) => {
                let h2 = self.create_handle(f, now);
                Ok(h2)
            },
        }
    }

    /// Whether the handle is present and not expired; mutates nothing.
    pub fn is_alive(&self, handle: u64, now: u64) -> (r: bool)
        ensures
            r == ({
                let idx = find_idx(self.recs(), handle);
                idx >= 0 && !expired_at(self.recs()[idx], now)
            }),
    {
        proof {
            lemma_find_idx_spec(self.recs(), handle);
        }
        match self.find_record(handle) {
            None => false,
            Some(i) => {
                let rec = &self.records[i];
                !(now > rec.last_accessed && now - rec.last_accessed > rec.ttl)
            },
        }
    }

    /// Removes every expired record and says how many were removed.
    #[verifier::loop_isolation(false)]
    pub fn cleanup_expired(&mut self, now: u64) -> (r: usize)
        requires
            old(self).wf(),
        ensures
            final(self).wf(),
            final(self).next_id == old(self).next_id,
            final(self).default_ttl == old(self).default_ttl,
            final(self).issued@ == old(self).issued@,
            final(self).recs() == retain_live(old(self).recs(), now),
            r as int == old(self).recs().len() - final(self).recs().len(),
    {
        let ghost pre = self.recs();
        let total = self.records.len();
        let mut kept: Vec<HandleRecord> = Vec::new();
        let mut k: usize = 0;
        while k < total
            invariant
                0 <= k <= total,
                total as int == pre.len(),
                self.records@.len() == pre.len() - k,
                self.next_id == old(self).next_id,
                self.default_ttl == old(self).default_ttl,
                self.issued@ == old(self).issued@,
                forall|t: int|
                    0 <= t < self.records@.len() ==> #[trigger] self.records@[t]@ == pre[t + k],
                kept.deep_view() =~= retain_live(pre.take(k as int), now),
            decreases total - k,
        {
            let ghost snap = self.records@;
            proof {
                assert(pre.take(k + 1).drop_last() =~= pre.take(k as int));
                assert(pre.take(k + 1).last() == pre[k as int]);
                assert(snap[0]@ == pre[k as int]);
            }
            let rec = self.records.remove(0);
            let expired = now > rec.last_accessed && now - rec.last_accessed > rec.ttl;
            proof {
                assert(rec@ == pre[k as int]);
                assert(expired == expired_at(pre[k as int], now));
            }
            if !expired {
                kept.push(rec);
            }
            proof {
                assert forall|t: int|
                    0 <= t < self.records@.len() implies #[trigger] self.records@[t]@ == pre[t + k
                    + 1] by {
                    assert(self.records@[t] == snap[t + 1]);
                }
                assert(kept.deep_view() =~= retain_live(pre.take(k + 1), now));
            }
            k += 1;
        }
        proof {
            assert(pre.take(pre.len() as int) =~= pre);
            assert(kept.deep_view() =~= retain_live(pre, now));
            lemma_retain_live_len(pre, now);
            assert(kept@.len() == kept.deep_view().len());
        }
        let removed = total - kept.len();
        self.records = kept;
        proof {
            lemma_retain_live_wf(pre, now);
            assert forall|i: int| 0 <= i < self.recs().len() implies (#[trigger] self.recs()[i]).id
                < self.next_id && self.issued@.contains(self.recs()[i].id)
                && self.recs()[i].frame.wf() by {
                lemma_retain_live_member(pre, now, i);
                let j = choose|j: int| 0 <= j < pre.len() && pre[j] == retain_live(pre, now)[i];
                assert(old(self).recs()[j] == pre[j]);
                assert(pre[j].id < old(self).next_id);
            }
        }
        removed
    }
}

/// Removing a record keeps the registry invariant.
proof fn lemma_wf_remove(pre: HandleManager, post: HandleManager, idx: int)
    requires
        pre.wf(),
        0 <= idx < pre.recs().len(),
        post.recs() == pre.recs().remove(idx),
        post.next_id == pre.next_id,
        post.issued@ == pre.issued@,
    ensures
        post.wf(),
{
    assert forall|i: int| 0 <= i < post.recs().len() implies (#[trigger] post.recs()[i]).id
        < post.next_id && post.issued@.contains(post.recs()[i].id)
        && post.recs()[i].frame.wf() by {
        if i < idx {
            assert(post.recs()[i] == pre.recs()[i]);
        } else {
            assert(post.recs()[i] == pre.recs()[i + 1]);
        }
    }
    assert forall|i: int, j: int| 0 <= i < j < post.recs().len() implies post.recs()[i].id
        != post.recs()[j].id by {
        let pi: int = if i < idx {
            i
        } else {
            i + 1
        };
        let pj: int = if j < idx {
            j
        } else {
            j + 1
        };
        assert(post.recs()[i] == pre.recs()[pi]);
        assert(post.recs()[j] == pre.recs()[pj]);
    }
}

/// Refreshing one record's access time keeps the registry invariant.
proof fn lemma_wf_update_touched(pre: HandleManager, post: HandleManager, idx: int, now: u64)
    requires
        pre.wf(),
        0 <= idx < pre.recs().len(),
        post.recs() == pre.recs().update(idx, touched(pre.recs()[idx], now)),
        post.next_id == pre.next_id,
        post.issued@ == pre.issued@,
    ensures
        post.wf(),
{
    assert forall|i: int| 0 <= i < post.recs().len() implies (#[trigger] post.recs()[i]).id
        < post.next_id && post.issued@.contains(post.recs()[i].id)
        && post.recs()[i].frame.wf() by {
        if i != idx {
            assert(post.recs()[i] == pre.recs()[i]);
        }
    }
    assert forall|i: int, j: int| 0 <= i < j < post.recs().len() implies post.recs()[i].id
        != post.recs()[j].id by {
        assert(post.recs()[i].id == pre.recs()[i].id);
        assert(post.recs()[j].id == pre.recs()[j].id);
    }
}

/// Every record retained live stems from the original run of records.
pub proof fn lemma_retain_live_member(s: Seq<RecordV>, now: u64, i: int)
    requires
        0 <= i < retain_live(s, now).len(),
    ensures
        exists|j: int| 0 <= j < s.len() && s[j] == retain_live(s, now)[i],
    decreases s.len(),
{
    if s.len() > 0 {
        if expired_at(s.last(), now) {
            lemma_retain_live_member(s.drop_last(), now, i);
            let j = choose|j: int|
                0 <= j < s.drop_last().len() && s.drop_last()[j] == retain_live(
                    s.drop_last(),
                    now,
                )[i];
            assert(s[j] == retain_live(s, now)[i]);
        } else {
            if i < retain_live(s.drop_last(), now).len() {
                lemma_retain_live_member(s.drop_last(), now, i);
                let j = choose|j: int|
                    0 <= j < s.drop_last().len() && s.drop_last()[j] == retain_live(
                        s.drop_last(),
                        now,
                    )[i];
                assert(s[j] == retain_live(s, now)[i]);
            } else {
                assert(s[s.len() - 1] == retain_live(s, now)[i]);
            }
        }
    }
}

/// Cleanup never grows the registry.
pub proof fn lemma_retain_live_len(s: Seq<RecordV>, now: u64)
    ensures
        retain_live(s, now).len() <= s.len(),
    decreases s.len(),
{
    if s.len() > 0 {
        lemma_retain_live_len(s.drop_last(), now);
    }
}

/// Cleanup keeps ids distinct when they were distinct; stated through
/// membership, which the invariant proof uses.
proof fn lemma_retain_live_wf(s: Seq<RecordV>, now: u64)
    requires
        ids_distinct(s),
    ensures
        ids_distinct(retain_live(s, now)),
        forall|i: int|
            0 <= i < retain_live(s, now).len() ==> !expired_at(
                #[trigger] retain_live(s, now)[i],
                now,
            ),
    decreases s.len(),
{
    if s.len() > 0 {
        assert(ids_distinct(s.drop_last()));
        lemma_retain_live_wf(s.drop_last(), now);
        if !expired_at(s.last(), now) {
            let r = retain_live(s.drop_last(), now).push(s.last());
            assert forall|i: int, j: int| 0 <= i < j < r.len() implies r[i].id != r[j].id by {
                if j < r.len() - 1 {
                    assert(r[i] == retain_live(s.drop_last(), now)[i]);
                    assert(r[j] == retain_live(s.drop_last(), now)[j]);
                } else {
                    assert(r[j] == s.last());
                    assert(r[i] == retain_live(s.drop_last(), now)[i]);
                    lemma_retain_live_member(s.drop_last(), now, i);
                    let t = choose|t: int|
                        0 <= t < s.drop_last().len() && s.drop_last()[t] == retain_live(
                            s.drop_last(),
                            now,
                        )[i];
                    assert(s[t] == r[i]);
                    assert(s[t].id != s[s.len() - 1].id);
                }
            }
        }
    }
}

/// TTL honored: once a lookup removed an expired handle, a second lookup
/// of the same handle finds nothing, so it fails `HandleNotFound`.
pub proof fn lemma_expired_then_not_found(pre: Seq<RecordV>, h: u64)
    requires
        ids_distinct(pre),
        find_idx(pre, h) >= 0,
    ensures
        find_idx(pre.remove(find_idx(pre, h)), h) == -1,
{
    let idx = find_idx(pre, h);
    lemma_find_idx_spec(pre, h);
    let post = pre.remove(idx);
    lemma_find_idx_spec(post, h);
    if find_idx(post, h) >= 0 {
        let j = find_idx(post, h);
        if j < idx {
            assert(post[j] == pre[j]);
        } else {
            assert(post[j] == pre[j + 1]);
        }
    }
}

/// Heartbeat refreshes: after a heartbeat at `t0`, a lookup at any `t1`
/// within the record's time-to-live finds the handle live.
pub proof fn lemma_heartbeat_refreshes(pre: Seq<RecordV>, h: u64, t0: u64, t1: u64)
    requires
        ids_distinct(pre),
        find_idx(pre, h) >= 0,
        t0 <= t1,
        t1 <= t0 + pre[find_idx(pre, h)].ttl,
    ensures
        ({
            let idx = find_idx(pre, h);
            let post = pre.update(idx, touched(pre[idx], t0));
            &&& find_idx(post, h) == idx
            &&& !expired_at(post[idx], t1)
        }),
{
    let idx = find_idx(pre, h);
    lemma_find_idx_spec(pre, h);
    let post = pre.update(idx, touched(pre[idx], t0));
    lemma_find_from_update(pre, idx, touched(pre[idx], t0), 0);
}

/// Updating the first matching record in place keeps it the first match.
proof fn lemma_find_from_update(s: Seq<RecordV>, idx: int, r2: RecordV, from: int)
    requires
        0 <= from <= idx < s.len(),
        find_from(s, r2.id, from) == idx,
        s[idx].id == r2.id,
    ensures
        find_from(s.update(idx, r2), r2.id, from) == idx,
    decreases idx - from,
{
    if from < idx {
        lemma_find_from_update(s, idx, r2, from + 1);
    }
}

/// An id at or above every record id is not found.
pub proof fn lemma_find_absent(s: Seq<RecordV>, id: u64, bound: u64)
    requires
        forall|i: int| 0 <= i < s.len() ==> (#[trigger] s[i]).id < bound,
        id >= bound,
    ensures
        find_idx(s, id) == -1,
{
    lemma_find_from_spec(s, id, 0);
    if find_idx(s, id) >= 0 {
        assert(s[find_idx(s, id)].id < bound);
    }
}

/// `find_from` returns a real index of a record with the id, or -1 and then
/// no record at or after `from` carries the id.
pub proof fn lemma_find_from_spec(s: Seq<RecordV>, id: u64, from: int)
    requires
        0 <= from,
    ensures
        find_from(s, id, from) >= 0 ==> from <= find_from(s, id, from) < s.len() && s[find_from(
            s,
            id,
            from,
        )].id == id,
        find_from(s, id, from) == -1 ==> forall|i: int|
            from <= i < s.len() ==> (#[trigger] s[i]).id != id,
        find_from(s, id, from) == -1 || from <= find_from(s, id, from) < s.len(),
    decreases s.len() - from,
{
    if from < s.len() {
        lemma_find_from_spec(s, id, from + 1);
    }
}

/// `find_idx` returns a real index of a record with the id, or -1 and then
/// no record carries the id.
pub proof fn lemma_find_idx_spec(s: Seq<RecordV>, id: u64)
    ensures
        find_idx(s, id) >= 0 ==> find_idx(s, id) < s.len() && s[find_idx(s, id)].id == id,
        find_idx(s, id) == -1 ==> forall|i: int| 0 <= i < s.len() ==> (#[trigger] s[i]).id != id,
        -1 <= find_idx(s, id) < s.len(),
{
    lemma_find_from_spec(s, id, 0);
}

} // verus!
