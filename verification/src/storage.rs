//! Cold-tier storage model and the hybrid read-through composition.
//!
//! Keys are sanitized before use so that no stored object can name a file
//! outside the configured base directory.
use vstd::prelude::*;

use crate::frame::{Frame, FrameV};
use crate::storage_stats::StorageStats;
use crate::{ServiceError, Tier};

verus! {

/// Characters a key may not carry into a file name: path separators and
/// whitespace.
pub open spec fn is_sep(c: char) -> bool {
    c == '/' || c == '\\' || c == ' ' || c == '\t' || c == '\n' || c == '\r'
}

/// First sanitising pass: every separator or whitespace character becomes
/// an underscore.
pub open spec fn mask_seps(s: Seq<char>) -> Seq<char> {
    Seq::new(s.len(), |i: int| if is_sep(s[i]) { '_' } else { s[i] })
}

/// Second sanitising pass: every `..` pair collapses into one underscore,
/// scanning left to right.
pub open spec fn collapse_dots(s: Seq<char>) -> Seq<char>
    decreases s.len(),
{
    if s.len() >= 2 && s[0] == '.' && s[1] == '.' {
        seq!['_'] + collapse_dots(s.skip(2))
    } else if s.len() >= 1 {
        seq![s[0]] + collapse_dots(s.skip(1))
    } else {
        Seq::empty()
    }
}

/// The sanitized form of a key.
pub open spec fn sanitize_spec(s: Seq<char>) -> Seq<char> {
    collapse_dots(mask_seps(s))
}

/// A sanitized key never carries a separator: together with the absence of
/// `..` pairs this keeps every stored object under the configured base.
pub proof fn lemma_sanitize_no_sep(s: Seq<char>)
    ensures
        forall|i: int| 0 <= i < sanitize_spec(s).len() ==> !is_sep(#[trigger] sanitize_spec(s)[i]),
{
    lemma_collapse_chars(mask_seps(s));
    assert forall|i: int|
        0 <= i < sanitize_spec(s).len() implies !is_sep(#[trigger] sanitize_spec(s)[i]) by {
        let c = sanitize_spec(s)[i];
        if c != '_' {
            let j = choose|j: int| 0 <= j < mask_seps(s).len() && mask_seps(s)[j] == c;
            assert(!is_sep(mask_seps(s)[j]));
        }
    }
}

/// A sanitized key never carries two dots in a row.
pub proof fn lemma_sanitize_no_dotdot(s: Seq<char>)
    ensures
        forall|i: int|
            0 <= i && i + 1 < sanitize_spec(s).len() ==> !((#[trigger] sanitize_spec(s)[i]) == '.'
                && sanitize_spec(s)[i + 1] == '.'),
{
    lemma_collapse_no_dotdot(mask_seps(s));
}

/// A nonempty key sanitizes to a nonempty name.
pub proof fn lemma_sanitize_nonempty(s: Seq<char>)
    ensures
        sanitize_spec(s).len() == 0 <==> s.len() == 0,
{
    lemma_collapse_len(mask_seps(s));
}

/// Every character of the collapsed run is an underscore or one of the
/// input's characters.
proof fn lemma_collapse_chars(s: Seq<char>)
    ensures
        forall|i: int|
            0 <= i < collapse_dots(s).len() ==> (#[trigger] collapse_dots(s)[i]) == '_' || exists|
                j: int,
            | 0 <= j < s.len() && s[j] == collapse_dots(s)[i],
    decreases s.len(),
{
    if s.len() >= 2 && s[0] == '.' && s[1] == '.' {
        lemma_collapse_chars(s.skip(2));
        assert forall|i: int|
            0 <= i < collapse_dots(s).len() implies (#[trigger] collapse_dots(s)[i]) == '_'
            || exists|j: int| 0 <= j < s.len() && s[j] == collapse_dots(s)[i] by {
            if i > 0 {
                let c = collapse_dots(s)[i];
                assert(c == collapse_dots(s.skip(2))[i - 1]);
                if c != '_' {
                    let j = choose|j: int| 0 <= j < s.skip(2).len() && s.skip(2)[j] == c;
                    assert(s[j + 2] == c);
                }
            }
        }
    } else if s.len() >= 1 {
        lemma_collapse_chars(s.skip(1));
        assert forall|i: int|
            0 <= i < collapse_dots(s).len() implies (#[trigger] collapse_dots(s)[i]) == '_'
            || exists|j: int| 0 <= j < s.len() && s[j] == collapse_dots(s)[i] by {
            if i == 0 {
                assert(collapse_dots(s)[0] == s[0]);
            } else {
                let c = collapse_dots(s)[i];
                assert(c == collapse_dots(s.skip(1))[i - 1]);
                if c != '_' {
                    let j = choose|j: int| 0 <= j < s.skip(1).len() && s.skip(1)[j] == c;
                    assert(s[j + 1] == c);
                }
            }
        }
    }
}

/// The collapsed run never holds two dots in a row, and it opens with an
/// underscore or the input's first character.
proof fn lemma_collapse_no_dotdot(s: Seq<char>)
    ensures
        forall|i: int|
            0 <= i && i + 1 < collapse_dots(s).len() ==> !((#[trigger] collapse_dots(s)[i]) == '.'
                && collapse_dots(s)[i + 1] == '.'),
        collapse_dots(s).len() > 0 ==> (collapse_dots(s)[0] == '_' || collapse_dots(s)[0] == s[0]),
    decreases s.len(),
{
    if s.len() >= 2 && s[0] == '.' && s[1] == '.' {
        lemma_collapse_no_dotdot(s.skip(2));
        let r = collapse_dots(s);
        let rest = collapse_dots(s.skip(2));
        assert(r == seq!['_'] + rest);
        assert(r.len() == 1 + rest.len());
        assert forall|i: int|
            0 <= i && i + 1 < r.len() implies !((#[trigger] r[i]) == '.' && r[i + 1] == '.') by {
            if i == 0 {
                assert(r[0] == '_');
            } else {
                assert(r[i] == rest[i - 1]);
                assert(r[i + 1] == rest[i]);
            }
        }
    } else if s.len() >= 1 {
        lemma_collapse_no_dotdot(s.skip(1));
        let r = collapse_dots(s);
        let rest = collapse_dots(s.skip(1));
        assert(r == seq![s[0]] + rest);
        assert(r.len() == 1 + rest.len());
        assert forall|i: int|
            0 <= i && i + 1 < r.len() implies !((#[trigger] r[i]) == '.' && r[i + 1] == '.') by {
            if i == 0 {
                assert(r[0] == s[0]);
                assert(r[1] == rest[0]);
                if s[0] == '.' && rest.len() > 0 {
                    if rest[0] == '_' {
                    } else {
                        assert(rest[0] == s.skip(1)[0]);
                        assert(s.skip(1)[0] == s[1]);
                        if s[1] == '.' {
                            assert(s.len() >= 2 && s[0] == '.' && s[1] == '.');
                            assert(false);
                        }
                    }
                }
            } else {
                assert(r[i] == rest[i - 1]);
                assert(r[i + 1] == rest[i]);
            }
        }
    }
}

/// Collapsing empties a run only when the run is empty.
proof fn lemma_collapse_len(s: Seq<char>)
    ensures
        collapse_dots(s).len() == 0 <==> s.len() == 0,
        collapse_dots(s).len() <= s.len(),
    decreases s.len(),
{
    if s.len() >= 2 && s[0] == '.' && s[1] == '.' {
        lemma_collapse_len(s.skip(2));
    } else if s.len() >= 1 {
        lemma_collapse_len(s.skip(1));
    }
}

/// Replaces separators and whitespace with underscores.
#[verifier::loop_isolation(false)]
fn mask_seps_exec(key: &String) -> (r: String)
    ensures
        r@ == mask_seps(key@),
{
    let n = key.as_str().unicode_len();
    let mut out = String::new();
    let mut i: usize = 0;
    while i < n
        invariant
            0 <= i <= n,
            n as nat == key@.len(),
            out@ =~= mask_seps(key@).take(i as int),
        decreases n - i,
    {
        let c = key.as_str().get_char(i);
        if c == '/' || c == '\\' || c == ' ' || c == '\t' || c == '\n' || c == '\r' {
            proof {
                reveal_strlit("_");
            }
            out.append("_");
        } else {
            let piece = key.as_str().substring_char(i, i + 1);
            out.append(piece);
        }
        proof {
            assert(out@ =~= mask_seps(key@).take(i + 1));
        }
        i += 1;
    }
    proof {
        assert(mask_seps(key@).take(n as int) =~= mask_seps(key@));
    }
    out
}

/// Collapses every `..` pair into one underscore, left to right.
#[verifier::loop_isolation(false)]
fn collapse_dots_exec(s: &String) -> (r: String)
    ensures
        r@ == collapse_dots(s@),
{
    let n = s.as_str().unicode_len();
    let mut out = String::new();
    let mut i: usize = 0;
    proof {
        assert(s@.skip(0) =~= s@);
        assert(Seq::<char>::empty() + collapse_dots(s@) =~= collapse_dots(s@));
    }
    while i < n
        invariant
            0 <= i <= n,
            n as nat == s@.len(),
            out@ + collapse_dots(s@.skip(i as int)) =~= collapse_dots(s@),
        decreases n - i,
    {
        let ghost pre = out@;
        if i + 1 < n && s.as_str().get_char(i) == '.' && s.as_str().get_char(i + 1) == '.' {
            proof {
                reveal_strlit("_");
            }
            out.append("_");
            proof {
                assert(s@.skip(i as int).len() >= 2);
                assert(s@.skip(i as int)[0] == '.');
                assert(s@.skip(i as int)[1] == '.');
                assert(s@.skip(i as int).skip(2) =~= s@.skip(i + 2));
                assert(collapse_dots(s@.skip(i as int)) == seq!['_'] + collapse_dots(
                    s@.skip(i + 2),
                ));
                assert(out@ + collapse_dots(s@.skip(i + 2)) =~= collapse_dots(s@));
            }
            i += 2;
        } else {
            let piece = s.as_str().substring_char(i, i + 1);
            out.append(piece);
            proof {
                let tail = s@.skip(i as int);
                assert(tail.len() >= 1);
                assert(tail[0] == s@[i as int]);
                if tail.len() >= 2 {
                    assert(tail[1] == s@[i + 1]);
                }
                assert(collapse_dots(tail) == seq![tail[0]] + collapse_dots(tail.skip(1)));
                assert(tail.skip(1) =~= s@.skip(i + 1));
                assert(piece@ =~= seq![s@[i as int]]);
                assert(out@ + collapse_dots(s@.skip(i + 1)) =~= collapse_dots(s@));
            }
            i += 1;
        }
    }
    proof {
        assert(s@.skip(n as int) =~= Seq::<char>::empty());
        assert(out@ + collapse_dots(s@.skip(n as int)) =~= out@);
    }
    out
}

/// Sanitizes a storage key into a safe file-name stem: separators,
/// whitespace and `..` pairs become underscores, and a key that sanitizes
/// to nothing is rejected as `InvalidKey`.
pub fn sanitize_key(key: &String) -> (r: Result<String, ServiceError>)
    ensures
        match r {
            Ok(k) => k@ == sanitize_spec(key@) && key@.len() > 0,
            Err(e) => e is InvalidKey && key@.len() == 0,
        },
{
    let masked = mask_seps_exec(key);
    let collapsed = collapse_dots_exec(&masked);
    proof {
        lemma_sanitize_nonempty(key@);
    }
    if collapsed.as_str().unicode_len() == 0 {
        Err(ServiceError::InvalidKey)
    } else {
        Ok(collapsed)
    }
}

/// One stored object of the cold tier: a sanitized key and its frame.
pub struct StoredObject {
    pub key: String,
    pub frame: Frame,
}

/// The mathematical value of a `StoredObject`.
pub struct ObjectV {
    pub key: Seq<char>,
    pub frame: FrameV,
}

impl View for StoredObject {
    type V = ObjectV;

    open spec fn view(&self) -> ObjectV {
        ObjectV { key: self.key@, frame: self.frame@ }
    }
}

impl DeepView for StoredObject {
    type V = ObjectV;

    open spec fn deep_view(&self) -> ObjectV {
        self.view()
    }
}

/// Index of the first object at or after `from` with the given key, or -1.
pub open spec fn find_obj_from(s: Seq<ObjectV>, key: Seq<char>, from: int) -> int
    decreases s.len() - from,
{
    if from < 0 || from >= s.len() {
        -1
    } else if s[from].key == key {
        from
    } else {
        find_obj_from(s, key, from + 1)
    }
}

/// Index of the first object with the given key, or -1 when absent.
pub open spec fn find_obj(s: Seq<ObjectV>, key: Seq<char>) -> int {
    find_obj_from(s, key, 0)
}

/// All object keys are pairwise distinct.
pub open spec fn obj_keys_distinct(s: Seq<ObjectV>) -> bool {
    forall|i: int, j: int| 0 <= i < j < s.len() ==> s[i].key != s[j].key
}

/// `find_obj_from` returns a real index of an object with the key, or -1
/// and then no object at or after `from` carries the key.
pub proof fn lemma_find_obj_from_spec(s: Seq<ObjectV>, key: Seq<char>, from: int)
    requires
        0 <= from,
    ensures
        find_obj_from(s, key, from) >= 0 ==> from <= find_obj_from(s, key, from) < s.len()
            && s[find_obj_from(s, key, from)].key == key,
        find_obj_from(s, key, from) == -1 ==> forall|i: int|
            from <= i < s.len() ==> (#[trigger] s[i]).key != key,
        find_obj_from(s, key, from) == -1 || from <= find_obj_from(s, key, from) < s.len(),
    decreases s.len() - from,
{
    if from < s.len() {
        lemma_find_obj_from_spec(s, key, from + 1);
    }
}

/// `find_obj` over the whole run.
pub proof fn lemma_find_obj_spec(s: Seq<ObjectV>, key: Seq<char>)
    ensures
        find_obj(s, key) >= 0 ==> find_obj(s, key) < s.len() && s[find_obj(s, key)].key == key,
        find_obj(s, key) == -1 ==> forall|i: int| 0 <= i < s.len() ==> (#[trigger] s[i]).key != key,
        -1 <= find_obj(s, key) < s.len(),
{
    lemma_find_obj_from_spec(s, key, 0);
}

/// What storing a key does to the cold tier: an existing object is
/// replaced in place, a new one is appended.
pub open spec fn put_spec(s: Seq<ObjectV>, key: Seq<char>, f: FrameV) -> Seq<ObjectV> {
    let idx = find_obj(s, key);
    if idx >= 0 {
        s.update(idx, ObjectV { key, frame: f })
    } else {
        s.push(ObjectV { key, frame: f })
    }
}

/// The estimated resident bytes of one frame, saturating at the largest
/// `u64` as the frame's own estimate does.
pub open spec fn est_frame_bytes(f: FrameV) -> int {
    let e = crate::frame::est_total(f.cols);
    if e > u64::MAX {
        u64::MAX as int
    } else {
        e
    }
}

/// The saturating sum of the first `n` objects' estimated bytes.
pub open spec fn objs_bytes_prefix(s: Seq<ObjectV>, n: int) -> int
    decreases n,
{
    if n <= 0 {
        0
    } else {
        let x = objs_bytes_prefix(s, n - 1) + est_frame_bytes(s[n - 1].frame);
        if x > u64::MAX {
            u64::MAX as int
        } else {
            x
        }
    }
}

/// The cold tier, modelled as the keyed objects it holds: the filesystem
/// form of each object (one compressed file per sanitized key under the
/// configured base) lives outside the verified core.
pub struct ParquetBackend {
    pub objects: Vec<StoredObject>,
}

impl ParquetBackend {
    pub open spec fn objs(self) -> Seq<ObjectV> {
        self.objects.deep_view()
    }

    /// Cold-tier invariant: distinct sanitized keys and well-formed frames.
    pub open spec fn wf(self) -> bool {
        &&& obj_keys_distinct(self.objs())
        &&& forall|i: int|
            0 <= i < self.objs().len() ==> (#[trigger] self.objs()[i]).frame.wf()
                && self.objs()[i].key.len() > 0
    }

    pub fn new() -> (r: ParquetBackend)
        ensures
            r.wf(),
            r.objs().len() == 0,
    {
        ParquetBackend { objects: Vec::new() }
    }

    /// Index of the object stored under the (already sanitized) key.
    #[verifier::loop_isolation(false)]
    fn find_object(&self, key: &String) -> (r: Option<usize>)
        ensures
            match r {
                Some(i) => find_obj(self.objs(), key@) == i as int,
                None => find_obj(self.objs(), key@) == -1,
            },
    {
        let mut i: usize = 0;
        while i < self.objects.len()
            invariant
                0 <= i <= self.objs().len(),
                find_obj_from(self.objs(), key@, 0) == find_obj_from(
                    self.objs(),
                    key@,
                    i as int,
                ),
            decreases self.objects.len() - i,
        {
            if self.objects[i].key == *key {
                return Some(i);
            }
            i += 1;
        }
        None
    }

    /// Stores a frame under the sanitized key, overwriting any prior value.
    /// An empty key is rejected as `InvalidKey`.
    pub fn store(&mut self, key: &String, frame: Frame) -> (r: Result<(), ServiceError>)
        requires
            old(self).wf(),
            frame.wf(),
        ensures
            final(self).wf(),
            match r {
                Ok(()) => {
                    &&& key@.len() > 0
                    &&& final(self).objs() == put_spec(
                        old(self).objs(),
                        sanitize_spec(key@),
                        frame@,
                    )
                },
                Err(e) => {
                    &&& e is InvalidKey
                    &&& key@.len() == 0
                    &&& final(self).objs() == old(self).objs()
                },
            },
            key@.len() > 0 <==> r is Ok,
    {
        let sane = match sanitize_key(key) {
            Ok(k) => k,
            Err(e) => {
                return Err(e);
            },
        };
        let ghost pre = self.objs();
        proof {
            lemma_find_obj_spec(pre, sane@);
            lemma_sanitize_nonempty(key@);
        }
        match self.find_object(&sane) {
            Some(i) => {
                let ghost idx = i as int;
                let ghost snap = self.objects@;
                self.objects.remove(i);
                self.objects.insert(i, StoredObject { key: sane, frame });
                proof {
                    assert forall|t: int|
                        0 <= t < self.objects@.len() implies #[trigger] self.objects@[t]@
                        == put_spec(pre, sanitize_spec(key@), frame@)[t] by {
                        if t < idx {
                            assert(self.objects@[t] == snap[t]);
                        } else if t > idx {
                            assert(self.objects@[t] == snap[t]);
                        }
                    }
                    assert(self.objs() =~= put_spec(pre, sanitize_spec(key@), frame@));
                    lemma_put_wf(pre, sanitize_spec(key@), frame@);
                }
            },
            None => {
                self.objects.push(StoredObject { key: sane, frame });
                proof {
                    assert(self.objs() =~= put_spec(pre, sanitize_spec(key@), frame@));
                    lemma_put_wf(pre, sanitize_spec(key@), frame@);
                }
            },
        }
        Ok(())
    }

    /// Loads the frame stored under the sanitized key, if any. An empty
    /// key is rejected as `InvalidKey`.
    pub fn load(&self, key: &String) -> (r: Result<Option<Frame>, ServiceError>)
        requires
            self.wf(),
        ensures
            match r {
                Ok(out) => {
                    &&& key@.len() > 0
                    &&& ({
                        let idx = find_obj(self.objs(), sanitize_spec(key@));
                        match out {
                            Some(f) => idx >= 0 && f@ == self.objs()[idx].frame && f.wf(),
                            None => idx == -1,
                        }
                    })
                },
                Err(e) => e is InvalidKey && key@.len() == 0,
            },
            key@.len() > 0 <==> r is Ok,
    {
        let sane = match sanitize_key(key) {
            Ok(k) => k,
            Err(e) => {
                return Err(e);
            },
        };
        proof {
            lemma_find_obj_spec(self.objs(), sane@);
        }
        match self.find_object(&sane) {
            Some(i) => Ok(Some(self.objects[i].frame.duplicate())),
            None => Ok(None),
        }
    }

    /// The stored keys, in insertion order.
    #[verifier::loop_isolation(false)]
    pub fn list_keys(&self) -> (r: Vec<String>)
        ensures
            r.deep_view().len() == self.objs().len(),
            forall|i: int|
                0 <= i < r.deep_view().len() ==> #[trigger] r.deep_view()[i] == self.objs()[i].key,
    {
        let mut out: Vec<String> = Vec::new();
        let mut i: usize = 0;
        while i < self.objects.len()
            invariant
                0 <= i <= self.objects@.len(),
                out.deep_view().len() == i as int,
                forall|t: int| 0 <= t < i ==> #[trigger] out.deep_view()[t] == self.objs()[t].key,
            decreases self.objects.len() - i,
        {
            proof {
                assert forall|t: int| 0 <= t < i implies #[trigger] out@[t]@
                    == self.objs()[t].key by {
                    assert(out.deep_view()[t] == out@[t]@);
                }
            }
            let ghost snap = out@;
            out.push(self.objects[i].key.clone());
            proof {
                assert(self.objs()[i as int] == self.objects@[i as int]@);
                assert forall|t: int| 0 <= t < i + 1 implies #[trigger] out.deep_view()[t]
                    == self.objs()[t].key by {
                    assert(out.deep_view()[t] == out@[t]@);
                    if t < i {
                        assert(out@[t] == snap[t]);
                    }
                }
            }
            i += 1;
        }
        out
    }

    /// Deletes the object under the sanitized key; a missing object is not
    /// an error. An empty key is rejected as `InvalidKey`.
    pub fn delete(&mut self, key: &String) -> (r: Result<(), ServiceError>)
        requires
            old(self).wf(),
        ensures
            final(self).wf(),
            match r {
                Ok(()) => {
                    &&& key@.len() > 0
                    &&& ({
                        let idx = find_obj(old(self).objs(), sanitize_spec(key@));
                        if idx == -1 {
                            final(self).objs() == old(self).objs()
                        } else {
                            final(self).objs() == old(self).objs().remove(idx)
                        }
                    })
                },
                Err(e) => e is InvalidKey && key@.len() == 0 && final(self).objs() == old(
                    self,
                ).objs(),
            },
            key@.len() > 0 <==> r is Ok,
    {
        let sane = match sanitize_key(key) {
            Ok(k) => k,
            Err(e) => {
                return Err(e);
            },
        };
        let ghost pre = self.objs();
        proof {
            lemma_find_obj_spec(pre, sane@);
        }
        match self.find_object(&sane) {
            None => Ok(()),
            Some(i) => {
                let ghost idx = i as int;
                let ghost snap = self.objects@;
                self.objects.remove(i);
                proof {
                    assert forall|t: int|
                        0 <= t < self.objects@.len() implies #[trigger] self.objects@[t]@
                        == pre.remove(idx)[t] by {
                        if t < idx {
                            assert(self.objects@[t] == snap[t]);
                        } else {
                            assert(self.objects@[t] == snap[t + 1]);
                        }
                    }
                    assert(self.objs() =~= pre.remove(idx));
                    lemma_obj_remove_wf(pre, idx);
                }
                Ok(())
            },
        }
    }

    /// Held keys and the summed estimated bytes of the stored frames,
    /// saturating at the largest `u64`.
    #[verifier::loop_isolation(false)]
    pub fn stats(&self) -> (r: StorageStats)
        ensures
            r.total_keys as nat == self.objs().len(),
            r.total_size_bytes as int == objs_bytes_prefix(
                self.objs(),
                self.objs().len() as int,
            ),
            r.cache_hits == 0,
            r.cache_misses == 0,
            r.compression_ratio_percent == 100,
    {
        let mut size: u64 = 0;
        let mut i: usize = 0;
        while i < self.objects.len()
            invariant
                0 <= i <= self.objects@.len(),
                size as int == objs_bytes_prefix(self.objs(), i as int),
            decreases self.objects.len() - i,
        {
            let b = self.objects[i].frame.estimated_bytes();
            proof {
                assert(self.objs()[i as int] == self.objects@[i as int]@);
                crate::frame::lemma_est_total_nonneg(self.objs()[i as int].frame.cols);
                assert(b as int == est_frame_bytes(self.objs()[i as int].frame));
            }
            size = if size <= u64::MAX - b {
                size + b
            } else {
                u64::MAX
            };
            i += 1;
        }
        StorageStats {
            total_keys: self.objects.len() as u64,
            total_size_bytes: size,
            cache_hits: 0,
            cache_misses: 0,
            compression_ratio_percent: 100,
        }
    }
}

/// Putting keeps the cold-tier invariant.
pub proof fn lemma_put_wf(s: Seq<ObjectV>, key: Seq<char>, f: FrameV)
    requires
        obj_keys_distinct(s),
        forall|i: int|
            0 <= i < s.len() ==> (#[trigger] s[i]).frame.wf() && s[i].key.len() > 0,
        f.wf(),
        key.len() > 0,
    ensures
        obj_keys_distinct(put_spec(s, key, f)),
        forall|i: int|
            0 <= i < put_spec(s, key, f).len() ==> (#[trigger] put_spec(s, key, f)[i]).frame.wf()
                && put_spec(s, key, f)[i].key.len() > 0,
{
    lemma_find_obj_spec(s, key);
    let idx = find_obj(s, key);
    let post = put_spec(s, key, f);
    if idx >= 0 {
        assert forall|i: int, j: int| 0 <= i < j < post.len() implies post[i].key
            != post[j].key by {
            if i != idx {
                assert(post[i] == s[i]);
            }
            if j != idx {
                assert(post[j] == s[j]);
            }
        }
        assert forall|i: int|
            0 <= i < post.len() implies (#[trigger] post[i]).frame.wf() && post[i].key.len()
            > 0 by {
            if i != idx {
                assert(post[i] == s[i]);
            }
        }
    } else {
        assert forall|i: int, j: int| 0 <= i < j < post.len() implies post[i].key
            != post[j].key by {
            if j < post.len() - 1 {
                assert(post[i] == s[i] && post[j] == s[j]);
            } else {
                assert(post[i] == s[i]);
            }
        }
        assert forall|i: int|
            0 <= i < post.len() implies (#[trigger] post[i]).frame.wf() && post[i].key.len()
            > 0 by {
            if i < post.len() - 1 {
                assert(post[i] == s[i]);
            }
        }
    }
}

/// Removing keeps the cold-tier invariant.
pub proof fn lemma_obj_remove_wf(s: Seq<ObjectV>, idx: int)
    requires
        obj_keys_distinct(s),
        0 <= idx < s.len(),
        forall|i: int|
            0 <= i < s.len() ==> (#[trigger] s[i]).frame.wf() && s[i].key.len() > 0,
    ensures
        obj_keys_distinct(s.remove(idx)),
        forall|i: int|
            0 <= i < s.remove(idx).len() ==> (#[trigger] s.remove(idx)[i]).frame.wf() && s.remove(
                idx,
            )[i].key.len() > 0,
{
    let post = s.remove(idx);
    assert forall|i: int, j: int| 0 <= i < j < post.len() implies post[i].key != post[j].key by {
        let pi: int = if i < idx {
            i
        } else {
            i + 1
        };
        let pj: int = if j < idx {
            j
        } else {
            j + 1
        };
        assert(post[i] == s[pi]);
        assert(post[j] == s[pj]);
    }
    assert forall|i: int|
        0 <= i < post.len() implies (#[trigger] post[i]).frame.wf() && post[i].key.len() > 0 by {
        if i < idx {
            assert(post[i] == s[i]);
        } else {
            assert(post[i] == s[i + 1]);
        }
    }
}

/// The saturating sum of a run of byte counts, as the cold tier's size
/// total uses it.
#[verifier::loop_isolation(false)]
pub fn sum_bytes_saturating(sizes: &Vec<u64>) -> (r: u64)
    ensures
        r as int == sat_sum_prefix(sizes@, sizes@.len() as int),
{
    let mut acc: u64 = 0;
    let mut i: usize = 0;
    while i < sizes.len()
        invariant
            0 <= i <= sizes@.len(),
            acc as int == sat_sum_prefix(sizes@, i as int),
        decreases sizes.len() - i,
    {
        let b = sizes[i];
        acc = if acc <= u64::MAX - b {
            acc + b
        } else {
            u64::MAX
        };
        i += 1;
    }
    acc
}

/// The saturating sum of the first `n` byte counts.
pub open spec fn sat_sum_prefix(sizes: Seq<u64>, n: int) -> int
    decreases n,
{
    if n <= 0 {
        0
    } else {
        let x = sat_sum_prefix(sizes, n - 1) + sizes[n - 1];
        if x > u64::MAX {
            u64::MAX as int
        } else {
            x
        }
    }
}

/// The cold tier's compression ratio in percent, estimated from row-group
/// metadata of at most the first ten stored files: the summed uncompressed
/// bytes over the summed compressed bytes, and 100 when nothing is there.
#[verifier::loop_isolation(false)]
pub fn compression_ratio_percent(meta: &Vec<(u64, u64)>) -> (r: u64)
    ensures
        ({
            let n = if meta@.len() <= 10 {
                meta@.len() as int
            } else {
                10
            };
            let unc = sum_first(meta@, n, true);
            let comp = sum_first(meta@, n, false);
            if comp == 0 {
                r == 100
            } else if unc * 100 / comp <= u64::MAX {
                r as int == unc * 100 / comp
            } else {
                r == u64::MAX
            }
        }),
{
    let n: usize = if meta.len() <= 10 {
        meta.len()
    } else {
        10
    };
    let mut unc: u128 = 0;
    let mut comp: u128 = 0;
    let mut i: usize = 0;
    while i < n
        invariant
            0 <= i <= n,
            n as int <= meta@.len(),
            unc == sum_first(meta@, i as int, true),
            comp == sum_first(meta@, i as int, false),
            unc <= i as int * (u64::MAX as int),
            comp <= i as int * (u64::MAX as int),
        decreases n - i,
    {
        unc = unc + (meta[i].0 as u128);
        comp = comp + (meta[i].1 as u128);
        i += 1;
    }
    if comp == 0 {
        100
    } else {
        let ratio: u128 = unc * 100 / comp;
        proof {
            assert(unc * 100 <= u128::MAX) by (nonlinear_arith)
                requires
                    unc <= 10 * (u64::MAX as int),
            {}
            if ratio > u64::MAX as u128 {
                assert(ratio as int == unc as int * 100 / (comp as int));
            }
        }
        if ratio > u64::MAX as u128 {
            u64::MAX
        } else {
            ratio as u64
        }
    }
}

/// Summed uncompressed (or compressed) bytes of the first `n` entries.
pub open spec fn sum_first(meta: Seq<(u64, u64)>, n: int, uncompressed: bool) -> int
    decreases n,
{
    if n <= 0 {
        0
    } else {
        sum_first(meta, n - 1, uncompressed) + if uncompressed {
            meta[n - 1].0 as int
        } else {
            meta[n - 1].1 as int
        }
    }
}

/// The hybrid storage engine: a hot cache in front of the cold tier.
/// Reads go cache first and warm the cache from the cold tier on a miss;
/// writes go to both tiers.
pub struct HybridStorage {
    pub cache: crate::cache::CacheBackend,
    pub cold: ParquetBackend,
}

impl HybridStorage {
    pub open spec fn wf(self) -> bool {
        self.cache.wf() && self.cold.wf()
    }

    pub fn new(cache_capacity: usize) -> (r: HybridStorage)
        requires
            cache_capacity >= 1,
        ensures
            r.wf(),
            r.cache.view_entries().len() == 0,
            r.cold.objs().len() == 0,
            r.cache.capacity == cache_capacity,
            r.cache.hits == 0,
            r.cache.misses == 0,
    {
        HybridStorage {
            cache: crate::cache::CacheBackend::new(cache_capacity),
            cold: ParquetBackend::new(),
        }
    }

    /// Writes to both tiers, cache first. When the cold tier rejects the
    /// key, the operation fails `PartialStore` naming the cache as the tier
    /// that took the value.
    pub fn store(&mut self, key: &String, frame: Frame) -> (r: Result<(), ServiceError>)
        requires
            old(self).wf(),
            frame.wf(),
        ensures
            final(self).wf(),
            final(self).cache.view_entries() == crate::cache::store_spec(
                old(self).cache.view_entries(),
                old(self).cache.capacity as nat,
                key@,
                frame@,
            ),
            final(self).cache.hits == old(self).cache.hits,
            final(self).cache.misses == old(self).cache.misses,
            final(self).cache.capacity == old(self).cache.capacity,
            match r {
                Ok(()) => key@.len() > 0 && final(self).cold.objs() == put_spec(
                    old(self).cold.objs(),
                    sanitize_spec(key@),
                    frame@,
                ),
                Err(e) => (e matches ServiceError::PartialStore(t) && t is Cache) && key@.len()
                    == 0 && final(self).cold.objs() == old(self).cold.objs(),
            },
            key@.len() > 0 <==> r is Ok,
    {
        let copy = frame.duplicate();
        self.cache.store(key, copy);
        match self.cold.store(key, frame) {
            Ok(()) => Ok(()),
            Err(_) => Err(ServiceError::PartialStore(Tier::Cache)),
        }
    }

    /// Reads through: a cache hit answers at once; otherwise the cold tier
    /// is consulted and a found frame warms the cache before it is
    /// returned.
    pub fn load(&mut self, key: &String) -> (r: Result<Option<Frame>, ServiceError>)
        requires
            old(self).wf(),
        ensures
            final(self).wf(),
            final(self).cold.objs() == old(self).cold.objs(),
            final(self).cache.capacity == old(self).cache.capacity,
            ({
                let centry = crate::cache::find_key(old(self).cache.view_entries(), key@);
                if centry >= 0 {
                    // cache hit: promoted, counted, answered from the cache
                    &&& (r matches Ok(Some(f)) && f@ == old(self).cache.view_entries()[centry].frame)
                    &&& final(self).cache.view_entries() == crate::cache::promote_spec(
                        old(self).cache.view_entries(),
                        centry,
                    )
                    &&& final(self).cache.hits == crate::cache::bump(old(self).cache.hits)
                    &&& final(self).cache.misses == old(self).cache.misses
                } else if key@.len() == 0 {
                    &&& (r matches Err(e) && e is InvalidKey)
                    &&& final(self).cache.view_entries() == old(self).cache.view_entries()
                    &&& final(self).cache.misses == crate::cache::bump(old(self).cache.misses)
                    &&& final(self).cache.hits == old(self).cache.hits
                } else {
                    let cobj = find_obj(old(self).cold.objs(), sanitize_spec(key@));
                    &&& final(self).cache.misses == crate::cache::bump(old(self).cache.misses)
                    &&& final(self).cache.hits == old(self).cache.hits
                    &&& if cobj >= 0 {
                        // cold hit: the cache is warmed with the loaded frame
                        &&& (r matches Ok(Some(f)) && f@ == old(self).cold.objs()[cobj].frame)
                        &&& final(self).cache.view_entries() == crate::cache::store_spec(
                            old(self).cache.view_entries(),
                            old(self).cache.capacity as nat,
                            key@,
                            old(self).cold.objs()[cobj].frame,
                        )
                    } else {
                        (r matches Ok(out) && out is None) && final(self).cache.view_entries()
                            == old(self).cache.view_entries()
                    }
                }
            }),
    {
        let ghost pre_cache = self.cache;
        let res = self.cache.load(key);
        proof {
            assert(pre_cache == old(self).cache);
            crate::cache::lemma_find_key_spec(pre_cache.view_entries(), key@);
        }
        match res {
            Some(f) => {
                proof {
                    assert(res is Some);
                    assert(self.cache.capacity == old(self).cache.capacity);
                    let centry = crate::cache::find_key(pre_cache.view_entries(), key@);
                    assert(centry >= 0);
                    assert(f@ == old(self).cache.view_entries()[centry].frame);
                    assert(self.cache.view_entries() == crate::cache::promote_spec(
                        old(self).cache.view_entries(),
                        centry,
                    ));
                    assert(self.cache.hits == crate::cache::bump(old(self).cache.hits));
                    assert(self.cold.objs() == old(self).cold.objs());
                }
                Ok(Some(f))
            },
            None => {
                match self.cold.load(key) {
                    Err(e) => {
                        proof {
                            assert(key@.len() == 0);
                            assert(e is InvalidKey);
                        }
                        Err(e)
                    },
                    Ok(None) => {
                        proof {
                            let cobj = find_obj(old(self).cold.objs(), sanitize_spec(key@));
                            assert(cobj == -1);
                            assert(self.cache.misses == crate::cache::bump(old(self).cache.misses));
                            assert(self.cache.view_entries() == old(self).cache.view_entries());
                        }
                        Ok(None)
                    },
                    Ok(Some(f)) => {
                        let warm = f.duplicate();
                        self.cache.store(key, warm);
                        proof {
                            let cobj = find_obj(old(self).cold.objs(), sanitize_spec(key@));
                            assert(cobj >= 0);
                            assert(f@ == old(self).cold.objs()[cobj].frame);
                            assert(self.cache.misses == crate::cache::bump(old(self).cache.misses));
                            assert(self.cache.view_entries() == crate::cache::store_spec(
                                old(self).cache.view_entries(),
                                old(self).cache.capacity as nat,
                                key@,
                                old(self).cold.objs()[cobj].frame,
                            ));
                        }
                        Ok(Some(f))
                    },
                }
            },
        }
    }

    /// Deletes from both tiers; a missing entry in either tier is not an
    /// error. An empty key is rejected as `InvalidKey`.
    pub fn delete(&mut self, key: &String) -> (r: Result<(), ServiceError>)
        requires
            old(self).wf(),
        ensures
            final(self).wf(),
            key@.len() > 0 <==> r is Ok,
            final(self).cache.hits == old(self).cache.hits,
            final(self).cache.misses == old(self).cache.misses,
            final(self).cache.capacity == old(self).cache.capacity,
            ({
                let centry = crate::cache::find_key(old(self).cache.view_entries(), key@);
                final(self).cache.view_entries() == if centry >= 0 {
                    old(self).cache.view_entries().remove(centry)
                } else {
                    old(self).cache.view_entries()
                }
            }),
            ({
                let cobj = find_obj(old(self).cold.objs(), sanitize_spec(key@));
                if r is Ok {
                    final(self).cold.objs() == if cobj >= 0 {
                        old(self).cold.objs().remove(cobj)
                    } else {
                        old(self).cold.objs()
                    }
                } else {
                    final(self).cold.objs() == old(self).cold.objs()
                }
            }),
    {
        proof {
            crate::cache::lemma_find_key_spec(old(self).cache.view_entries(), key@);
            lemma_find_obj_spec(old(self).cold.objs(), sanitize_spec(key@));
        }
        self.cache.delete(key);
        self.cold.delete(key)
    }

    /// The authoritative key listing comes from the cold tier.
    pub fn list_keys(&self) -> (r: Vec<String>)
        ensures
            r.deep_view().len() == self.cold.objs().len(),
            forall|i: int|
                0 <= i < r.deep_view().len() ==> #[trigger] r.deep_view()[i]
                    == self.cold.objs()[i].key,
    {
        self.cold.list_keys()
    }

    /// A read-through SQL engine is not part of this build: every query
    /// fails `Unsupported`.
    pub fn query(&self, _sql: &String) -> (r: Result<Frame, ServiceError>)
        ensures
            r matches Err(e) && e is Unsupported,
    {
        Err(ServiceError::Unsupported)
    }

    /// Cold-tier totals beside the cache counters.
    pub fn stats(&self) -> (r: StorageStats)
        ensures
            r.total_keys as nat == self.cold.objs().len(),
            r.total_size_bytes as int == objs_bytes_prefix(
                self.cold.objs(),
                self.cold.objs().len() as int,
            ),
            r.cache_hits == self.cache.hits,
            r.cache_misses == self.cache.misses,
            r.compression_ratio_percent == 100,
    {
        let cold = self.cold.stats();
        StorageStats {
            total_keys: cold.total_keys,
            total_size_bytes: cold.total_size_bytes,
            cache_hits: self.cache.hits,
            cache_misses: self.cache.misses,
            compression_ratio_percent: cold.compression_ratio_percent,
        }
    }
}

/// Read-through agreement: after a successful `store(k)`, a `load(k)` on
/// the resulting state answers from the cache with the stored frame.
pub proof fn lemma_store_then_load(
    pre: Seq<crate::cache::EntryV>,
    cap: nat,
    k: Seq<char>,
    f: FrameV,
)
    requires
        cap >= 1,
        crate::cache::keys_distinct(pre),
    ensures
        ({
            let post = crate::cache::store_spec(pre, cap, k, f);
            let idx = crate::cache::find_key(post, k);
            idx == post.len() - 1 && post[idx].frame == f
        }),
{
    let post = crate::cache::store_spec(pre, cap, k, f);
    let idx0 = crate::cache::find_key(pre, k);
    crate::cache::lemma_find_key_spec(pre, k);
    let base: Seq<crate::cache::EntryV> = if idx0 >= 0 {
        pre.remove(idx0)
    } else if pre.len() >= cap {
        pre.drop_first()
    } else {
        pre
    };
    if idx0 >= 0 {
        crate::cache::lemma_remove_clears_key(pre, idx0);
    }
    assert forall|t: int| 0 <= t < base.len() implies (#[trigger] base[t]).key != k by {
        if idx0 >= 0 {
        } else if pre.len() >= cap {
            assert(base[t] == pre[t + 1]);
        } else {
            assert(base[t] == pre[t]);
        }
    }
    crate::cache::lemma_find_key_spec(post, k);
    let idx = crate::cache::find_key(post, k);
    assert(post[post.len() - 1].key == k);
    if idx == -1 {
    } else if idx < post.len() - 1 {
        assert(post[idx] == base[idx]);
    }
}

} // verus!
