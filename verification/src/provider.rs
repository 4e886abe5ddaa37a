//! Handle provider pieces: the external handle string format, the backend
//! selection, and the in-memory state store keyed by fresh identifiers.
use vstd::prelude::*;

use crate::frame::Frame;
use crate::storage::{
    find_obj, lemma_find_obj_spec, lemma_obj_remove_wf, lemma_put_wf, obj_keys_distinct, put_spec,
    ObjectV, StoredObject,
};
use crate::ServiceError;

verus! {

/// Which backend keeps the frames a handle refers to.
#[derive(Clone, Copy, PartialEq, Eq, Structural, Debug)]
pub enum HandleStoreMode {
    InMemory,
    External,
}

/// A decoded external handle: the backend tag and the store key.
pub struct ExternalHandleRef {
    pub backend: String,
    pub key: String,
}

/// The external handle string: `ext:<backend>:<key>`.
pub open spec fn ext_handle(backend: Seq<char>, key: Seq<char>) -> Seq<char> {
    seq!['e', 'x', 't', ':'] + backend + seq![':'] + key
}

/// Index of the first colon at or after `from`, or -1.
pub open spec fn find_colon_from(s: Seq<char>, from: int) -> int
    decreases s.len() - from,
{
    if from < 0 || from >= s.len() {
        -1
    } else if s[from] == ':' {
        from
    } else {
        find_colon_from(s, from + 1)
    }
}

/// What decoding an external handle yields: the text between the first two
/// colons as the backend and everything after the second colon as the key,
/// provided the scheme before the first colon is `ext`.
pub open spec fn decode_spec(s: Seq<char>) -> Option<(Seq<char>, Seq<char>)> {
    let p1 = find_colon_from(s, 0);
    if p1 < 0 {
        Option::None
    } else if s.take(p1) != seq!['e', 'x', 't'] {
        Option::None
    } else {
        let p2 = find_colon_from(s, p1 + 1);
        if p2 < 0 {
            Option::None
        } else {
            Option::Some((s.subrange(p1 + 1, p2), s.skip(p2 + 1)))
        }
    }
}

/// `find_colon_from` finds a real colon, or -1 and then there is none.
pub proof fn lemma_find_colon_spec(s: Seq<char>, from: int)
    requires
        0 <= from,
    ensures
        find_colon_from(s, from) >= 0 ==> from <= find_colon_from(s, from) < s.len() && s[
            find_colon_from(s, from)] == ':',
        find_colon_from(s, from) == -1 ==> forall|i: int| from <= i < s.len() ==> s[i] != ':',
        find_colon_from(s, from) == -1 || from <= find_colon_from(s, from) < s.len(),
    decreases s.len() - from,
{
    if from < s.len() {
        lemma_find_colon_spec(s, from + 1);
    }
}

/// A colon at `pos` with none before it (at or after `from`) is the one
/// found.
pub proof fn lemma_find_colon_at(s: Seq<char>, from: int, pos: int)
    requires
        0 <= from <= pos < s.len(),
        s[pos] == ':',
        forall|t: int| from <= t < pos ==> s[t] != ':',
    ensures
        find_colon_from(s, from) == pos,
    decreases pos - from,
{
    if from < pos {
        lemma_find_colon_at(s, from + 1, pos);
    }
}

/// Encodes an external handle as `ext:<backend>:<key>`.
pub fn encode_external_handle(backend: &String, key: &String) -> (r: String)
    ensures
        r@ == ext_handle(backend@, key@),
{
    proof {
        reveal_strlit("ext:");
        reveal_strlit(":");
    }
    let mut out = String::new();
    out.append("ext:");
    out.append(backend.as_str());
    out.append(":");
    out.append(key.as_str());
    proof {
        assert(out@ =~= ext_handle(backend@, key@));
    }
    out
}

/// Decodes `ext:<backend>:<key>`; anything else is no external handle.
#[verifier::loop_isolation(false)]
pub fn decode_external_handle(handle: &String) -> (r: Option<ExternalHandleRef>)
    ensures
        match r {
            Some(h) => decode_spec(handle@) == Option::Some((h.backend@, h.key@)),
            None => decode_spec(handle@) is None,
        },
{
    let n = handle.as_str().unicode_len();
    let mut p1: usize = 0;
    while p1 < n && handle.as_str().get_char(p1) != ':'
        invariant
            0 <= p1 <= n,
            n as nat == handle@.len(),
            forall|t: int| 0 <= t < p1 ==> handle@[t] != ':',
        decreases n - p1,
    {
        p1 += 1;
    }
    if p1 >= n {
        proof {
            lemma_find_colon_spec(handle@, 0);
            if find_colon_from(handle@, 0) >= 0 {
                assert(handle@[find_colon_from(handle@, 0)] == ':');
            }
        }
        return None;
    }
    proof {
        lemma_find_colon_at(handle@, 0, p1 as int);
    }
    let scheme_ok = p1 == 3 && handle.as_str().get_char(0) == 'e' && handle.as_str().get_char(1)
        == 'x' && handle.as_str().get_char(2) == 't';
    if !scheme_ok {
        proof {
            let ext = seq!['e', 'x', 't'];
            assert(ext.len() == 3 && ext[0] == 'e' && ext[1] == 'x' && ext[2] == 't');
            assert(handle@.take(p1 as int) != ext) by {
                assert(handle@.take(p1 as int).len() == p1 as int);
                if p1 == 3 {
                    assert(handle@.take(3)[0] == handle@[0]);
                    assert(handle@.take(3)[1] == handle@[1]);
                    assert(handle@.take(3)[2] == handle@[2]);
                }
            }
        }
        return None;
    }
    proof {
        assert(handle@.take(p1 as int) =~= seq!['e', 'x', 't']);
    }
    let mut p2: usize = p1 + 1;
    while p2 < n && handle.as_str().get_char(p2) != ':'
        invariant
            p1 + 1 <= p2 <= n,
            n as nat == handle@.len(),
            forall|t: int| p1 + 1 <= t < p2 ==> handle@[t] != ':',
        decreases n - p2,
    {
        p2 += 1;
    }
    if p2 >= n {
        proof {
            lemma_find_colon_spec(handle@, p1 + 1);
            if find_colon_from(handle@, p1 + 1) >= 0 {
                assert(handle@[find_colon_from(handle@, p1 + 1)] == ':');
            }
        }
        return None;
    }
    proof {
        lemma_find_colon_at(handle@, p1 + 1, p2 as int);
    }
    let backend = handle.as_str().substring_char(p1 + 1, p2);
    let key = handle.as_str().substring_char(p2 + 1, n);
    proof {
        assert(backend@ == handle@.subrange(p1 + 1, p2 as int));
        assert(key@ =~= handle@.skip(p2 + 1));
    }
    Some(
        ExternalHandleRef {
            backend: String::from_str(backend),
            key: String::from_str(key),
        },
    )
}

/// Encoding then decoding an external handle hands the backend and key
/// back unchanged, as long as the backend carries no colon; the key may.
pub proof fn lemma_handle_codec_round_trip(backend: Seq<char>, key: Seq<char>)
    requires
        forall|i: int| 0 <= i < backend.len() ==> backend[i] != ':',
    ensures
        decode_spec(ext_handle(backend, key)) == Option::Some((backend, key)),
{
    let s = ext_handle(backend, key);
    assert(s.len() == 5 + backend.len() + key.len());
    assert(s[3] == ':');
    assert(s[0] == 'e' && s[1] == 'x' && s[2] == 't');
    lemma_find_colon_at(s, 0, 3);
    assert(s.take(3) =~= seq!['e', 'x', 't']);
    let p2 = 4 + backend.len() as int;
    assert(s[p2] == ':');
    assert forall|t: int| 4 <= t < p2 implies s[t] != ':' by {
        assert(s[t] == backend[t - 4]);
    }
    lemma_find_colon_at(s, 4, p2);
    assert(s.subrange(4, p2) =~= backend);
    assert(s.skip(p2 + 1) =~= key);
}

/// Whether a configuration word selects the external store: the word
/// `external`, compared without regard to ASCII case.
pub open spec fn is_external_word(s: Seq<char>) -> bool {
    &&& s.len() == 8
    &&& (s[0] == 'e' || s[0] == 'E')
    &&& (s[1] == 'x' || s[1] == 'X')
    &&& (s[2] == 't' || s[2] == 'T')
    &&& (s[3] == 'e' || s[3] == 'E')
    &&& (s[4] == 'r' || s[4] == 'R')
    &&& (s[5] == 'n' || s[5] == 'N')
    &&& (s[6] == 'a' || s[6] == 'A')
    &&& (s[7] == 'l' || s[7] == 'L')
}

/// Selects the backend from the configuration word: `external` (in any
/// ASCII case) selects the external store, anything else the in-memory
/// registry.
pub fn mode_from_config(s: &String) -> (r: HandleStoreMode)
    ensures
        r is External <==> is_external_word(s@),
{
    let n = s.as_str().unicode_len();
    if n != 8 {
        return HandleStoreMode::InMemory;
    }
    let c0 = s.as_str().get_char(0);
    let c1 = s.as_str().get_char(1);
    let c2 = s.as_str().get_char(2);
    let c3 = s.as_str().get_char(3);
    let c4 = s.as_str().get_char(4);
    let c5 = s.as_str().get_char(5);
    let c6 = s.as_str().get_char(6);
    let c7 = s.as_str().get_char(7);
    if (c0 == 'e' || c0 == 'E') && (c1 == 'x' || c1 == 'X') && (c2 == 't' || c2 == 'T') && (c3
        == 'e' || c3 == 'E') && (c4 == 'r' || c4 == 'R') && (c5 == 'n' || c5 == 'N') && (c6 == 'a'
        || c6 == 'A') && (c7 == 'l' || c7 == 'L') {
        HandleStoreMode::External
    } else {
        HandleStoreMode::InMemory
    }
}

/// Relies on `uuid::Uuid::new_v4` and its `Display` rendering: a fresh
/// random identifier as 36 characters of lowercase hexadecimal digits and
/// hyphens. No colon can appear, and nothing further is promised of a
/// random identifier.
#[verifier::external_body]
fn fresh_uuid_string() -> (r: String)
    ensures
        r@.len() == 36,
        forall|i: int| 0 <= i < r@.len() ==> r@[i] != ':',
{
    uuid::Uuid::new_v4().to_string()
}

/// A fresh identifier for a plan or stored object: a random 36-character
/// token.
pub fn plan_id() -> (r: String)
    ensures
        r@.len() == 36,
        forall|i: int| 0 <= i < r@.len() ==> r@[i] != ':',
{
    fresh_uuid_string()
}

/// The in-memory state store: frames kept under freshly generated keys.
pub struct MemoryStateStore {
    pub objects: Vec<StoredObject>,
}

impl MemoryStateStore {
    pub open spec fn objs(self) -> Seq<ObjectV> {
        self.objects.deep_view()
    }

    /// Store invariant: distinct nonempty keys, well-formed frames.
    pub open spec fn wf(self) -> bool {
        &&& obj_keys_distinct(self.objs())
        &&& forall|i: int|
            0 <= i < self.objs().len() ==> (#[trigger] self.objs()[i]).frame.wf()
                && self.objs()[i].key.len() > 0
    }

    pub fn new() -> (r: MemoryStateStore)
        ensures
            r.wf(),
            r.objs().len() == 0,
    {
        MemoryStateStore { objects: Vec::new() }
    }

    /// Index of the object stored under the key.
    #[verifier::loop_isolation(false)]
    fn find_object(&self, key: &String) -> (r: Option<usize>)
        ensures
            match r {
                Some(i) => find_obj(self.objs(), key@) == i as int,
                None => find_obj(self.objs(), key@) == -1,
            },
    {
        let mut i: usize = 0;
        while i < self.objects.len()
            invariant
                0 <= i <= self.objs().len(),
                crate::storage::find_obj_from(self.objs(), key@, 0)
                    == crate::storage::find_obj_from(self.objs(), key@, i as int),
            decreases self.objects.len() - i,
        {
            if self.objects[i].key == *key {
                return Some(i);
            }
            i += 1;
        }
        None
    }

    /// Stores the frame under a freshly generated key and hands the key
    /// back. The key is a random identifier: the store keeps whatever the
    /// generator returned, replacing a colliding entry.
    pub fn put(&mut self, frame: Frame) -> (key: String)
        requires
            old(self).wf(),
            frame.wf(),
        ensures
            final(self).wf(),
            key@.len() == 36,
            final(self).objs() == put_spec(old(self).objs(), key@, frame@),
    {
        let key = fresh_uuid_string();
        let ghost pre = self.objs();
        proof {
            lemma_find_obj_spec(pre, key@);
        }
        match self.find_object(&key) {
            Some(i) => {
                let ghost idx = i as int;
                let ghost snap = self.objects@;
                self.objects.remove(i);
                self.objects.insert(i, StoredObject { key: key.clone(), frame });
                proof {
                    assert forall|t: int|
                        0 <= t < self.objects@.len() implies #[trigger] self.objects@[t]@
                        == put_spec(pre, key@, frame@)[t] by {
                        if t != idx {
                            assert(self.objects@[t] == snap[t]);
                        }
                    }
                    assert(self.objs() =~= put_spec(pre, key@, frame@));
                    lemma_put_wf(pre, key@, frame@);
                }
            },
            None => {
                self.objects.push(StoredObject { key: key.clone(), frame });
                proof {
                    assert(self.objs() =~= put_spec(pre, key@, frame@));
                    lemma_put_wf(pre, key@, frame@);
                }
            },
        }
        key
    }

    /// Loads the frame stored under the key, if any.
    pub fn get(&self, key: &String) -> (r: Option<Frame>)
        requires
            self.wf(),
        ensures
            ({
                let idx = find_obj(self.objs(), key@);
                match r {
                    Some(f) => idx >= 0 && f@ == self.objs()[idx].frame && f.wf(),
                    None => idx == -1,
                }
            }),
    {
        proof {
            lemma_find_obj_spec(self.objs(), key@);
        }
        match self.find_object(key) {
            Some(i) => Some(self.objects[i].frame.duplicate()),
            None => None,
        }
    }

    /// Deletes the object under the key; a missing object is not an error.
    pub fn delete(&mut self, key: &String)
        requires
            old(self).wf(),
        ensures
            final(self).wf(),
            ({
                let idx = find_obj(old(self).objs(), key@);
                if idx == -1 {
                    final(self).objs() == old(self).objs()
                } else {
                    final(self).objs() == old(self).objs().remove(idx)
                }
            }),
    {
        let ghost pre = self.objs();
        proof {
            lemma_find_obj_spec(pre, key@);
        }
        match self.find_object(key) {
            None => {},
            Some(i) => {
                let ghost idx = i as int;
                let ghost snap = self.objects@;
                self.objects.remove(i);
                proof {
                    assert forall|t: int|
                        0 <= t < self.objects@.len() implies #[trigger] self.objects@[t]@
                        == pre.remove(idx)[t] by {
                        if t < idx {
                            assert(self.objects@[t] == snap[t]);
                        } else {
                            assert(self.objects@[t] == snap[t + 1]);
                        }
                    }
                    assert(self.objs() =~= pre.remove(idx));
                    lemma_obj_remove_wf(pre, idx);
                }
            },
        }
    }

    pub fn len(&self) -> (r: usize)
        ensures
            r as nat == self.objs().len(),
    {
        self.objects.len()
    }
}

} // verus!
