//! The keyed semaphore registry: a map from string key to semaphore
//! handle, with a race-free get-or-create / remove protocol.
//!
//! The registry is modelled by a [`RegistryModel`]: the key map together
//! with the next free creation number. The two spec transitions
//! [`spec_get_or_create`] and [`spec_remove`] say exactly what each
//! operation does to that model, and every exec operation is proved to
//! follow them.
use crate::handle::HandleInfo;
use crate::handle::SemaphoreHandle;
use crate::handle::MAX_SEMAPHORE_PERMITS;
use std::sync::Arc;
use tokio::sync::Semaphore;
use vstd::prelude::*;

verus! {

broadcast use vstd::map::group_map_axioms, vstd::set::group_set_axioms, vstd::seq::group_seq_axioms;

/// The ghost model of a registry: which key holds which semaphore, and
/// the next free creation number.
pub struct RegistryModel {
    pub map: Map<Seq<char>, HandleInfo>,
    pub next_id: int,
}

/// The model invariant: every stored creation number is below the next
/// free one, and no two keys share a semaphore.
pub open spec fn model_inv(r: RegistryModel) -> bool {
    &&& forall|k: Seq<char>| r.map.contains_key(k) ==> (#[trigger] r.map[k]).id < r.next_id
    &&& forall|k1: Seq<char>, k2: Seq<char>|
        #![trigger r.map[k1], r.map[k2]]
        r.map.contains_key(k1) && r.map.contains_key(k2) && k1 != k2 ==> r.map[k1].id
            != r.map[k2].id
}

/// What get-or-create does to the model. `fresh` is the semaphore a miss
/// would create; a hit ignores both it and the requested capacity: the
/// stored handle and its original capacity win.
pub open spec fn spec_get_or_create(
    r: RegistryModel,
    key: Seq<char>,
    permits: int,
    fresh: Arc<Semaphore>,
) -> (RegistryModel, HandleInfo) {
    if r.map.contains_key(key) {
        (r, r.map[key])
    } else {
        let info = HandleInfo { semaphore: fresh, id: r.next_id, permits };
        (RegistryModel { map: r.map.insert(key, info), next_id: r.next_id + 1 }, info)
    }
}

/// What remove does to the model: a present entry leaves the map and is
/// handed back; an absent key changes nothing.
pub open spec fn spec_remove(r: RegistryModel, key: Seq<char>) -> (
    RegistryModel,
    Option<HandleInfo>,
) {
    if r.map.contains_key(key) {
        (RegistryModel { map: r.map.remove(key), next_id: r.next_id }, Some(r.map[key]))
    } else {
        (r, None)
    }
}

/// One stored association from key to handle.
struct Entry {
    key: String,
    handle: SemaphoreHandle,
}

/// Whether some entry carries the given key.
spec fn entry_with_key(s: Seq<Entry>, key: Seq<char>) -> bool {
    exists|i: int| 0 <= i < s.len() && (#[trigger] s[i]).key@ == key
}

/// The index of the entry carrying the given key (meaningful only when
/// one exists and keys are stored at most once).
spec fn entry_index(s: Seq<Entry>, key: Seq<char>) -> int {
    choose|i: int| 0 <= i < s.len() && (#[trigger] s[i]).key@ == key
}

/// The key map that a sequence of entries represents.
spec fn entries_map(s: Seq<Entry>) -> Map<Seq<char>, HandleInfo> {
    Map::new(
        |key: Seq<char>| entry_with_key(s, key),
        |key: Seq<char>| s[entry_index(s, key)].handle@,
    )
}

/// Whether every key occurs in at most one entry.
spec fn keys_distinct(s: Seq<Entry>) -> bool {
    forall|i: int, j: int|
        0 <= i < j < s.len() ==> (#[trigger] s[i]).key@ != (#[trigger] s[j]).key@
}

/// The keyed semaphore registry.
///
/// It maps each key to at most one shared counting semaphore, created on
/// first request with the capacity requested then, and removed only on
/// request. The registry is a plain value: callers that share it across
/// tasks guard it with their runtime's reader/writer lock, taking the
/// shared side for lookups and the exclusive side for creation and
/// removal, and never wait on a semaphore while holding that lock.
pub struct SemaphoreKey {
    entries: Vec<Entry>,
    next_id: u64,
}

impl View for SemaphoreKey {
    type V = RegistryModel;

    closed spec fn view(&self) -> RegistryModel {
        RegistryModel { map: entries_map(self.entries@), next_id: self.next_id as int }
    }
}

proof fn lemma_entries_map_at(s: Seq<Entry>, i: int)
    requires
        keys_distinct(s),
        0 <= i < s.len(),
    ensures
        entries_map(s).contains_key(s[i].key@),
        entries_map(s)[s[i].key@] == s[i].handle@,
{
    let k = s[i].key@;
    assert(entry_with_key(s, k));
    let j = entry_index(s, k);
    assert(0 <= j < s.len() && s[j].key@ == k);
    if i != j {
        assert(s[i].key@ != s[j].key@);
        assert(false);
    }
}

proof fn lemma_absent_key(s: Seq<Entry>, key: Seq<char>)
    requires
        forall|j: int| 0 <= j < s.len() ==> (#[trigger] s[j]).key@ != key,
    ensures
        !entries_map(s).contains_key(key),
{
    assert(!entry_with_key(s, key));
}

proof fn lemma_entries_map_push(s: Seq<Entry>, e: Entry)
    requires
        keys_distinct(s),
        !entry_with_key(s, e.key@),
    ensures
        keys_distinct(s.push(e)),
        entries_map(s.push(e)) == entries_map(s).insert(e.key@, e.handle@),
{
    let s2 = s.push(e);
    let n = s.len() as int;
    assert(s2.len() == n + 1);
    assert forall|a: int, b: int| 0 <= a < b < s2.len() implies (#[trigger] s2[a]).key@ != (
    #[trigger] s2[b]).key@ by {
        if b < n {
            assert(s2[a] == s[a] && s2[b] == s[b]);
        } else {
            assert(s2[b] == e);
            assert(s2[a] == s[a]);
            if s2[a].key@ == e.key@ {
                assert(entry_with_key(s, e.key@));
            }
        }
    }
    assert forall|k: Seq<char>| #[trigger]
        entry_with_key(s2, k) implies entry_with_key(s, k) || k == e.key@ by {
        let i = choose|i: int| 0 <= i < s2.len() && (#[trigger] s2[i]).key@ == k;
        if i < n {
            assert(s2[i] == s[i]);
            assert(entry_with_key(s, k));
        } else {
            assert(s2[i] == e);
        }
    }
    assert forall|k: Seq<char>| entry_with_key(s, k) implies #[trigger] entry_with_key(s2, k) by {
        let i = choose|i: int| 0 <= i < s.len() && (#[trigger] s[i]).key@ == k;
        assert(s2[i] == s[i]);
    }
    assert(entry_with_key(s2, e.key@)) by {
        assert(s2[n] == e);
    }
    assert forall|k: Seq<char>| entry_with_key(s2, k) implies #[trigger] entries_map(s2)[k]
        == entries_map(s).insert(e.key@, e.handle@)[k] by {
        let i = entry_index(s2, k);
        assert(0 <= i < s2.len() && s2[i].key@ == k);
        if k == e.key@ {
            if i < n {
                assert(s2[i] == s[i]);
                assert(entry_with_key(s, e.key@));
                assert(false);
            }
            assert(s2[i] == e);
            assert(entries_map(s2)[k] == e.handle@);
        } else {
            assert(i < n && s2[i] == s[i]);
            assert(entry_with_key(s, k));
            let j = entry_index(s, k);
            assert(0 <= j < s.len() && s[j].key@ == k);
            if i != j {
                assert(s[i].key@ != s[j].key@);
                assert(false);
            }
            assert(entries_map(s)[k] == s[j].handle@);
        }
    }
    assert(entries_map(s2) =~= entries_map(s).insert(e.key@, e.handle@));
}

proof fn lemma_entries_map_remove(s: Seq<Entry>, i: int)
    requires
        keys_distinct(s),
        0 <= i < s.len(),
    ensures
        keys_distinct(s.remove(i)),
        entries_map(s.remove(i)) == entries_map(s).remove(s[i].key@),
{
    s.remove_ensures(i);
    let s2 = s.remove(i);
    let k0 = s[i].key@;
    assert forall|a: int, b: int| 0 <= a < b < s2.len() implies (#[trigger] s2[a]).key@ != (
    #[trigger] s2[b]).key@ by {
        let a0: int = if a < i { a } else { a + 1 };
        let b0: int = if b < i { b } else { b + 1 };
        assert(s2[a] == s[a0] && s2[b] == s[b0]);
        assert(0 <= a0 < b0 < s.len());
        assert(s[a0].key@ != s[b0].key@);
    }
    assert forall|k: Seq<char>| #[trigger]
        entry_with_key(s2, k) implies entry_with_key(s, k) && k != k0 by {
        let a = choose|a: int| 0 <= a < s2.len() && (#[trigger] s2[a]).key@ == k;
        let a0: int = if a < i { a } else { a + 1 };
        assert(s2[a] == s[a0]);
        assert(entry_with_key(s, k));
        if k == k0 {
            assert(s[a0].key@ == s[i].key@);
            if a0 < i {
                assert(s[a0].key@ != s[i].key@);
            } else {
                assert(i < a0);
                assert(s[i].key@ != s[a0].key@);
            }
            assert(false);
        }
    }
    assert forall|k: Seq<char>|
        entry_with_key(s, k) && k != k0 implies #[trigger] entry_with_key(s2, k) by {
        let b = choose|b: int| 0 <= b < s.len() && (#[trigger] s[b]).key@ == k;
        assert(b != i);
        let a: int = if b < i { b } else { b - 1 };
        assert(s2[a] == s[b]);
    }
    assert forall|k: Seq<char>| entry_with_key(s2, k) implies #[trigger] entries_map(s2)[k]
        == entries_map(s).remove(k0)[k] by {
        let a = entry_index(s2, k);
        assert(0 <= a < s2.len() && s2[a].key@ == k);
        let a0: int = if a < i { a } else { a + 1 };
        assert(s2[a] == s[a0]);
        assert(entry_with_key(s, k));
        let b = entry_index(s, k);
        assert(0 <= b < s.len() && s[b].key@ == k);
        if a0 != b {
            assert(s[a0].key@ != s[b].key@);
            assert(false);
        }
        assert(k != k0);
        assert(entries_map(s2)[k] == s[a0].handle@);
        assert(entries_map(s).remove(k0)[k] == entries_map(s)[k]);
        assert(entries_map(s)[k] == s[b].handle@);
    }
    assert(entries_map(s2) =~= entries_map(s).remove(k0));
}

impl SemaphoreKey {
    /// Well-formed: every key is stored at most once, and the stored
    /// creation numbers are distinct and below the next free one.
    pub closed spec fn wf(&self) -> bool {
        &&& keys_distinct(self.entries@)
        &&& forall|i: int|
            0 <= i < self.entries@.len() ==> (#[trigger] self.entries@[i]).handle@.id
                < self.next_id
        &&& forall|i: int, j: int|
            0 <= i < j < self.entries@.len() ==> (#[trigger] self.entries@[i]).handle@.id != (
            #[trigger] self.entries@[j]).handle@.id
    }

    /// A well-formed registry satisfies the model invariant.
    pub proof fn lemma_wf_implies_model_inv(&self)
        requires
            self.wf(),
        ensures
            model_inv(self@),
    {
        let s = self.entries@;
        assert forall|k: Seq<char>| self@.map.contains_key(k) implies (#[trigger] self@.map[k]).id
            < self@.next_id by {
            let i = entry_index(s, k);
            assert(0 <= i < s.len() && s[i].key@ == k);
            lemma_entries_map_at(s, i);
        }
        assert forall|k1: Seq<char>, k2: Seq<char>|
            #![trigger self@.map[k1], self@.map[k2]]
            self@.map.contains_key(k1) && self@.map.contains_key(k2) && k1 != k2 implies self@.map[k1].id != self@.map[k2].id by {
            let i1 = entry_index(s, k1);
            let i2 = entry_index(s, k2);
            assert(0 <= i1 < s.len() && s[i1].key@ == k1);
            assert(0 <= i2 < s.len() && s[i2].key@ == k2);
            lemma_entries_map_at(s, i1);
            lemma_entries_map_at(s, i2);
            assert(i1 != i2);
            if i1 < i2 {
                assert(s[i1].handle@.id != s[i2].handle@.id);
            } else {
                assert(s[i2].handle@.id != s[i1].handle@.id);
            }
        }
    }

    /// An empty registry: no keys, creation numbers starting at zero.
    pub fn new() -> (r: SemaphoreKey)
        ensures
            r.wf(),
            r@.map == Map::<Seq<char>, HandleInfo>::empty(),
            r@.next_id == 0,
    {
        let r = SemaphoreKey { entries: Vec::new(), next_id: 0 };
        proof {
            assert(entries_map(r.entries@) =~= Map::<Seq<char>, HandleInfo>::empty());
        }
        r
    }

    /// Whether a creation number is still free, so that a miss may create
    /// a new semaphore. Callers that cannot track this exactly check it
    /// before asking for creation.
    pub fn has_fresh_ids(&self) -> (b: bool)
        ensures
            b == (self@.next_id < u64::MAX as int),
    {
        self.next_id < u64::MAX
    }

    /// Looks the key up and hands back a share of its semaphore, or
    /// nothing when the key holds none.
    ///
    /// This is the fast path of the get-or-create protocol: callers that
    /// guard the registry with a reader/writer lock call this under the
    /// shared side.
    pub fn get_semaphore_if_exists(&self, key: &String) -> (r: Option<SemaphoreHandle>)
        requires
            self.wf(),
        ensures
            match r {
                Some(h) => self@.map.contains_key(key@) && h@ == self@.map[key@],
                None => !self@.map.contains_key(key@),
            },
    {
        let n = self.entries.len();
        let mut i: usize = 0;
        while i < n
            invariant
                self.wf(),
                n == self.entries@.len(),
                0 <= i <= n,
                forall|j: int| 0 <= j < i ==> (#[trigger] self.entries@[j]).key@ != key@,
            decreases n - i,
        {
            if self.entries[i].key == *key {
                let h = self.entries[i].handle.duplicate();
                proof {
                    lemma_entries_map_at(self.entries@, i as int);
                }
                return Some(h);
            }
            i += 1;
        }
        proof {
            lemma_absent_key(self.entries@, key@);
        }
        None
    }

    /// The slow path of the protocol: called only after a miss, under the
    /// exclusive side of the caller's lock. It checks the key once more —
    /// a concurrent creator may have inserted it between the caller's two
    /// lock acquisitions — and only on a second miss creates a semaphore
    /// with the requested capacity and stores it.
    fn create_new_semaphore_by_key(&mut self, key: &String, allowed_concurrent_threads: usize) -> (h:
        SemaphoreHandle)
        requires
            old(self).wf(),
            allowed_concurrent_threads <= MAX_SEMAPHORE_PERMITS,
            old(self)@.map.contains_key(key@) || old(self)@.next_id < u64::MAX as int,
        ensures
            final(self).wf(),
            final(self)@ == spec_get_or_create(
                old(self)@,
                key@,
                allowed_concurrent_threads as int,
                h@.semaphore,
            ).0,
            h@ == spec_get_or_create(
                old(self)@,
                key@,
                allowed_concurrent_threads as int,
                h@.semaphore,
            ).1,
    {
        let existing = self.get_semaphore_if_exists(key);
        if let Some(h) = existing {
            return h;
        }
        let handle = SemaphoreHandle::create(self.next_id, allowed_concurrent_threads);
        let stored = handle.duplicate();
        let entry = Entry { key: key.clone(), handle: stored };
        proof {
            lemma_absent_entries(self.entries@, key@);
            lemma_entries_map_push(self.entries@, entry);
        }
        self.entries.push(entry);
        self.next_id = self.next_id + 1;
        handle
    }

    /// Hands back the semaphore stored under the key, creating one with
    /// the requested capacity first when the key holds none. A key that
    /// already holds a semaphore keeps it, with its original capacity:
    /// the capacity requested here is then ignored.
    pub fn get_or_create_semaphore(&mut self, key: &String, allowed_concurrent_threads: usize) -> (h:
        SemaphoreHandle)
        requires
            old(self).wf(),
            allowed_concurrent_threads <= MAX_SEMAPHORE_PERMITS,
            old(self)@.map.contains_key(key@) || old(self)@.next_id < u64::MAX as int,
        ensures
            final(self).wf(),
            final(self)@ == spec_get_or_create(
                old(self)@,
                key@,
                allowed_concurrent_threads as int,
                h@.semaphore,
            ).0,
            h@ == spec_get_or_create(
                old(self)@,
                key@,
                allowed_concurrent_threads as int,
                h@.semaphore,
            ).1,
            final(self)@.map.contains_key(key@) && final(self)@.map[key@] == h@,
    {
        let option_semaphore = self.get_semaphore_if_exists(key);
        let semaphore = if let Some(semaphore) = option_semaphore {
            semaphore
        } else {
            self.create_new_semaphore_by_key(key, allowed_concurrent_threads)
        };
        semaphore
    }

    /// A named variant of [`Self::get_or_create_semaphore`] for call
    /// sites that expect the key to usually pre-exist but must still
    /// tolerate first-use creation. Same contract, same behaviour.
    pub fn get_existing_semaphore(&mut self, key: &String, allowed_concurrent_threads: usize) -> (h:
        SemaphoreHandle)
        requires
            old(self).wf(),
            allowed_concurrent_threads <= MAX_SEMAPHORE_PERMITS,
            old(self)@.map.contains_key(key@) || old(self)@.next_id < u64::MAX as int,
        ensures
            final(self).wf(),
            final(self)@ == spec_get_or_create(
                old(self)@,
                key@,
                allowed_concurrent_threads as int,
                h@.semaphore,
            ).0,
            h@ == spec_get_or_create(
                old(self)@,
                key@,
                allowed_concurrent_threads as int,
                h@.semaphore,
            ).1,
            final(self)@.map.contains_key(key@) && final(self)@.map[key@] == h@,
    {
        self.get_or_create_semaphore(key, allowed_concurrent_threads)
    }

    /// Removes the key's entry and hands its handle back, or does
    /// nothing on a key that holds no semaphore. Handles already held
    /// stay valid: their semaphore lives until the last of them is
    /// dropped; only a later get-or-create for the key is independent of
    /// it.
    pub fn remove_if_exists(&mut self, key: &String) -> (r: Option<SemaphoreHandle>)
        requires
            old(self).wf(),
        ensures
            final(self).wf(),
            final(self)@ == spec_remove(old(self)@, key@).0,
            match r {
                Some(h) => spec_remove(old(self)@, key@).1 == Some(h@),
                None => !old(self)@.map.contains_key(key@) && final(self)@ == old(self)@,
            },
    {
        let n = self.entries.len();
        let mut i: usize = 0;
        while i < n
            invariant
                self == old(self),
                self.wf(),
                n == self.entries@.len(),
                0 <= i <= n,
                forall|j: int| 0 <= j < i ==> (#[trigger] self.entries@[j]).key@ != key@,
            decreases n - i,
        {
            if self.entries[i].key == *key {
                proof {
                    lemma_entries_map_at(self.entries@, i as int);
                    lemma_entries_map_remove(self.entries@, i as int);
                    self.entries@.remove_ensures(i as int);
                }
                let e = self.entries.remove(i);
                return Some(e.handle);
            }
            i += 1;
        }
        proof {
            lemma_absent_key(self.entries@, key@);
        }
        None
    }
}

/// From the absence of a key in the represented map back to the absence
/// of an entry carrying it.
proof fn lemma_absent_entries(s: Seq<Entry>, key: Seq<char>)
    requires
        !entries_map(s).contains_key(key),
    ensures
        !entry_with_key(s, key),
{
}

} // verus!
