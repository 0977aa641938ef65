//! The registry's laws: properties that relate several operations, stated
//! over the ghost model of [`crate::SemaphoreKey`] and proved for all
//! inputs. Every exec operation is proved to follow the model transitions
//! these laws speak of.
use crate::registry::model_inv;
use crate::registry::spec_get_or_create;
use crate::registry::spec_remove;
use crate::registry::RegistryModel;
use std::sync::Arc;
use tokio::sync::Semaphore;
use vstd::prelude::*;

verus! {

broadcast use vstd::map::group_map_axioms, vstd::set::group_set_axioms;

/// Isolation across keys: two distinct keys never hold the identical
/// semaphore, so a holder of one key's semaphore consumes no permit that
/// an acquirer on the other key waits for.
pub proof fn lemma_isolation_across_keys(r: RegistryModel, k1: Seq<char>, k2: Seq<char>)
    requires
        model_inv(r),
        k1 != k2,
        r.map.contains_key(k1),
        r.map.contains_key(k2),
    ensures
        r.map[k1].id != r.map[k2].id,
{
}

/// Single-creation race safety: on a key not yet present, the first
/// get-or-create creates the semaphore with the capacity it requested,
/// and any later one hands back that identical semaphore and leaves the
/// registry unchanged — whatever capacity it asked for, and whatever
/// fresh semaphore it stood ready to create.
pub proof fn lemma_single_creation(
    r: RegistryModel,
    key: Seq<char>,
    n1: int,
    n2: int,
    fresh1: Arc<Semaphore>,
    fresh2: Arc<Semaphore>,
)
    requires
        !r.map.contains_key(key),
    ensures
        ({
            let (r1, first) = spec_get_or_create(r, key, n1, fresh1);
            let (r2, second) = spec_get_or_create(r1, key, n2, fresh2);
            first.permits == n1 && first.semaphore == fresh1 && second == first && r2 == r1
        }),
{
}

/// Removal independence: once a key's entry is removed, a later
/// get-or-create for it yields a brand-new semaphore — its creation
/// number differs from the removed one's — with exactly the capacity
/// requested then. Handles of the removed semaphore are unaffected:
/// removal only takes the entry out of the map.
pub proof fn lemma_removal_independence(
    r: RegistryModel,
    key: Seq<char>,
    m: int,
    fresh: Arc<Semaphore>,
)
    requires
        model_inv(r),
        r.map.contains_key(key),
    ensures
        ({
            let removed = r.map[key];
            let r1 = spec_remove(r, key).0;
            let (r2, created) = spec_get_or_create(r1, key, m, fresh);
            created.id != removed.id && created.permits == m && created.semaphore == fresh
                && r2.map.contains_key(key) && r2.map[key] == created
        }),
{
    let r1 = spec_remove(r, key).0;
    assert(!r1.map.contains_key(key));
}

/// No-op removal: removing a key that holds no semaphore returns nothing
/// and leaves the registry exactly as it was.
pub proof fn lemma_noop_removal(r: RegistryModel, key: Seq<char>)
    requires
        !r.map.contains_key(key),
    ensures
        spec_remove(r, key).0 == r,
        spec_remove(r, key).1 is None,
{
}

/// Get-or-create keeps the model invariant: creation numbers stay
/// distinct across keys and below the next free one.
pub proof fn lemma_get_or_create_preserves_inv(
    r: RegistryModel,
    key: Seq<char>,
    permits: int,
    fresh: Arc<Semaphore>,
)
    requires
        model_inv(r),
    ensures
        model_inv(spec_get_or_create(r, key, permits, fresh).0),
{
    if !r.map.contains_key(key) {
        let r1 = spec_get_or_create(r, key, permits, fresh).0;
        assert forall|k: Seq<char>| r1.map.contains_key(k) implies (#[trigger] r1.map[k]).id
            < r1.next_id by {
            if k != key {
                assert(r1.map[k] == r.map[k]);
            }
        }
        assert forall|k1: Seq<char>, k2: Seq<char>|
            #![trigger r1.map[k1], r1.map[k2]]
            r1.map.contains_key(k1) && r1.map.contains_key(k2) && k1 != k2 implies r1.map[k1].id
            != r1.map[k2].id by {
            if k1 != key && k2 != key {
                assert(r1.map[k1] == r.map[k1]);
                assert(r1.map[k2] == r.map[k2]);
            } else if k1 == key {
                assert(r1.map[k2] == r.map[k2]);
                assert(r.map[k2].id < r.next_id);
            } else {
                assert(r1.map[k1] == r.map[k1]);
                assert(r.map[k1].id < r.next_id);
            }
        }
    }
}

/// Removal keeps the model invariant.
pub proof fn lemma_remove_preserves_inv(r: RegistryModel, key: Seq<char>)
    requires
        model_inv(r),
    ensures
        model_inv(spec_remove(r, key).0),
{
    if r.map.contains_key(key) {
        let r1 = spec_remove(r, key).0;
        assert forall|k: Seq<char>| r1.map.contains_key(k) implies (#[trigger] r1.map[k]).id
            < r1.next_id by {
            assert(r1.map[k] == r.map[k]);
        }
        assert forall|k1: Seq<char>, k2: Seq<char>|
            #![trigger r1.map[k1], r1.map[k2]]
            r1.map.contains_key(k1) && r1.map.contains_key(k2) && k1 != k2 implies r1.map[k1].id
            != r1.map[k2].id by {
            assert(r1.map[k1] == r.map[k1]);
            assert(r1.map[k2] == r.map[k2]);
        }
    }
}

} // verus!
