use semaphore_key::SemaphoreKey;
use semaphore_key::MAX_SEMAPHORE_PERMITS;

#[test]
fn create_returns_requested_capacity() {
    let mut registry = SemaphoreKey::new();
    let key = String::from("foo");
    let handle = registry.get_or_create_semaphore(&key, 3);
    assert_eq!(handle.permits(), 3);
}

#[test]
fn existing_capacity_wins() {
    let mut registry = SemaphoreKey::new();
    let key = String::from("foo");
    let first = registry.get_or_create_semaphore(&key, 3);
    let second = registry.get_or_create_semaphore(&key, 7);
    assert_eq!(second.permits(), 3);
    assert_eq!(second.id(), first.id());
}

#[test]
fn get_existing_behaves_like_get_or_create() {
    let mut registry = SemaphoreKey::new();
    let key = String::from("foo");
    let first = registry.get_existing_semaphore(&key, 2);
    assert_eq!(first.permits(), 2);
    let second = registry.get_or_create_semaphore(&key, 9);
    assert_eq!(second.id(), first.id());
    assert_eq!(second.permits(), 2);
}

#[test]
fn lookup_absent_returns_none() {
    let registry = SemaphoreKey::new();
    let key = String::from("foo");
    assert!(registry.get_semaphore_if_exists(&key).is_none());
}

#[test]
fn lookup_present_returns_same_semaphore() {
    let mut registry = SemaphoreKey::new();
    let key = String::from("foo");
    let created = registry.get_or_create_semaphore(&key, 4);
    let found = registry.get_semaphore_if_exists(&key).unwrap();
    assert_eq!(found.id(), created.id());
    assert_eq!(found.permits(), 4);
}

#[test]
fn remove_returns_handle_and_clears_entry() {
    let mut registry = SemaphoreKey::new();
    let key = String::from("foo");
    let created = registry.get_or_create_semaphore(&key, 2);
    let removed = registry.remove_if_exists(&key).unwrap();
    assert_eq!(removed.id(), created.id());
    assert_eq!(removed.permits(), 2);
    assert!(registry.get_semaphore_if_exists(&key).is_none());
}

#[test]
fn noop_removal_returns_none_and_changes_nothing() {
    let mut registry = SemaphoreKey::new();
    let other = String::from("bar");
    let kept = registry.get_or_create_semaphore(&other, 2);
    let key = String::from("foo");
    assert!(registry.remove_if_exists(&key).is_none());
    let still_there = registry.get_semaphore_if_exists(&other).unwrap();
    assert_eq!(still_there.id(), kept.id());
    assert_eq!(still_there.permits(), 2);
}

#[test]
fn removal_independence() {
    let mut registry = SemaphoreKey::new();
    let key = String::from("foo");
    let old_handle = registry.get_or_create_semaphore(&key, 1);
    let old_sem = old_handle.semaphore();
    let _held = old_sem.try_acquire().expect("old semaphore must still work");
    registry.remove_if_exists(&key).unwrap();
    let new_handle = registry.get_or_create_semaphore(&key, 4);
    assert_ne!(new_handle.id(), old_handle.id());
    assert_eq!(new_handle.permits(), 4);
    // the new semaphore is independent: the permit still held on the old
    // one takes nothing from it
    let new_sem = new_handle.semaphore();
    let _p1 = new_sem.try_acquire().expect("fresh permit");
    // and the old handle keeps working for its remaining holders
    assert!(old_sem.try_acquire().is_err(), "old capacity of one is spent");
}

#[test]
fn distinct_keys_distinct_semaphores() {
    let mut registry = SemaphoreKey::new();
    let foo = String::from("foo");
    let bar = String::from("bar");
    let h_foo = registry.get_or_create_semaphore(&foo, 1);
    let h_bar = registry.get_or_create_semaphore(&bar, 1);
    assert_ne!(h_foo.id(), h_bar.id());
    // a holder on one key takes nothing from the other key
    let sem_foo = h_foo.semaphore();
    let _held = sem_foo.try_acquire().unwrap();
    let sem_bar = h_bar.semaphore();
    assert!(sem_bar.try_acquire().is_ok());
}

#[test]
fn bounded_concurrency_per_key() {
    let mut registry = SemaphoreKey::new();
    let key = String::from("foo");
    let handle = registry.get_or_create_semaphore(&key, 2);
    let sem = handle.semaphore();
    let p1 = sem.try_acquire().unwrap();
    let _p2 = sem.try_acquire().unwrap();
    assert!(sem.try_acquire().is_err(), "third holder must wait");
    drop(p1);
    assert!(sem.try_acquire().is_ok(), "a released permit frees a waiter");
}

#[test]
fn duplicate_shares_the_same_semaphore() {
    let mut registry = SemaphoreKey::new();
    let key = String::from("foo");
    let handle = registry.get_or_create_semaphore(&key, 1);
    let twin = handle.duplicate();
    assert_eq!(twin.id(), handle.id());
    assert_eq!(twin.permits(), handle.permits());
    // both handles refer to the identical semaphore, not to copies
    let sem = handle.semaphore();
    let _held = sem.try_acquire().unwrap();
    let twin_sem = twin.semaphore();
    assert!(twin_sem.try_acquire().is_err());
}

#[test]
fn handles_from_repeated_gets_share_the_semaphore() {
    let mut registry = SemaphoreKey::new();
    let key = String::from("foo");
    let first = registry.get_or_create_semaphore(&key, 1);
    let second = registry.get_or_create_semaphore(&key, 1);
    let first_sem = first.semaphore();
    let _held = first_sem.try_acquire().unwrap();
    let second_sem = second.semaphore();
    assert!(second_sem.try_acquire().is_err());
}

#[test]
fn fresh_registry_has_fresh_ids() {
    let registry = SemaphoreKey::new();
    assert!(registry.has_fresh_ids());
}

#[test]
fn permits_bound_is_large() {
    assert!(MAX_SEMAPHORE_PERMITS >= 1 << 28);
    assert_eq!(MAX_SEMAPHORE_PERMITS, usize::MAX >> 3);
}
