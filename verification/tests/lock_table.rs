use lock_scheduler::lock_table::LockTable;
use lock_scheduler::Operation;

#[test]
fn shared_then_shared_both_granted() {
    let mut table = LockTable::new();
    assert!(table.acquire_shared_lock(&1, &"x".to_string()));
    assert!(table.acquire_shared_lock(&2, &"x".to_string()));
    assert_eq!(table.lock_table.len(), 1);
    assert_eq!(table.lock_table[0].resource, "x".to_string());
    assert_eq!(table.lock_table[0].info.shared_owners, vec![1, 2]);
    assert_eq!(table.lock_table[0].info.exclusive_owner, None);
}

#[test]
fn exclusive_blocks_shared_and_exclusive() {
    let mut table = LockTable::new();
    assert!(table.acquire_exclusive_lock(&1, &"x".to_string()));
    assert!(!table.acquire_shared_lock(&2, &"x".to_string()));
    assert!(!table.acquire_exclusive_lock(&2, &"x".to_string()));
    // No self-compatibility: even the holder is refused a new lock.
    assert!(!table.acquire_shared_lock(&1, &"x".to_string()));
    assert!(!table.acquire_exclusive_lock(&1, &"x".to_string()));
    assert_eq!(table.lock_table[0].info.exclusive_owner, Some(1));
}

#[test]
fn shared_blocks_exclusive_of_other() {
    let mut table = LockTable::new();
    assert!(table.acquire_shared_lock(&1, &"x".to_string()));
    assert!(!table.acquire_exclusive_lock(&2, &"x".to_string()));
    assert_eq!(table.lock_table[0].info.exclusive_owner, None);
}

#[test]
fn upgrade_sole_shared_holder() {
    let mut table = LockTable::new();
    assert!(table.acquire_shared_lock(&1, &"x".to_string()));
    assert!(table.acquire_exclusive_lock(&1, &"x".to_string()));
    // The upgrade leaves the requester's shared entry in place.
    assert_eq!(table.lock_table[0].info.shared_owners, vec![1]);
    assert_eq!(table.lock_table[0].info.exclusive_owner, Some(1));
}

#[test]
fn no_upgrade_with_two_sharers() {
    let mut table = LockTable::new();
    assert!(table.acquire_shared_lock(&1, &"x".to_string()));
    assert!(table.acquire_shared_lock(&2, &"x".to_string()));
    assert!(!table.acquire_exclusive_lock(&1, &"x".to_string()));
}

#[test]
fn duplicate_shared_entries_give_two_events() {
    let mut table = LockTable::new();
    assert!(table.acquire_shared_lock(&1, &"x".to_string()));
    assert!(table.acquire_shared_lock(&1, &"x".to_string()));
    assert_eq!(table.lock_table[0].info.shared_owners, vec![1, 1]);
    let unlocks = table.remove_locks(&1);
    assert_eq!(
        unlocks,
        vec![
            Operation::UnlockShared(1, "x".to_string()),
            Operation::UnlockShared(1, "x".to_string()),
        ]
    );
    assert!(table.lock_table[0].info.shared_owners.is_empty());
}

#[test]
fn remove_locks_releases_everything_in_row_order() {
    let mut table = LockTable::new();
    assert!(table.acquire_shared_lock(&1, &"x".to_string()));
    assert!(table.acquire_shared_lock(&2, &"x".to_string()));
    assert!(table.acquire_exclusive_lock(&1, &"y".to_string()));
    assert!(table.acquire_shared_lock(&1, &"z".to_string()));
    let unlocks = table.remove_locks(&1);
    assert_eq!(
        unlocks,
        vec![
            Operation::UnlockShared(1, "x".to_string()),
            Operation::UnlockExclusive(1, "y".to_string()),
            Operation::UnlockShared(1, "z".to_string()),
        ]
    );
    // Transaction 1 holds nothing any more; transaction 2 keeps its lock.
    assert_eq!(table.lock_table[0].info.shared_owners, vec![2]);
    assert_eq!(table.lock_table[1].info.exclusive_owner, None);
    assert!(table.lock_table[1].info.shared_owners.is_empty());
    assert!(table.lock_table[2].info.shared_owners.is_empty());
}

#[test]
fn remove_locks_of_stranger_changes_nothing() {
    let mut table = LockTable::new();
    assert!(table.acquire_exclusive_lock(&1, &"x".to_string()));
    let unlocks = table.remove_locks(&7);
    assert!(unlocks.is_empty());
    assert_eq!(table.lock_table[0].info.exclusive_owner, Some(1));
}

#[test]
fn release_then_reacquire() {
    let mut table = LockTable::new();
    assert!(table.acquire_exclusive_lock(&1, &"x".to_string()));
    table.remove_locks(&1);
    // The emptied row still exists, but emptiness means unlocked.
    assert!(table.acquire_exclusive_lock(&2, &"x".to_string()));
    assert_eq!(table.lock_table.len(), 1);
    assert_eq!(table.lock_table[0].info.exclusive_owner, Some(2));
}
