use lock_scheduler::scheduler::Scheduler;
use lock_scheduler::Operation;

fn read(t: u32, r: &str) -> Operation {
    Operation::Read(t, r.to_string())
}

fn write(t: u32, r: &str) -> Operation {
    Operation::Write(t, r.to_string())
}

fn lock_shared(t: u32, r: &str) -> Operation {
    Operation::LockShared(t, r.to_string())
}

fn lock_exclusive(t: u32, r: &str) -> Operation {
    Operation::LockExclusive(t, r.to_string())
}

fn unlock_shared(t: u32, r: &str) -> Operation {
    Operation::UnlockShared(t, r.to_string())
}

fn unlock_exclusive(t: u32, r: &str) -> Operation {
    Operation::UnlockExclusive(t, r.to_string())
}

#[test]
fn two_reads_then_two_commits() {
    // r1(x)-r2(x)-c1-c2: both reads get their shared lock at once.
    let mut s = Scheduler::new();
    s.process_operation(read(1, "x"));
    s.process_operation(read(2, "x"));
    assert!(s.delayed_operations.is_empty());
    s.process_operation(Operation::Commit(1));
    s.process_operation(Operation::Commit(2));
    assert_eq!(
        s.final_history,
        vec![
            lock_shared(1, "x"),
            read(1, "x"),
            lock_shared(2, "x"),
            read(2, "x"),
            Operation::Commit(1),
            unlock_shared(1, "x"),
            Operation::Commit(2),
            unlock_shared(2, "x"),
        ]
    );
    assert!(s.delayed_operations.is_empty());
}

#[test]
fn write_blocks_read_until_commit() {
    // w1(x)-r2(x)-c1: the read waits; the commit's retry pass grants it.
    let mut s = Scheduler::new();
    s.process_operation(write(1, "x"));
    s.process_operation(read(2, "x"));
    assert_eq!(s.delayed_operations, vec![read(2, "x")]);
    assert_eq!(s.final_history, vec![lock_exclusive(1, "x"), write(1, "x")]);
    s.process_operation(Operation::Commit(1));
    assert!(s.delayed_operations.is_empty());
    assert_eq!(
        s.final_history,
        vec![
            lock_exclusive(1, "x"),
            write(1, "x"),
            Operation::Commit(1),
            unlock_exclusive(1, "x"),
            lock_shared(2, "x"),
            read(2, "x"),
        ]
    );
}

#[test]
fn read_then_write_upgrades_without_queuing() {
    // r1(x)-w1(x)-c1: the write is a lock upgrade and never waits.
    let mut s = Scheduler::new();
    s.process_operation(read(1, "x"));
    s.process_operation(write(1, "x"));
    assert!(s.delayed_operations.is_empty());
    assert_eq!(
        s.final_history,
        vec![
            lock_shared(1, "x"),
            read(1, "x"),
            lock_exclusive(1, "x"),
            write(1, "x"),
        ]
    );
    s.process_operation(Operation::Commit(1));
    assert_eq!(
        s.final_history,
        vec![
            lock_shared(1, "x"),
            read(1, "x"),
            lock_exclusive(1, "x"),
            write(1, "x"),
            Operation::Commit(1),
            unlock_shared(1, "x"),
            unlock_exclusive(1, "x"),
        ]
    );
}

#[test]
fn blocked_write_stays_queued_after_own_commit() {
    // w1(x)-w2(x)-c2: committing 2 releases nothing relevant to x, so 2's
    // write stays queued; only 1's commit frees it.
    let mut s = Scheduler::new();
    s.process_operation(write(1, "x"));
    s.process_operation(write(2, "x"));
    assert_eq!(s.delayed_operations, vec![write(2, "x")]);
    s.process_operation(Operation::Commit(2));
    assert_eq!(s.delayed_operations, vec![write(2, "x")]);
    assert_eq!(
        s.final_history,
        vec![
            lock_exclusive(1, "x"),
            write(1, "x"),
            Operation::Commit(2),
        ]
    );
    s.process_operation(Operation::Commit(1));
    assert!(s.delayed_operations.is_empty());
    assert_eq!(
        s.final_history,
        vec![
            lock_exclusive(1, "x"),
            write(1, "x"),
            Operation::Commit(2),
            Operation::Commit(1),
            unlock_exclusive(1, "x"),
            lock_exclusive(2, "x"),
            write(2, "x"),
        ]
    );
}

#[test]
fn abort_releases_without_logging() {
    let mut s = Scheduler::new();
    s.process_operation(write(1, "x"));
    s.process_operation(Operation::Abort(1));
    // History keeps 1's entries and gains nothing; the lock is gone.
    assert_eq!(s.final_history, vec![lock_exclusive(1, "x"), write(1, "x")]);
    s.process_operation(write(2, "x"));
    assert_eq!(
        s.final_history,
        vec![
            lock_exclusive(1, "x"),
            write(1, "x"),
            lock_exclusive(2, "x"),
            write(2, "x"),
        ]
    );
}

#[test]
fn abort_does_not_retry_waiters() {
    // Only a commit (or the driver, before a new operation) triggers the
    // retry pass; an abort leaves the queue as it was.
    let mut s = Scheduler::new();
    s.process_operation(write(1, "x"));
    s.process_operation(read(2, "x"));
    s.process_operation(Operation::Abort(1));
    assert_eq!(s.delayed_operations, vec![read(2, "x")]);
    s.retry_delayed_operations();
    assert!(s.delayed_operations.is_empty());
    assert_eq!(
        s.final_history,
        vec![
            lock_exclusive(1, "x"),
            write(1, "x"),
            lock_shared(2, "x"),
            read(2, "x"),
        ]
    );
}

#[test]
fn unknown_and_synthetic_operations_are_ignored() {
    let mut s = Scheduler::new();
    s.process_operation(Operation::Unknown);
    s.process_operation(lock_shared(1, "x"));
    s.process_operation(unlock_exclusive(1, "x"));
    assert!(s.final_history.is_empty());
    assert!(s.delayed_operations.is_empty());
    assert!(s.locks.lock_table.is_empty());
}

#[test]
fn retry_keeps_relative_order_and_reblocks() {
    // Two waiters on the same resource: the first is granted during the
    // retry pass, the second is refused again by that very grant.
    let mut s = Scheduler::new();
    s.process_operation(write(1, "x"));
    s.process_operation(write(2, "x"));
    s.process_operation(write(3, "x"));
    assert_eq!(s.delayed_operations, vec![write(2, "x"), write(3, "x")]);
    s.process_operation(Operation::Commit(1));
    assert_eq!(s.delayed_operations, vec![write(3, "x")]);
    assert_eq!(
        s.final_history,
        vec![
            lock_exclusive(1, "x"),
            write(1, "x"),
            Operation::Commit(1),
            unlock_exclusive(1, "x"),
            lock_exclusive(2, "x"),
            write(2, "x"),
        ]
    );
}
