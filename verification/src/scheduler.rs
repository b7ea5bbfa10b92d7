use vstd::prelude::*;

use crate::lemma_ops_view_push;
use crate::lock_table::can_acquire_exclusive;
use crate::lock_table::can_acquire_shared;
use crate::lock_table::grant_exclusive;
use crate::lock_table::grant_shared;
use crate::lock_table::release_events;
use crate::lock_table::release_table;
use crate::lock_table::table_inv;
use crate::lock_table::EntryView;
use crate::lock_table::LockTable;
use crate::ops_view;
use crate::Operation;
use crate::OpView;

verus! {

/// Mathematical form of the scheduler's whole state: the lock table, the
/// wait queue of refused operations, and the history written so far.
#[verifier::ext_equal]
pub struct SchedView {
    pub table: Seq<EntryView>,
    pub delayed: Seq<OpView>,
    pub history: Seq<OpView>,
}

/// Only operations that were refused a lock are ever queued, so the wait
/// queue holds reads and writes alone.
pub open spec fn delayed_ok(d: Seq<OpView>) -> bool {
    forall|i: int| 0 <= i < d.len() ==> ((#[trigger] d[i]) is Read || d[i] is Write)
}

/// One dispatch of a read or write: on a grant, the synthetic lock event
/// and the operation are appended to the history; on a refusal, the
/// operation joins the wait queue and the history is untouched. Any other
/// operation is a no-op here.
pub open spec fn dispatch_read_write(s: SchedView, op: OpView) -> SchedView {
    match op {
        OpView::Read(t, r) => if can_acquire_shared(s.table, r) {
            SchedView {
                table: grant_shared(s.table, t, r),
                delayed: s.delayed,
                history: s.history + seq![OpView::LockShared(t, r), OpView::Read(t, r)],
            }
        } else {
            SchedView { table: s.table, delayed: s.delayed.push(op), history: s.history }
        },
        OpView::Write(t, r) => if can_acquire_exclusive(s.table, t, r) {
            SchedView {
                table: grant_exclusive(s.table, t, r),
                delayed: s.delayed,
                history: s.history + seq![OpView::LockExclusive(t, r), OpView::Write(t, r)],
            }
        } else {
            SchedView { table: s.table, delayed: s.delayed.push(op), history: s.history }
        },
        _ => s,
    }
}

/// One retry pass: the formerly waiting operations are re-dispatched once
/// each, in their original relative order, against a state whose wait queue
/// starts empty; whatever is refused again queues up anew. A single pass,
/// not a fixed point.
pub open spec fn retry_pass(s: SchedView, pending: Seq<OpView>) -> SchedView
    decreases pending.len(),
{
    if pending.len() == 0 {
        s
    } else {
        retry_pass(dispatch_read_write(s, pending[0]), pending.skip(1))
    }
}

/// The scheduler's reaction to one log operation.
///
/// - A read or write is dispatched against the lock table.
/// - A commit releases all of the transaction's locks, appends the commit
///   and then the release events to the history, and runs one retry pass
///   over the wait queue.
/// - An abort releases the transaction's locks and nothing more: history is
///   append-only and is not rewritten, and no release events are logged.
/// - Synthetic lock events and unknown records are no-ops.
pub open spec fn scheduler_step(s: SchedView, op: OpView) -> SchedView {
    match op {
        OpView::Read(_, _) => dispatch_read_write(s, op),
        OpView::Write(_, _) => dispatch_read_write(s, op),
        OpView::Commit(t) => {
            let released = SchedView {
                table: release_table(s.table, t),
                delayed: Seq::empty(),
                history: s.history + seq![OpView::Commit(t)] + release_events(s.table, t),
            };
            retry_pass(released, s.delayed)
        },
        OpView::Abort(t) => SchedView {
            table: release_table(s.table, t),
            delayed: s.delayed,
            history: s.history,
        },
        _ => s,
    }
}

/// The scheduler: the lock manager it owns, the wait queue of operations
/// that failed to acquire a lock, and the accumulated execution history.
#[derive(Debug)]
pub struct Scheduler {
    pub locks: LockTable,
    pub delayed_operations: Vec<Operation>,
    pub final_history: Vec<Operation>,
}

impl View for Scheduler {
    type V = SchedView;

    open spec fn view(&self) -> SchedView {
        SchedView {
            table: self.locks@,
            delayed: ops_view(self.delayed_operations@),
            history: ops_view(self.final_history@),
        }
    }
}

impl Scheduler {
    /// Well-formedness: the lock table's invariant holds and only reads and
    /// writes wait in the queue. Established by [`Scheduler::new`] and
    /// preserved by every operation.
    pub open spec fn wf(&self) -> bool {
        &&& table_inv(self@.table)
        &&& delayed_ok(self@.delayed)
    }

    /// A scheduler with no locks, no waiting operations and an empty
    /// history.
    pub fn new() -> (s: Self)
        ensures
            s.wf(),
            s@ == (SchedView {
                table: Seq::<EntryView>::empty(),
                delayed: Seq::<OpView>::empty(),
                history: Seq::<OpView>::empty(),
            }),
    {
        let s = Self {
            locks: LockTable::new(),
            delayed_operations: Vec::new(),
            final_history: Vec::new(),
        };
        proof {
            assert(s@ =~= SchedView {
                table: Seq::<EntryView>::empty(),
                delayed: Seq::<OpView>::empty(),
                history: Seq::<OpView>::empty(),
            });
        }
        s
    }

    /// Dispatch one read or write against the lock manager, as
    /// [`dispatch_read_write`] describes.
    fn try_dispatch(&mut self, op: Operation)
        requires
            old(self).wf(),
            op@ is Read || op@ is Write,
        ensures
            final(self).wf(),
            final(self)@ == dispatch_read_write(old(self)@, op@),
    {
        match op {
            Operation::Read(transaction, ref resource) => {
                if self.locks.acquire_shared_lock(&transaction, resource) {
                    let res = resource.clone();
                    let ghost h0 = self.final_history@;
                    self.final_history.push(Operation::LockShared(transaction, res));
                    self.final_history.push(op);
                    proof {
                        lemma_ops_view_push(h0, Operation::LockShared(transaction, res));
                        lemma_ops_view_push(
                            h0.push(Operation::LockShared(transaction, res)),
                            op,
                        );
                        assert(ops_view(self.final_history@) =~= ops_view(h0) + seq![
                            OpView::LockShared(transaction, resource@),
                            OpView::Read(transaction, resource@),
                        ]);
                        assert(self@ =~= dispatch_read_write(old(self)@, op@));
                    }
                } else {
                    let ghost d0 = self.delayed_operations@;
                    self.delayed_operations.push(op);
                    proof {
                        lemma_ops_view_push(d0, op);
                        assert(self@ =~= dispatch_read_write(old(self)@, op@));
                    }
                }
            },
            Operation::Write(transaction, ref resource) => {
                if self.locks.acquire_exclusive_lock(&transaction, resource) {
                    let res = resource.clone();
                    let ghost h0 = self.final_history@;
                    self.final_history.push(Operation::LockExclusive(transaction, res));
                    self.final_history.push(op);
                    proof {
                        lemma_ops_view_push(h0, Operation::LockExclusive(transaction, res));
                        lemma_ops_view_push(
                            h0.push(Operation::LockExclusive(transaction, res)),
                            op,
                        );
                        assert(ops_view(self.final_history@) =~= ops_view(h0) + seq![
                            OpView::LockExclusive(transaction, resource@),
                            OpView::Write(transaction, resource@),
                        ]);
                        assert(self@ =~= dispatch_read_write(old(self)@, op@));
                    }
                } else {
                    let ghost d0 = self.delayed_operations@;
                    self.delayed_operations.push(op);
                    proof {
                        lemma_ops_view_push(d0, op);
                        assert(self@ =~= dispatch_read_write(old(self)@, op@));
                    }
                }
            },
            _ => {},
        }
    }

    /// Drain the wait queue and re-dispatch every waiting operation once,
    /// in its original relative order. An operation refused again re-joins
    /// the queue through the same dispatch path.
    pub fn retry_delayed_operations(&mut self)
        requires
            old(self).wf(),
        ensures
            final(self).wf(),
            final(self)@ == retry_pass(
                SchedView {
                    table: old(self)@.table,
                    delayed: Seq::empty(),
                    history: old(self)@.history,
                },
                old(self)@.delayed,
            ),
    {
        let mut delayed: Vec<Operation> = Vec::new();
        core::mem::swap(&mut delayed, &mut self.delayed_operations);
        let ghost start = self@;
        let ghost pending0 = ops_view(delayed@);
        proof {
            assert(start =~= SchedView {
                table: old(self)@.table,
                delayed: Seq::empty(),
                history: old(self)@.history,
            });
            assert(pending0 == old(self)@.delayed);
        }
        while delayed.len() > 0
            invariant
                self.wf(),
                delayed_ok(ops_view(delayed@)),
                retry_pass(self@, ops_view(delayed@)) == retry_pass(start, pending0),
            decreases delayed.len(),
        {
            let ghost p_before = ops_view(delayed@);
            let ghost s_before = self@;
            let op = delayed.remove(0);
            proof {
                assert(p_before[0] == op@);
                assert(ops_view(delayed@) =~= p_before.skip(1));
            }
            self.try_dispatch(op);
            proof {
                assert(retry_pass(s_before, p_before) == retry_pass(
                    dispatch_read_write(s_before, p_before[0]),
                    p_before.skip(1),
                ));
            }
        }
        proof {
            assert(ops_view(delayed@) =~= Seq::<OpView>::empty());
        }
    }

    /// Feed one log operation through the scheduler, as [`scheduler_step`]
    /// describes: reads and writes are granted or queued, a commit releases
    /// the transaction's locks, logs the commit and the release events and
    /// retries the waiting operations, an abort only releases, and anything
    /// else is ignored.
    pub fn process_operation(&mut self, op: Operation)
        requires
            old(self).wf(),
        ensures
            final(self).wf(),
            final(self)@ == scheduler_step(old(self)@, op@),
    {
        match op {
            Operation::Read(_, _) => self.try_dispatch(op),
            Operation::Write(_, _) => self.try_dispatch(op),
            Operation::Commit(transaction) => {
                let ghost s0 = self@;
                let mut unlocks = self.locks.remove_locks(&transaction);
                let ghost h0 = self.final_history@;
                let ghost u0 = unlocks@;
                self.final_history.push(Operation::Commit(transaction));
                self.final_history.append(&mut unlocks);
                proof {
                    lemma_ops_view_push(h0, Operation::Commit(transaction));
                    crate::lemma_ops_view_add(h0.push(Operation::Commit(transaction)), u0);
                    assert(ops_view(self.final_history@) =~= s0.history + seq![
                        OpView::Commit(transaction),
                    ] + release_events(s0.table, transaction));
                    assert(self@ =~= SchedView {
                        table: release_table(s0.table, transaction),
                        delayed: s0.delayed,
                        history: s0.history + seq![OpView::Commit(transaction)] + release_events(
                            s0.table,
                            transaction,
                        ),
                    });
                }
                self.retry_delayed_operations();
                proof {
                    assert(final(self)@ == scheduler_step(s0, OpView::Commit(transaction)));
                }
            },
            Operation::Abort(transaction) => {
                let _ = self.locks.remove_locks(&transaction);
                proof {
                    assert(self@ =~= scheduler_step(old(self)@, op@));
                }
            },
            _ => {
                proof {
                    assert(self@ =~= scheduler_step(old(self)@, op@));
                }
            },
        }
    }
}

} // verus!
