use vstd::prelude::*;

use crate::lemma_ops_view_push;
use crate::ops_view;
use crate::Operation;
use crate::OpView;

verus! {

/// Lock state of one resource: the transactions holding a shared lock (in
/// acquisition order, duplicates possible if a holder re-requests) and the
/// transaction holding the exclusive lock, if any.
#[derive(Debug)]
pub struct LockInfo {
    pub shared_owners: Vec<u32>,
    pub exclusive_owner: Option<u32>,
}

/// Mathematical form of a [`LockInfo`].
#[verifier::ext_equal]
pub struct LockInfoView {
    pub shared_owners: Seq<u32>,
    pub exclusive_owner: Option<u32>,
}

impl View for LockInfo {
    type V = LockInfoView;

    open spec fn view(&self) -> LockInfoView {
        LockInfoView { shared_owners: self.shared_owners@, exclusive_owner: self.exclusive_owner }
    }
}

/// One row of the lock table: a resource identifier and its lock state.
#[derive(Debug)]
pub struct LockEntry {
    pub resource: String,
    pub info: LockInfo,
}

/// Mathematical form of a [`LockEntry`].
#[verifier::ext_equal]
pub struct EntryView {
    pub resource: Seq<char>,
    pub info: LockInfoView,
}

impl View for LockEntry {
    type V = EntryView;

    open spec fn view(&self) -> EntryView {
        EntryView { resource: self.resource@, info: self.info@ }
    }
}

/// Whether some row of the table is for resource `r`.
pub open spec fn table_has(tbl: Seq<EntryView>, r: Seq<char>) -> bool {
    exists|i: int| 0 <= i < tbl.len() && tbl[i].resource == r
}

/// The index of the row for resource `r` (unique when the table has
/// distinct resources and `table_has(tbl, r)` holds).
pub open spec fn table_index(tbl: Seq<EntryView>, r: Seq<char>) -> int {
    choose|i: int| 0 <= i < tbl.len() && tbl[i].resource == r
}

/// The lock state recorded for resource `r`.
pub open spec fn table_info(tbl: Seq<EntryView>, r: Seq<char>) -> LockInfoView {
    tbl[table_index(tbl, r)].info
}

/// No two rows are for the same resource.
pub open spec fn distinct_resources(tbl: Seq<EntryView>) -> bool {
    forall|i: int, j: int|
        0 <= i < j < tbl.len() ==> tbl[i].resource != tbl[j].resource
}

/// Mutual exclusion for one resource: while an exclusive lock is held by
/// `t`, the only shared entry that may remain is `t`'s own, left in place by
/// a lock upgrade. In particular no transaction other than the exclusive
/// owner ever holds a shared lock at the same time.
pub open spec fn info_inv(info: LockInfoView) -> bool {
    info.exclusive_owner matches Some(t) ==> (info.shared_owners.len() == 0
        || info.shared_owners == seq![t])
}

/// Invariant of the whole table: distinct resources, each row mutually
/// exclusive.
pub open spec fn table_inv(tbl: Seq<EntryView>) -> bool {
    &&& distinct_resources(tbl)
    &&& forall|i: int| 0 <= i < tbl.len() ==> info_inv(#[trigger] tbl[i].info)
}

/// A shared lock on `r` can be granted unless an exclusive lock is held on
/// `r` (by any transaction, the requester included).
pub open spec fn can_acquire_shared(tbl: Seq<EntryView>, r: Seq<char>) -> bool {
    !table_has(tbl, r) || table_info(tbl, r).exclusive_owner is None
}

/// An exclusive lock on `r` can be granted to `t` iff no exclusive lock is
/// held and the shared holders are none, or exactly `t` alone (a lock
/// upgrade).
pub open spec fn can_acquire_exclusive(tbl: Seq<EntryView>, t: u32, r: Seq<char>) -> bool {
    !table_has(tbl, r) || {
        let info = table_info(tbl, r);
        info.exclusive_owner is None && (info.shared_owners.len() == 0 || info.shared_owners
            == seq![t])
    }
}

/// The table after granting `t` a shared lock on `r`.
pub open spec fn grant_shared(tbl: Seq<EntryView>, t: u32, r: Seq<char>) -> Seq<EntryView> {
    if table_has(tbl, r) {
        let i = table_index(tbl, r);
        tbl.update(
            i,
            EntryView {
                resource: tbl[i].resource,
                info: LockInfoView {
                    shared_owners: tbl[i].info.shared_owners.push(t),
                    exclusive_owner: tbl[i].info.exclusive_owner,
                },
            },
        )
    } else {
        tbl.push(
            EntryView {
                resource: r,
                info: LockInfoView { shared_owners: seq![t], exclusive_owner: None },
            },
        )
    }
}

/// The table after granting `t` the exclusive lock on `r`. An upgrade leaves
/// the requester's shared entry in place.
pub open spec fn grant_exclusive(tbl: Seq<EntryView>, t: u32, r: Seq<char>) -> Seq<EntryView> {
    if table_has(tbl, r) {
        let i = table_index(tbl, r);
        tbl.update(
            i,
            EntryView {
                resource: tbl[i].resource,
                info: LockInfoView {
                    shared_owners: tbl[i].info.shared_owners,
                    exclusive_owner: Some(t),
                },
            },
        )
    } else {
        tbl.push(
            EntryView {
                resource: r,
                info: LockInfoView { shared_owners: Seq::empty(), exclusive_owner: Some(t) },
            },
        )
    }
}

/// Holds of every shared entry that survives transaction `t`'s release.
pub open spec fn not_owner(t: u32) -> spec_fn(u32) -> bool {
    |o: u32| o != t
}

/// One row's lock state after transaction `t` releases everything it holds
/// there.
pub open spec fn released_info(info: LockInfoView, t: u32) -> LockInfoView {
    LockInfoView {
        shared_owners: info.shared_owners.filter(not_owner(t)),
        exclusive_owner: if info.exclusive_owner == Some(t) {
            None
        } else {
            info.exclusive_owner
        },
    }
}

/// The table after transaction `t` releases all of its locks.
pub open spec fn release_table(tbl: Seq<EntryView>, t: u32) -> Seq<EntryView> {
    Seq::new(tbl.len(), |i: int| EntryView { resource: tbl[i].resource, info: released_info(tbl[i].info, t) })
}

/// The `UnlockShared` events recorded while releasing `t`'s shared locks on
/// one resource: one event per occurrence of `t` among the shared holders,
/// in holder order.
pub open spec fn shared_release_events(shared: Seq<u32>, t: u32, r: Seq<char>) -> Seq<OpView>
    decreases shared.len(),
{
    if shared.len() == 0 {
        Seq::empty()
    } else {
        (if shared[0] == t {
            seq![OpView::UnlockShared(t, r)]
        } else {
            Seq::empty()
        }) + shared_release_events(shared.skip(1), t, r)
    }
}

/// The release events one row contributes when `t` releases its locks:
/// first the shared unlocks, then the exclusive unlock if `t` held it.
pub open spec fn entry_release_events(e: EntryView, t: u32) -> Seq<OpView> {
    shared_release_events(e.info.shared_owners, t, e.resource) + (if e.info.exclusive_owner
        == Some(t) {
        seq![OpView::UnlockExclusive(t, e.resource)]
    } else {
        Seq::empty()
    })
}

/// All release events when `t` releases its locks, in row order.
pub open spec fn release_events(tbl: Seq<EntryView>, t: u32) -> Seq<OpView>
    decreases tbl.len(),
{
    if tbl.len() == 0 {
        Seq::empty()
    } else {
        entry_release_events(tbl[0], t) + release_events(tbl.skip(1), t)
    }
}

/// Mutual exclusion, one row: while a transaction holds the exclusive lock
/// on a resource, no other transaction holds a shared lock on it. (The
/// exclusive owner itself may keep the one shared entry a lock upgrade
/// leaves behind.)
pub proof fn lemma_exclusive_excludes_others(info: LockInfoView, t: u32, u: u32)
    requires
        info_inv(info),
        info.exclusive_owner == Some(t),
        u != t,
    ensures
        !info.shared_owners.contains(u),
{
    if info.shared_owners.contains(u) {
        let j = choose|j: int|
            0 <= j < info.shared_owners.len() && info.shared_owners[j] == u;
        assert(info.shared_owners == seq![t]);
        assert(info.shared_owners[j] == t);
    }
}

/// After an exclusive grant, the requester is recorded as the exclusive
/// owner of the resource.
pub proof fn lemma_grant_exclusive_owner(tbl: Seq<EntryView>, t: u32, r: Seq<char>)
    requires
        distinct_resources(tbl),
    ensures
        table_has(grant_exclusive(tbl, t, r), r),
        table_info(grant_exclusive(tbl, t, r), r).exclusive_owner == Some(t),
{
    let tbl2 = grant_exclusive(tbl, t, r);
    if table_has(tbl, r) {
        let i = table_index(tbl, r);
        assert(0 <= i < tbl.len() && tbl[i].resource == r);
        assert(tbl2[i].resource == r);
        assert(table_has(tbl2, r));
        let j = table_index(tbl2, r);
        assert(0 <= j < tbl2.len() && tbl2[j].resource == r);
        assert(forall|m: int| 0 <= m < tbl2.len() ==> tbl2[m].resource == tbl[m].resource);
        assert(j == i);
    } else {
        let i = tbl.len() as int;
        assert(tbl2[i].resource == r);
        assert(table_has(tbl2, r));
        let j = table_index(tbl2, r);
        assert(0 <= j < tbl2.len() && tbl2[j].resource == r);
        assert(j == i);
    }
}

/// Upgrade law: when `t` is the sole shared holder of `r` and no exclusive
/// lock is held, an exclusive request by `t` is granted and makes `t` the
/// exclusive owner.
pub proof fn lemma_upgrade(tbl: Seq<EntryView>, t: u32, r: Seq<char>)
    requires
        distinct_resources(tbl),
        table_has(tbl, r),
        table_info(tbl, r).shared_owners == seq![t],
        table_info(tbl, r).exclusive_owner is None,
    ensures
        can_acquire_exclusive(tbl, t, r),
        table_info(grant_exclusive(tbl, t, r), r).exclusive_owner == Some(t),
{
    lemma_grant_exclusive_owner(tbl, t, r);
}

/// Mutual exclusion across requests: once an exclusive lock on `r` has been
/// granted, no shared request on `r` and no exclusive request on `r` (by
/// any transaction, the holder included) succeeds until the holder
/// releases.
pub proof fn lemma_mutual_exclusion(tbl: Seq<EntryView>, t1: u32, t2: u32, r: Seq<char>)
    requires
        distinct_resources(tbl),
        can_acquire_exclusive(tbl, t1, r),
    ensures
        !can_acquire_shared(grant_exclusive(tbl, t1, r), r),
        !can_acquire_exclusive(grant_exclusive(tbl, t1, r), t2, r),
{
    lemma_grant_exclusive_owner(tbl, t1, r);
}

/// Release completeness: after a release, the released transaction appears
/// in no row's shared holders and owns no row's exclusive lock.
pub proof fn lemma_release_completeness(tbl: Seq<EntryView>, t: u32)
    ensures
        forall|i: int|
            0 <= i < release_table(tbl, t).len()
                ==> !(#[trigger] release_table(tbl, t)[i]).info.shared_owners.contains(t)
                && release_table(tbl, t)[i].info.exclusive_owner != Some(t),
{
    assert forall|i: int| 0 <= i < release_table(tbl, t).len() implies !(#[trigger] release_table(
        tbl,
        t,
    )[i]).info.shared_owners.contains(t) && release_table(tbl, t)[i].info.exclusive_owner != Some(
        t,
    ) by {
        let kept = tbl[i].info.shared_owners.filter(not_owner(t));
        if kept.contains(t) {
            let idx = choose|idx: int| 0 <= idx < kept.len() && kept[idx] == t;
            Seq::lemma_filter_pred(tbl[i].info.shared_owners, not_owner(t), idx);
        }
    }
}

/// Unfolds [`shared_release_events`] one holder at a time, over suffixes.
proof fn lemma_shared_events_skip(shared: Seq<u32>, t: u32, r: Seq<char>, k: int)
    requires
        0 <= k < shared.len(),
    ensures
        shared_release_events(shared.skip(k), t, r) == (if shared[k] == t {
            seq![OpView::UnlockShared(t, r)]
        } else {
            Seq::<OpView>::empty()
        }) + shared_release_events(shared.skip(k + 1), t, r),
{
    let s = shared.skip(k);
    assert(s[0] == shared[k]);
    assert(s.skip(1) =~= shared.skip(k + 1));
}

/// Unfolds [`release_events`] one row at a time, over suffixes.
proof fn lemma_release_events_skip(tbl: Seq<EntryView>, t: u32, i: int)
    requires
        0 <= i < tbl.len(),
    ensures
        release_events(tbl.skip(i), t) == entry_release_events(tbl[i], t) + release_events(
            tbl.skip(i + 1),
            t,
        ),
{
    let s = tbl.skip(i);
    assert(s[0] == tbl[i]);
    assert(s.skip(1) =~= tbl.skip(i + 1));
}

/// Releasing preserves the mutual-exclusion invariant of a row.
proof fn lemma_released_info_inv(info: LockInfoView, t: u32)
    requires
        info_inv(info),
    ensures
        info_inv(released_info(info, t)),
{
    reveal_with_fuel(Seq::filter, 2);
    match info.exclusive_owner {
        Some(u) => {
            if u != t {
                if info.shared_owners.len() == 0 {
                    assert(info.shared_owners =~= Seq::<u32>::empty());
                } else {
                    assert(info.shared_owners =~= seq![u]);
                    assert(seq![u].drop_last() =~= Seq::<u32>::empty());
                    assert(seq![u].filter(not_owner(t)) == Seq::<u32>::empty().push(u));
                    assert(Seq::<u32>::empty().push(u) =~= seq![u]);
                }
            }
        },
        None => {},
    }
}

impl LockInfo {
    /// Record one more shared holder.
    pub fn add_shared_owner(&mut self, shared_owner: &u32)
        ensures
            final(self).shared_owners@ == old(self).shared_owners@.push(*shared_owner),
            final(self).exclusive_owner == old(self).exclusive_owner,
    {
        self.shared_owners.push(*shared_owner);
    }

    /// Record the exclusive holder.
    pub fn add_exclusive_owner(&mut self, exclusive_owner: &u32)
        ensures
            final(self).shared_owners@ == old(self).shared_owners@,
            final(self).exclusive_owner == Some(*exclusive_owner),
    {
        self.exclusive_owner = Some(*exclusive_owner);
    }

    /// Drop every shared entry of `transaction`, keeping the others in
    /// order.
    pub fn unlock_shared(&mut self, transaction: &u32)
        ensures
            final(self).shared_owners@ == old(self).shared_owners@.filter(
                not_owner(*transaction),
            ),
            final(self).exclusive_owner == old(self).exclusive_owner,
    {
        let t = *transaction;
        let mut kept: Vec<u32> = Vec::new();
        let n = self.shared_owners.len();
        let mut i: usize = 0;
        while i < n
            invariant
                i <= n,
                n == self.shared_owners.len(),
                self.shared_owners@ == old(self).shared_owners@,
                self.exclusive_owner == old(self).exclusive_owner,
                t == *transaction,
                kept@ == self.shared_owners@.take(i as int).filter(not_owner(t)),
            decreases n - i,
        {
            let ghost prefix = self.shared_owners@.take(i as int);
            let owner = self.shared_owners[i];
            if owner != t {
                kept.push(owner);
            }
            proof {
                let pred = not_owner(t);
                assert(self.shared_owners@.take(i + 1) =~= prefix + seq![owner]);
                Seq::filter_distributes_over_add(prefix, seq![owner], pred);
                reveal_with_fuel(Seq::filter, 2);
                assert(seq![owner].drop_last() =~= Seq::<u32>::empty());
                assert(seq![owner].last() == owner);
                if owner != t {
                    assert(seq![owner].filter(pred) == Seq::<u32>::empty().push(owner));
                    assert(prefix.filter(pred) + Seq::<u32>::empty().push(owner) =~= prefix.filter(
                        pred,
                    ).push(owner));
                } else {
                    assert(seq![owner].filter(pred) == Seq::<u32>::empty());
                    assert(prefix.filter(pred) + Seq::<u32>::empty() =~= prefix.filter(pred));
                }
            }
            i += 1;
        }
        proof {
            assert(self.shared_owners@.take(n as int) =~= self.shared_owners@);
        }
        self.shared_owners = kept;
    }

    /// Clear the exclusive holder.
    pub fn unlock_exclusive(&mut self)
        ensures
            final(self).shared_owners@ == old(self).shared_owners@,
            final(self).exclusive_owner is None,
    {
        self.exclusive_owner = None;
    }
}

/// The lock manager's table: one row per resource that has ever been locked.
/// A row whose lock state is empty counts as unlocked; rows are never
/// removed. Rows are kept in first-lock order, which fixes the order of the
/// release events fed into the history.
#[derive(Debug)]
pub struct LockTable {
    pub lock_table: Vec<LockEntry>,
}

impl View for LockTable {
    type V = Seq<EntryView>;

    open spec fn view(&self) -> Seq<EntryView> {
        Seq::new(self.lock_table@.len(), |i: int| self.lock_table@[i]@)
    }
}

impl LockTable {
    /// An empty table.
    pub fn new() -> (table: Self)
        ensures
            table@ == Seq::<EntryView>::empty(),
            table_inv(table@),
    {
        let table = Self { lock_table: Vec::new() };
        proof {
            assert(table@ =~= Seq::<EntryView>::empty());
        }
        table
    }

    /// The index of the row for `resource`, if the table has one.
    fn find_resource(&self, resource: &String) -> (found: Option<usize>)
        requires
            distinct_resources(self@),
        ensures
            match found {
                Some(i) => {
                    &&& i < self@.len()
                    &&& self@[i as int].resource == resource@
                    &&& table_has(self@, resource@)
                    &&& table_index(self@, resource@) == i
                },
                None => !table_has(self@, resource@),
            },
    {
        let n = self.lock_table.len();
        let mut i: usize = 0;
        while i < n
            invariant
                i <= n,
                n == self@.len(),
                distinct_resources(self@),
                forall|j: int| 0 <= j < i ==> self@[j].resource != resource@,
            decreases n - i,
        {
            if self.lock_table[i].resource == *resource {
                proof {
                    assert(self@[i as int].resource == resource@);
                    assert(table_has(self@, resource@));
                    let j = table_index(self@, resource@);
                    assert(0 <= j < self@.len() && self@[j].resource == resource@);
                    assert(j == i);
                }
                return Some(i);
            }
            i += 1;
        }
        None
    }

    /// Grants `transaction` a shared lock on `resource` unless some
    /// transaction holds the exclusive lock there. On a grant the requester
    /// is added to the shared holders (again, if it already holds one); a
    /// resource never seen before gets a fresh row. Returns whether the lock
    /// was granted; a refusal leaves the table unchanged.
    pub fn acquire_shared_lock(&mut self, transaction: &u32, resource: &String) -> (granted: bool)
        requires
            table_inv(old(self)@),
        ensures
            table_inv(final(self)@),
            granted == can_acquire_shared(old(self)@, resource@),
            granted ==> final(self)@ == grant_shared(old(self)@, *transaction, resource@),
            !granted ==> final(self)@ == old(self)@,
    {
        match self.find_resource(resource) {
            Some(i) => {
                if self.lock_table[i].info.exclusive_owner.is_some() {
                    false
                } else {
                    self.lock_table[i].info.add_shared_owner(transaction);
                    proof {
                        assert(self@ =~= grant_shared(old(self)@, *transaction, resource@));
                        assert forall|k: int| 0 <= k < self@.len() implies info_inv(
                            #[trigger] self@[k].info,
                        ) by {
                            if k != i {
                                assert(self@[k] == old(self)@[k]);
                            }
                        }
                    }
                    true
                }
            },
            None => {
                let mut owners: Vec<u32> = Vec::new();
                owners.push(*transaction);
                self.lock_table.push(
                    LockEntry {
                        resource: resource.clone(),
                        info: LockInfo { shared_owners: owners, exclusive_owner: None },
                    },
                );
                proof {
                    assert(owners@ =~= seq![*transaction]);
                    assert(self@ =~= grant_shared(old(self)@, *transaction, resource@));
                    assert forall|k: int| 0 <= k < self@.len() implies info_inv(
                        #[trigger] self@[k].info,
                    ) by {
                        if k < old(self)@.len() {
                            assert(self@[k] == old(self)@[k]);
                        }
                    }
                }
                true
            },
        }
    }

    /// Grants `transaction` the exclusive lock on `resource` iff no
    /// exclusive lock is held and either no shared lock is held or
    /// `transaction` is the sole shared holder (a lock upgrade, which leaves
    /// the shared entry in place). Returns whether the lock was granted; a
    /// refusal leaves the table unchanged.
    pub fn acquire_exclusive_lock(&mut self, transaction: &u32, resource: &String) -> (granted:
        bool)
        requires
            table_inv(old(self)@),
        ensures
            table_inv(final(self)@),
            granted == can_acquire_exclusive(old(self)@, *transaction, resource@),
            granted ==> final(self)@ == grant_exclusive(old(self)@, *transaction, resource@),
            !granted ==> final(self)@ == old(self)@,
    {
        match self.find_resource(resource) {
            Some(i) => {
                let entry = &self.lock_table[i];
                let needs_upgrade = entry.info.shared_owners.len() == 1
                    && entry.info.shared_owners[0] == *transaction;
                proof {
                    if needs_upgrade {
                        assert(self@[i as int].info.shared_owners =~= seq![*transaction]);
                    }
                }
                if entry.info.exclusive_owner.is_none() && (entry.info.shared_owners.len() == 0
                    || needs_upgrade) {
                    self.lock_table[i].info.add_exclusive_owner(transaction);
                    proof {
                        assert(self@ =~= grant_exclusive(old(self)@, *transaction, resource@));
                        assert forall|k: int| 0 <= k < self@.len() implies info_inv(
                            #[trigger] self@[k].info,
                        ) by {
                            if k != i {
                                assert(self@[k] == old(self)@[k]);
                            }
                        }
                    }
                    true
                } else {
                    false
                }
            },
            None => {
                self.lock_table.push(
                    LockEntry {
                        resource: resource.clone(),
                        info: LockInfo {
                            shared_owners: Vec::new(),
                            exclusive_owner: Some(*transaction),
                        },
                    },
                );
                proof {
                    assert(self@ =~= grant_exclusive(old(self)@, *transaction, resource@));
                    assert forall|k: int| 0 <= k < self@.len() implies info_inv(
                        #[trigger] self@[k].info,
                    ) by {
                        if k < old(self)@.len() {
                            assert(self@[k] == old(self)@[k]);
                        }
                    }
                }
                true
            },
        }
    }

    /// Releases every lock `transaction` holds: drops it from the shared
    /// holders of every row and clears the exclusive lock where it is the
    /// owner. Returns the release events, one `UnlockShared` per shared
    /// entry dropped followed by the `UnlockExclusive` where one was held,
    /// in row order, for the caller to log. Afterwards `transaction` holds
    /// no lock at all.
    pub fn remove_locks(&mut self, transaction: &u32) -> (unlocks: Vec<Operation>)
        requires
            table_inv(old(self)@),
        ensures
            table_inv(final(self)@),
            final(self)@ == release_table(old(self)@, *transaction),
            ops_view(unlocks@) == release_events(old(self)@, *transaction),
            forall|i: int|
                0 <= i < final(self)@.len() ==> !final(self)@[i].info.shared_owners.contains(
                    *transaction,
                ) && final(self)@[i].info.exclusive_owner != Some(*transaction),
    {
        let t = *transaction;
        let ghost tbl0 = self@;
        let mut unlocks: Vec<Operation> = Vec::new();
        let n = self.lock_table.len();
        proof {
            assert(tbl0.skip(0) =~= tbl0);
            assert(ops_view(unlocks@) =~= Seq::<OpView>::empty());
            assert(Seq::<OpView>::empty() + release_events(tbl0, t) =~= release_events(tbl0, t));
        }
        let mut i: usize = 0;
        while i < n
            invariant
                i <= n,
                n == self@.len(),
                self@.len() == tbl0.len(),
                t == *transaction,
                table_inv(tbl0),
                forall|j: int| 0 <= j < i ==> self@[j] == release_table(tbl0, t)[j],
                forall|j: int| i <= j < n ==> self@[j] == tbl0[j],
                ops_view(unlocks@) + release_events(tbl0.skip(i as int), t) == release_events(
                    tbl0,
                    t,
                ),
            decreases n - i,
        {
            let ghost entry0 = tbl0[i as int];
            let ghost ev_base = ops_view(unlocks@);
            let shared_len = self.lock_table[i].info.shared_owners.len();
            let ghost mid = self@;
            proof {
                assert(entry0.info.shared_owners.skip(0) =~= entry0.info.shared_owners);
            }
            let mut k: usize = 0;
            while k < shared_len
                invariant
                    k <= shared_len,
                    i < n,
                    n == self@.len(),
                    self@ == mid,
                    mid[i as int] == entry0,
                    shared_len == entry0.info.shared_owners.len(),
                    t == *transaction,
                    ops_view(unlocks@) + shared_release_events(
                        entry0.info.shared_owners.skip(k as int),
                        t,
                        entry0.resource,
                    ) == ev_base + shared_release_events(
                        entry0.info.shared_owners,
                        t,
                        entry0.resource,
                    ),
                decreases shared_len - k,
            {
                let ghost ev_pre = ops_view(unlocks@);
                let owner = self.lock_table[i].info.shared_owners[k];
                proof {
                    lemma_shared_events_skip(
                        entry0.info.shared_owners,
                        t,
                        entry0.resource,
                        k as int,
                    );
                }
                if owner == t {
                    let res = self.lock_table[i].resource.clone();
                    unlocks.push(Operation::UnlockShared(t, res));
                    proof {
                        lemma_ops_view_push(
                            unlocks@.drop_last(),
                            Operation::UnlockShared(t, res),
                        );
                        assert(unlocks@.drop_last() =~= unlocks@.subrange(
                            0,
                            unlocks@.len() - 1,
                        ));
                        assert(ops_view(unlocks@) =~= ev_pre.push(
                            OpView::UnlockShared(t, entry0.resource),
                        ));
                        assert(ev_pre.push(OpView::UnlockShared(t, entry0.resource)) =~= ev_pre
                            + seq![OpView::UnlockShared(t, entry0.resource)]);
                        assert((ev_pre + seq![OpView::UnlockShared(t, entry0.resource)])
                            + shared_release_events(
                            entry0.info.shared_owners.skip(k + 1),
                            t,
                            entry0.resource,
                        ) =~= ev_pre + (seq![OpView::UnlockShared(t, entry0.resource)]
                            + shared_release_events(
                            entry0.info.shared_owners.skip(k + 1),
                            t,
                            entry0.resource,
                        )));
                    }
                } else {
                    proof {
                        assert(Seq::<OpView>::empty() + shared_release_events(
                            entry0.info.shared_owners.skip(k + 1),
                            t,
                            entry0.resource,
                        ) =~= shared_release_events(
                            entry0.info.shared_owners.skip(k + 1),
                            t,
                            entry0.resource,
                        ));
                    }
                }
                k += 1;
            }
            proof {
                assert(entry0.info.shared_owners.skip(shared_len as int)
                    =~= Seq::<u32>::empty());
                assert(ops_view(unlocks@) + Seq::<OpView>::empty() =~= ops_view(unlocks@));
                assert(ops_view(unlocks@) == ev_base + shared_release_events(
                    entry0.info.shared_owners,
                    t,
                    entry0.resource,
                ));
            }
            self.lock_table[i].info.unlock_shared(&t);
            let exclusive_held = match self.lock_table[i].info.exclusive_owner {
                Some(owner) => owner == t,
                None => false,
            };
            if exclusive_held {
                let res = self.lock_table[i].resource.clone();
                unlocks.push(Operation::UnlockExclusive(t, res));
                self.lock_table[i].info.unlock_exclusive();
                proof {
                    lemma_ops_view_push(
                        unlocks@.drop_last(),
                        Operation::UnlockExclusive(t, res),
                    );
                    assert(unlocks@.drop_last() =~= unlocks@.subrange(0, unlocks@.len() - 1));
                }
            }
            proof {
                assert(self@[i as int].resource == entry0.resource);
                assert(self@[i as int].info.shared_owners == entry0.info.shared_owners.filter(
                    not_owner(t),
                ));
                assert(self@[i as int].info.exclusive_owner == released_info(
                    entry0.info,
                    t,
                ).exclusive_owner);
                assert(release_table(tbl0, t)[i as int] == EntryView {
                    resource: entry0.resource,
                    info: released_info(entry0.info, t),
                });
                assert(self@[i as int] == release_table(tbl0, t)[i as int]);
                if exclusive_held {
                    assert(ops_view(unlocks@) =~= (ev_base + shared_release_events(
                        entry0.info.shared_owners,
                        t,
                        entry0.resource,
                    )).push(OpView::UnlockExclusive(t, entry0.resource)));
                    assert(ops_view(unlocks@) =~= ev_base + entry_release_events(entry0, t));
                } else {
                    assert(shared_release_events(entry0.info.shared_owners, t, entry0.resource)
                        + Seq::<OpView>::empty() =~= shared_release_events(
                        entry0.info.shared_owners,
                        t,
                        entry0.resource,
                    ));
                    assert(ops_view(unlocks@) =~= ev_base + entry_release_events(entry0, t));
                }
                lemma_release_events_skip(tbl0, t, i as int);
                assert((ev_base + entry_release_events(entry0, t)) + release_events(
                    tbl0.skip(i + 1),
                    t,
                ) =~= ev_base + (entry_release_events(entry0, t) + release_events(
                    tbl0.skip(i + 1),
                    t,
                )));
            }
            i += 1;
        }
        proof {
            assert(self@ =~= release_table(tbl0, t));
            assert(tbl0.skip(n as int) =~= Seq::<EntryView>::empty());
            assert(ops_view(unlocks@) + Seq::<OpView>::empty() =~= ops_view(unlocks@));
            lemma_release_completeness(tbl0, t);
            assert forall|j: int| 0 <= j < self@.len() implies info_inv(
                #[trigger] self@[j].info,
            ) by {
                lemma_released_info_inv(tbl0[j].info, t);
            }
        }
        unlocks
    }
}

} // verus!
