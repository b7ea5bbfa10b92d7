use vstd::prelude::*;

pub mod lock_table;
pub mod parser;
pub mod scheduler;

verus! {

/// One operation of a transaction log. `Read`, `Write`, `Commit` and `Abort`
/// come from the input log; the `Lock*` and `Unlock*` variants are synthetic
/// events that the scheduler emits into the final history. `Unknown` stands
/// for an unrecognized log record and is treated as a no-op.
///
/// The first field is the transaction identifier; the second, where present,
/// is the resource identifier. The empty string is reserved for operations
/// without a resource.
#[derive(Debug, PartialEq, Eq)]
pub enum Operation {
    LockShared(u32, String),
    LockExclusive(u32, String),
    Read(u32, String),
    Write(u32, String),
    UnlockShared(u32, String),
    UnlockExclusive(u32, String),
    Commit(u32),
    Abort(u32),
    Unknown,
}

/// Mathematical form of an [`Operation`]: the resource identifier is a
/// sequence of characters.
#[verifier::ext_equal]
pub enum OpView {
    LockShared(u32, Seq<char>),
    LockExclusive(u32, Seq<char>),
    Read(u32, Seq<char>),
    Write(u32, Seq<char>),
    UnlockShared(u32, Seq<char>),
    UnlockExclusive(u32, Seq<char>),
    Commit(u32),
    Abort(u32),
    Unknown,
}

impl Clone for Operation {
    /// A clone is equal to the original, resource included.
    fn clone(&self) -> (res: Self)
        ensures
            res == *self,
    {
        match self {
            Operation::LockShared(t, r) => Operation::LockShared(*t, r.clone()),
            Operation::LockExclusive(t, r) => Operation::LockExclusive(*t, r.clone()),
            Operation::Read(t, r) => Operation::Read(*t, r.clone()),
            Operation::Write(t, r) => Operation::Write(*t, r.clone()),
            Operation::UnlockShared(t, r) => Operation::UnlockShared(*t, r.clone()),
            Operation::UnlockExclusive(t, r) => Operation::UnlockExclusive(*t, r.clone()),
            Operation::Commit(t) => Operation::Commit(*t),
            Operation::Abort(t) => Operation::Abort(*t),
            Operation::Unknown => Operation::Unknown,
        }
    }
}

impl View for Operation {
    type V = OpView;

    open spec fn view(&self) -> OpView {
        match self {
            Operation::LockShared(t, r) => OpView::LockShared(*t, r@),
            Operation::LockExclusive(t, r) => OpView::LockExclusive(*t, r@),
            Operation::Read(t, r) => OpView::Read(*t, r@),
            Operation::Write(t, r) => OpView::Write(*t, r@),
            Operation::UnlockShared(t, r) => OpView::UnlockShared(*t, r@),
            Operation::UnlockExclusive(t, r) => OpView::UnlockExclusive(*t, r@),
            Operation::Commit(t) => OpView::Commit(*t),
            Operation::Abort(t) => OpView::Abort(*t),
            Operation::Unknown => OpView::Unknown,
        }
    }
}

/// The views of a sequence of operations, element by element.
pub open spec fn ops_view(s: Seq<Operation>) -> Seq<OpView> {
    s.map_values(|op: Operation| op@)
}

/// Mapping the view over a pushed element is the push of the mapped views.
pub proof fn lemma_ops_view_push(s: Seq<Operation>, op: Operation)
    ensures
        ops_view(s.push(op)) == ops_view(s).push(op@),
{
    assert(ops_view(s.push(op)) =~= ops_view(s).push(op@));
}

/// Mapping the view over a concatenation distributes over the two parts.
pub proof fn lemma_ops_view_add(a: Seq<Operation>, b: Seq<Operation>)
    ensures
        ops_view(a + b) == ops_view(a) + ops_view(b),
{
    assert(ops_view(a + b) =~= ops_view(a) + ops_view(b));
}

} // verus!
