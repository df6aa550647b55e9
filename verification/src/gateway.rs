//! What the gateway answers to a command.
use crate::gather;
use vstd::prelude::*;

verus! {

/// Whether a command took effect.
#[derive(Clone, Copy, Debug, PartialEq, Eq, Structural)]
pub enum Status {
    Committed,
    Aborted,
    /// Neither of the two: a code that has no meaning, which is read as that of an aborted command
    /// or of a committed one.
    Unrecognized { aborted: bool },
}

/// Whether a status is read as that of an aborted command.
pub open spec fn reads_aborted(status: Status) -> bool {
    match status {
        Status::Committed => false,
        Status::Aborted => true,
        Status::Unrecognized { aborted } => aborted,
    }
}

/// What one operation of a command gave.
#[derive(Debug)]
pub struct OperationResult {
    /// The operation's number within its command.
    pub id: u32,
    pub content: String,
    pub has_err: bool,
}

impl Clone for OperationResult {
    fn clone(&self) -> (r: Self)
        ensures
            r == *self,
    {
        OperationResult { id: self.id, content: self.content.clone(), has_err: self.has_err }
    }
}

/// What one partition answered to a command.
#[derive(Debug)]
pub struct CommandResult {
    pub status: Status,
    pub content: String,
    pub has_err: bool,
    pub ops: Vec<OperationResult>,
}

/// Whether any partition says that it aborted. A code that has no meaning does not say so,
/// however it is read.
pub open spec fn some_aborted(results: Seq<CommandResult>) -> bool {
    exists|i: int| 0 <= i < results.len() && (#[trigger] results[i]).status == Status::Aborted
}

/// Whether any partition reported an error.
pub open spec fn some_failed(results: Seq<CommandResult>) -> bool {
    exists|i: int| 0 <= i < results.len() && (#[trigger] results[i]).has_err
}

/// The order of the partitions does not matter to whether any failed or aborted.
pub proof fn some_ignores_order(a: Seq<CommandResult>, b: Seq<CommandResult>)
    requires
        a.to_multiset() == b.to_multiset(),
    ensures
        some_failed(a) == some_failed(b),
        some_aborted(a) == some_aborted(b),
{
    some_stays(a, b);
    some_stays(b, a);
}

proof fn some_stays(a: Seq<CommandResult>, b: Seq<CommandResult>)
    requires
        a.to_multiset() == b.to_multiset(),
    ensures
        some_failed(a) ==> some_failed(b),
        some_aborted(a) ==> some_aborted(b),
{
    assert forall|i: int| 0 <= i < a.len() implies b.contains(#[trigger] a[i]) by {
        assert(a.contains(a[i]));
        gather::same_elements(a, b, a[i]);
    }
}

/// Whether any partition says that it aborted.
pub fn any_aborted(results: &[CommandResult]) -> (b: bool)
    ensures
        b == some_aborted(results@),
{
    for i in 0..results.len()
        invariant
            forall|j: int| 0 <= j < i ==> (#[trigger] results@[j]).status != Status::Aborted,
    {
        if results[i].status == Status::Aborted {
            return true;
        }
    }
    false
}

/// Whether any partition reported an error.
pub fn any_failed(results: &[CommandResult]) -> (b: bool)
    ensures
        b == some_failed(results@),
{
    for i in 0..results.len()
        invariant
            forall|j: int| 0 <= j < i ==> !(#[trigger] results@[j]).has_err,
    {
        if results[i].has_err {
            return true;
        }
    }
    false
}

} // verus!
