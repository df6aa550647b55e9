//! What is promised of the gateway's results.
use crate::gateway::{any_aborted, any_failed, CommandResult, Status};
use vstd::prelude::*;

verus! {

/// One partition that says that it aborted is enough, and a code without a meaning is none.
pub proof fn any_abort_is_found(results: &[CommandResult], b: bool)
    requires
        call_ensures(any_aborted, (results,), b),
    ensures
        b <==> exists|i: int|
            0 <= i < results@.len() && (#[trigger] results@[i]).status == Status::Aborted,
{
}

/// One partition that failed is enough.
pub proof fn any_failure_is_found(results: &[CommandResult], b: bool)
    requires
        call_ensures(any_failed, (results,), b),
    ensures
        b <==> exists|i: int| 0 <= i < results@.len() && (#[trigger] results@[i]).has_err,
{
}

} // verus!
