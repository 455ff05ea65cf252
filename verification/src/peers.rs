//! How a call to another node runs: on one connection, which is kept open.
use crate::types::NodeId;
use std::collections::BTreeSet;
use vstd::prelude::*;

verus! {

/// How a call starts.
#[derive(Debug, Clone, Copy, PartialEq, Eq, Structural)]
pub enum CallStep {
    /// The peer is cut off; it is not called.
    Refuse,
    /// The call is made on the connection that is open.
    Reuse,
    /// A connection is opened, and the call is made on it.
    Connect,
}

/// How a call goes on once its exchange is over.
#[derive(Debug, Clone, Copy, PartialEq, Eq, Structural)]
pub enum CallEnd {
    /// The answer is there; the connection stays open.
    Answered,
    /// The peer has closed the connection since: the call is made on a new one.
    Again,
    /// The peer cannot be reached.
    Unreachable,
}

/// Decides how a call of `target` starts: never where it is cut off, and on the
/// connection that is open where there is one.
pub fn start_call(blocked: &BTreeSet<NodeId>, target: NodeId, open: bool) -> (r: CallStep)
    ensures
        r == if blocked@.contains(target) {
            CallStep::Refuse
        } else if open {
            CallStep::Reuse
        } else {
            CallStep::Connect
        },
{
    if blocked.contains(&target) {
        CallStep::Refuse
    } else if open {
        CallStep::Reuse
    } else {
        CallStep::Connect
    }
}

/// Decides how a call goes on: only one that was made on a kept connection is made a
/// second time.
pub fn end_call(step: CallStep, answered: bool) -> (r: CallEnd)
    ensures
        r == if answered && step != CallStep::Refuse {
            CallEnd::Answered
        } else if step == CallStep::Reuse {
            CallEnd::Again
        } else {
            CallEnd::Unreachable
        },
{
    match (step, answered) {
        (CallStep::Refuse, _) => CallEnd::Unreachable,
        (_, true) => CallEnd::Answered,
        (CallStep::Reuse, false) => CallEnd::Again,
        (CallStep::Connect, false) => CallEnd::Unreachable,
    }
}

} // verus!
