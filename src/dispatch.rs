//! The request/reply vocabulary of the dispatch actor: the one owner of the
//! storage state serves commands and queries one at a time, in the order in
//! which they reach its mailbox.

use vstd::prelude::*;

verus! {

/// Failures of the dispatch channel.
#[derive(Clone, Copy, Debug, PartialEq, Eq, Structural)]
pub enum CqrsError {
    /// No more requests can ever arrive, or the owning loop is gone.
    ChannelClosed,
    /// The caller stopped waiting for its reply.
    SenderUnavailable,
}

/// A request served by the dispatch actor, with the type of its reply.
pub trait Request: Sized {
    type Result: Sized;
}

impl Request for () {
    type Result = ();
}

/// A request as it leaves the mailbox: a command or a query.
pub enum Envelope<C, Q> {
    Command(C),
    Query(Q),
}

/// The outcome of one step of the owning loop: `received` says whether a
/// request came out of the mailbox, `delivered` whether its reply reached
/// the caller. Only a mailbox that no handle can reach any more ends the
/// loop; an abandoned caller is reported and the loop goes on.
pub fn step_outcome(received: bool, delivered: bool) -> (r: Result<(), CqrsError>)
    ensures
        !received ==> r == Err::<(), CqrsError>(CqrsError::ChannelClosed),
        received && delivered ==> r == Ok::<(), CqrsError>(()),
        received && !delivered ==> r == Err::<(), CqrsError>(CqrsError::SenderUnavailable),
{
    if !received {
        Err(CqrsError::ChannelClosed)
    } else if delivered {
        Ok(())
    } else {
        Err(CqrsError::SenderUnavailable)
    }
}

} // verus!
