//! Why a session ends without a transaction.

use vstd::prelude::*;

verus! {

/// The errors that end a session.
#[derive(Clone, Copy, Debug, PartialEq, Eq)]
pub enum SnowballError {
    /// Fewer than three participants are left; the count is given.
    TooFewParticipants(usize),
    /// This participant is not among those who take part: the pool was
    /// announced without it, or blame found a fault in its own
    /// contribution.
    NotInParticipantList,
    /// The pool was announced by someone who is not the facilitator.
    BadFacilitator,
    /// A matrix for the participants of the round is longer than this
    /// machine can hold.
    MatrixTooLarge,
    /// The joint transaction failed its validation, and the checks found
    /// no fault in any other participant: no smaller round can begin.
    NobodyToBlame,
}

} // verus!
