//! The capability that a listener dispatches messages and errors to.
use vstd::prelude::*;

use internet2::presentation;
use lnp::p2p::bolt::Messages;

use crate::trace::Call;

verus! {

/// Processes peer messages and classifies errors as recoverable or fatal.
///
/// `calls` is the record of the invocations of `handle` and `handle_err`
/// on this handler, each with its argument and its result; each of the two
/// methods extends it by exactly its own invocation.
pub trait Handler {
    /// Failure of message processing; every presentation-layer failure of
    /// the receive path converts into it.
    type Error: From<presentation::Error>;

    /// Every invocation of `handle` and `handle_err` so far, in order.
    /// A verified implementation defines it to meet the `ensures` of both
    /// methods; the empty default stands only for implementations written
    /// outside verification, which nothing proves anything of.
    closed spec fn calls(&self) -> Seq<Call<Self::Error>> {
        Seq::empty()
    }

    /// Processes one decoded peer message.
    fn handle(&mut self, message: Messages) -> (r: Result<(), Self::Error>)
        ensures
            final(self).calls() == old(self).calls().push(Call::Handle { message, outcome: r }),
    ;

    /// Decides the fate of the loop after `error`: `Ok` absorbs it and the
    /// loop goes on, `Err` ends the loop with the returned error.
    fn handle_err(&mut self, error: Self::Error) -> (r: Result<(), Self::Error>)
        ensures
            final(self).calls() == old(self).calls().push(Call::HandleErr { error, outcome: r }),
    ;
}

} // verus!
