//! The model of a listener's behaviour: the sequence of handler invocations
//! that it makes, each with the argument it passed and the result it observed.
use vstd::prelude::*;

use internet2::presentation;
use lnp::p2p::bolt::Messages;

verus! {

/// One invocation of a handler method, with its argument and its result.
pub enum Call<E> {
    /// `handle(message)` returned `outcome`.
    Handle { message: Messages, outcome: Result<(), E> },
    /// `handle_err(error)` returned `outcome`.
    HandleErr { error: E, outcome: Result<(), E> },
}

/// `error` is what converting the presentation failure `cause` into the
/// handler's error type gives, as far as the conversion is specified.
pub open spec fn converted_from<E: From<presentation::Error>>(
    cause: presentation::Error,
    error: E,
) -> bool {
    <E as vstd::std_specs::convert::FromSpec<presentation::Error>>::obeys_from_spec() ==> error
        == <E as vstd::std_specs::convert::FromSpec<presentation::Error>>::from_spec(cause)
}

/// `calls` are the invocations of one loop iteration on the receive outcome
/// `received`: a received message goes to `handle`, and an error of `handle`
/// to `handle_err`; a receive failure goes, converted, to `handle_err` alone.
pub open spec fn is_round<E: From<presentation::Error>>(
    received: Result<Messages, presentation::Error>,
    calls: Seq<Call<E>>,
) -> bool {
    match received {
        Ok(message) => {
            &&& calls.len() >= 1
            &&& calls[0] is Handle
            &&& calls[0]->Handle_message == message
            &&& if calls[0]->Handle_outcome is Ok {
                calls.len() == 1
            } else {
                &&& calls.len() == 2
                &&& calls[1] is HandleErr
                &&& calls[1]->HandleErr_error == calls[0]->Handle_outcome->Err_0
            }
        },
        Err(cause) => {
            &&& calls.len() == 1
            &&& calls[0] is HandleErr
            &&& converted_from(cause, calls[0]->HandleErr_error)
        },
    }
}

/// The invocations of `after` past the length of `before`: those made since
/// `before` was recorded, where `after` extends it.
pub open spec fn since<E>(before: Seq<Call<E>>, after: Seq<Call<E>>) -> Seq<Call<E>> {
    after.skip(before.len() as int)
}

/// How an iteration ends: with the error that `handle_err` returned, if its
/// last invocation was one that failed, and with `Ok` otherwise.
pub open spec fn ending<E>(calls: Seq<Call<E>>) -> Result<(), E> {
    if calls.len() > 0 && calls.last() is HandleErr {
        calls.last()->HandleErr_outcome
    } else {
        Ok(())
    }
}

/// `rounds[i]` are the invocations made for `incoming[i]`; every round but
/// the last one was absorbed, and the run ends with `end`: `Ok` when every
/// receive outcome was processed and absorbed, or the error that ended the
/// last round.
pub open spec fn is_run<E: From<presentation::Error>>(
    incoming: Seq<Result<Messages, presentation::Error>>,
    rounds: Seq<Seq<Call<E>>>,
    end: Result<(), E>,
) -> bool {
    &&& rounds.len() <= incoming.len()
    &&& forall|i: int| 0 <= i < rounds.len() ==> is_round(incoming[i], #[trigger] rounds[i])
    &&& forall|i: int| 0 <= i < rounds.len() - 1 ==> (#[trigger] ending(rounds[i])) is Ok
    &&& match end {
        Ok(_) => {
            &&& rounds.len() == incoming.len()
            &&& rounds.len() > 0 ==> ending(rounds.last()) is Ok
        },
        Err(e) => {
            &&& rounds.len() > 0
            &&& ending(rounds.last()) == Err::<(), E>(e)
        },
    }
}

/// The messages passed to `handle`, in the order of the invocations.
pub open spec fn handled<E>(calls: Seq<Call<E>>) -> Seq<Messages>
    decreases calls.len(),
{
    if calls.len() == 0 {
        Seq::empty()
    } else {
        let earlier = handled(calls.drop_last());
        match calls.last() {
            Call::Handle { message, .. } => earlier.push(message),
            Call::HandleErr { .. } => earlier,
        }
    }
}

/// The messages among the receive outcomes, in the order of arrival.
pub open spec fn received_messages(incoming: Seq<Result<Messages, presentation::Error>>) -> Seq<
    Messages,
>
    decreases incoming.len(),
{
    if incoming.len() == 0 {
        Seq::empty()
    } else {
        let earlier = received_messages(incoming.drop_last());
        match incoming.last() {
            Ok(message) => earlier.push(message),
            Err(_) => earlier,
        }
    }
}

} // verus!
