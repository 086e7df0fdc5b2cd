//! The sequential receive, dispatch and recover loop of one peer connection.
//!
//! The receive handle stays with the caller, which performs each receive and
//! hands its outcome to [`Listener::step`]; a listener owns its handler and
//! decides what is invoked for that outcome and whether the loop goes on.
use vstd::prelude::*;

use internet2::presentation;
use lnp::p2p::bolt::Messages;

use crate::handler::Handler;
use crate::laws::{in_order_exactly_once, lemma_handled_concat};
use crate::trace::{
    Call, converted_from, ending, since, handled, is_round, is_run, received_messages,
};

verus! {

/// Dispatches received messages to a handler and routes every failure
/// through the handler's recovery decision. A listener is running until
/// `handle_err` returns an error; from then on it is terminated for good.
pub struct Listener<H: Handler> {
    handler: H,
    terminated: bool,
}

impl<H: Handler> Listener<H> {
    /// The handler that the listener owns.
    pub closed spec fn handler(&self) -> H {
        self.handler
    }

    /// Whether the loop has ended on an error of `handle_err`.
    pub closed spec fn is_terminated(&self) -> bool {
        self.terminated
    }

    /// Every handler invocation so far, in order, with its result, as the
    /// handler itself records them.
    pub open spec fn trace(&self) -> Seq<Call<H::Error>> {
        self.handler().calls()
    }

    /// Pairs a ready-to-use handler with a loop that is running.
    pub fn with(handler: H) -> (r: Self)
        ensures
            r.handler() == handler,
            !r.is_terminated(),
    {
        Listener { handler, terminated: false }
    }

    /// Whether the loop has ended; a terminated listener cannot run again.
    pub fn terminated(&self) -> (r: bool)
        ensures
            r == self.is_terminated(),
    {
        self.terminated
    }

    /// Processes one receive outcome up to the point where an error would
    /// go to `handle_err`: a message goes to `handle` and its result comes
    /// back; a receive failure comes back converted, with nothing invoked.
    fn run(&mut self, received: Result<Messages, presentation::Error>) -> (r: Result<(), H::Error>)
        ensures
            final(self).is_terminated() == old(self).is_terminated(),
            match received {
                Ok(message) => final(self).trace() == old(self).trace().push(
                    Call::Handle { message, outcome: r },
                ),
                Err(cause) => {
                    &&& final(self).trace() == old(self).trace()
                    &&& r is Err
                    &&& converted_from(cause, r->Err_0)
                },
            },
    {
        match received {
            Ok(message) => self.handler.handle(message),
            Err(cause) => Err(H::Error::from(cause)),
        }
    }

    /// One iteration of the loop on the outcome of one receive. Any error,
    /// of the receive or of `handle`, goes to `handle_err`; the iteration
    /// returns the error that `handle_err` returned, which terminates the
    /// listener, and `Ok` when no error was left.
    pub fn step(&mut self, received: Result<Messages, presentation::Error>) -> (r: Result<
        (),
        H::Error,
    >)
        requires
            !old(self).is_terminated(),
        ensures
            final(self).trace() == old(self).trace() + since(old(self).trace(), final(self).trace()),
            is_round(received, since(old(self).trace(), final(self).trace())),
            r is Ok <==> ending(since(old(self).trace(), final(self).trace())) is Ok,
            r matches Err(e) ==> ending(since(old(self).trace(), final(self).trace())) == Err::<
                (),
                H::Error,
            >(e),
            final(self).is_terminated() == r is Err,
    {
        let ghost before = self.trace();
        let ghost received_copy = received;
        let dispatched = self.run(received);
        if let Err(error) = dispatched {
            let decision = self.handler.handle_err(error);
            proof {
                let calls = since(before, self.trace());
                assert(self.trace() =~= before + calls);
                assert(is_round(received_copy, calls));
            }
            if decision.is_err() {
                self.terminated = true;
            }
            decision
        } else {
            proof {
                let calls = since(before, self.trace());
                assert(self.trace() =~= before + calls);
                assert(is_round(received_copy, calls));
                assert(calls.last() == calls[0]);
            }
            dispatched
        }
    }

    /// Runs the loop over receive outcomes that arrive in the order of
    /// `incoming`, until they are all processed or `handle_err` ends it
    /// with the error that is returned.
    pub fn drain(&mut self, incoming: Vec<Result<Messages, presentation::Error>>) -> (r: Result<
        (),
        H::Error,
    >)
        requires
            !old(self).is_terminated(),
        ensures
            exists|rounds: Seq<Seq<Call<H::Error>>>|
                {
                    &&& #[trigger] is_run(incoming@, rounds, r)
                    &&& final(self).trace() == old(self).trace() + rounds.flatten()
                    &&& handled(rounds.flatten()) == received_messages(
                        incoming@.take(rounds.len() as int),
                    )
                },
            final(self).is_terminated() == r is Err,
            r is Ok ==> handled(final(self).trace()) == handled(old(self).trace())
                + received_messages(incoming@),
    {
        let ghost original = incoming@;
        let ghost start = self.trace();
        let ghost mut rounds: Seq<Seq<Call<H::Error>>> = Seq::empty();
        let mut pending = incoming;
        while pending.len() > 0
            invariant
                original == incoming@,
                start == old(self).trace(),
                !self.is_terminated(),
                rounds.len() <= original.len(),
                pending@ == original.skip(rounds.len() as int),
                forall|i: int|
                    0 <= i < rounds.len() ==> is_round(original[i], #[trigger] rounds[i]),
                forall|i: int| 0 <= i < rounds.len() ==> (#[trigger] ending(rounds[i])) is Ok,
                self.trace() == start + rounds.flatten(),
            decreases pending.len(),
        {
            let ghost k = rounds.len() as int;
            let received = pending.remove(0);
            assert(received == original[k]);
            let ghost before = self.trace();
            let outcome = self.step(received);
            proof {
                let calls = since(before, self.trace());
                rounds.lemma_flatten_push(calls);
                rounds = rounds.push(calls);
                assert(pending@ =~= original.skip(rounds.len() as int));
                assert(self.trace() =~= start + rounds.flatten());
            }
            match outcome {
                Ok(()) => {},
                Err(fatal) => {
                    proof {
                        assert(is_run(original, rounds, Err::<(), H::Error>(fatal)));
                        in_order_exactly_once(original, rounds, outcome);
                        assert(self.trace() == start + rounds.flatten());
                        assert(handled(rounds.flatten()) == received_messages(
                            original.take(rounds.len() as int)));
                    }
                    return Err(fatal);
                },
            }
        }
        proof {
            assert(rounds.len() == original.len());
            assert(is_run(original, rounds, Ok::<(), H::Error>(())));
            in_order_exactly_once(original, rounds, Ok(()));
            lemma_handled_concat(start, rounds.flatten());
        }
        Ok(())
    }
}

} // verus!
