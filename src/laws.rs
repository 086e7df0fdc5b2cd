//! Properties of every run of the loop, stated over the model of
//! [`crate::trace`] that [`crate::Listener::step`] and
//! [`crate::Listener::drain`] guarantee.
use vstd::prelude::*;

use internet2::presentation;
use lnp::p2p::bolt::Messages;

use crate::trace::{Call, converted_from, ending, handled, is_round, is_run, received_messages};

verus! {

pub(crate) proof fn lemma_handled_concat<E>(a: Seq<Call<E>>, b: Seq<Call<E>>)
    ensures
        handled(a + b) == handled(a) + handled(b),
    decreases b.len(),
{
    if b.len() == 0 {
        assert(a + b =~= a);
        assert(handled(a) + handled(b) =~= handled(a));
    } else {
        lemma_handled_concat(a, b.drop_last());
        assert((a + b).drop_last() =~= a + b.drop_last());
        assert((a + b).last() == b.last());
        match b.last() {
            Call::Handle { message, .. } => {
                assert(handled(a) + handled(b.drop_last()).push(message) =~= (handled(a)
                    + handled(b.drop_last())).push(message));
            },
            Call::HandleErr { .. } => {},
        }
    }
}

proof fn lemma_round_handled<E: From<presentation::Error>>(
    received: Result<Messages, presentation::Error>,
    calls: Seq<Call<E>>,
)
    requires
        is_round(received, calls),
    ensures
        handled(calls) == received_messages(seq![received]),
{
    let one = seq![received];
    assert(one.drop_last() =~= Seq::<Result<Messages, presentation::Error>>::empty());
    assert(one.last() == received);
    assert(received_messages(one.drop_last()) =~= Seq::<Messages>::empty());
    let first = calls.take(1);
    assert(first.drop_last() =~= Seq::<Call<E>>::empty());
    assert(handled(first.drop_last()) =~= Seq::<Messages>::empty());
    assert(first.last() == calls[0]);
    if calls.len() == 2 {
        assert(calls.drop_last() =~= first);
        assert(calls.last() == calls[1]);
    } else {
        assert(calls =~= first);
    }
    match received {
        Ok(message) => {
            assert(received_messages(one) =~= seq![message]);
            assert(handled(first) =~= seq![message]);
        },
        Err(_) => {
            assert(received_messages(one) =~= Seq::<Messages>::empty());
            assert(handled(first) =~= Seq::<Messages>::empty());
        },
    }
}

proof fn lemma_prefix_handled<E: From<presentation::Error>>(
    incoming: Seq<Result<Messages, presentation::Error>>,
    rounds: Seq<Seq<Call<E>>>,
    j: int,
)
    requires
        0 <= j <= rounds.len() <= incoming.len(),
        forall|i: int| 0 <= i < rounds.len() ==> is_round(incoming[i], #[trigger] rounds[i]),
    ensures
        handled(rounds.take(j).flatten()) == received_messages(incoming.take(j)),
    decreases j,
{
    if j == 0 {
        assert(rounds.take(0) =~= Seq::<Seq<Call<E>>>::empty());
        assert(incoming.take(0) =~= Seq::<Result<Messages, presentation::Error>>::empty());
    } else {
        let k = j - 1;
        lemma_prefix_handled(incoming, rounds, k);
        let before = rounds.take(k);
        assert(rounds.take(j) =~= before.push(rounds[k]));
        before.lemma_flatten_push(rounds[k]);
        lemma_handled_concat(before.flatten(), rounds[k]);
        lemma_round_handled(incoming[k], rounds[k]);
        let one = seq![incoming[k]];
        assert(one.drop_last() =~= Seq::<Result<Messages, presentation::Error>>::empty());
        assert(one.last() == incoming[k]);
        assert(received_messages(one.drop_last()) =~= Seq::<Messages>::empty());
        assert(incoming.take(j).drop_last() =~= incoming.take(k));
        assert(incoming.take(j).last() == incoming[k]);
        match incoming[k] {
            Ok(message) => {
                assert(received_messages(one) =~= seq![message]);
                assert(received_messages(incoming.take(k)) + seq![message] =~= received_messages(
                    incoming.take(k),
                ).push(message));
            },
            Err(_) => {
                assert(received_messages(one) =~= Seq::<Messages>::empty());
                assert(received_messages(incoming.take(k)) + Seq::<Messages>::empty()
                    =~= received_messages(incoming.take(k)));
            },
        }
    }
}

/// Every message received before the loop ended reaches `handle` exactly
/// once, in the order of arrival, and nothing else reaches it; when the run
/// absorbed everything, those are all the received messages.
pub proof fn in_order_exactly_once<E: From<presentation::Error>>(
    incoming: Seq<Result<Messages, presentation::Error>>,
    rounds: Seq<Seq<Call<E>>>,
    end: Result<(), E>,
)
    requires
        is_run(incoming, rounds, end),
    ensures
        handled(rounds.flatten()) == received_messages(incoming.take(rounds.len() as int)),
        end is Ok ==> handled(rounds.flatten()) == received_messages(incoming),
{
    let n = rounds.len() as int;
    lemma_prefix_handled(incoming, rounds, n);
    assert(rounds.take(n) =~= rounds);
    if end is Ok {
        assert(incoming.take(n) =~= incoming);
    }
}

/// A failed receive never reaches `handle`: its round is a single
/// invocation of `handle_err`, with the error converted from the failure.
pub proof fn receive_failure_bypasses_handle<E: From<presentation::Error>>(
    cause: presentation::Error,
    calls: Seq<Call<E>>,
)
    requires
        is_round(Err(cause), calls),
    ensures
        handled(calls) == Seq::<Messages>::empty(),
        calls.len() == 1,
        calls[0] is HandleErr,
        converted_from(cause, calls[0]->HandleErr_error),
{
    assert(calls.drop_last() =~= Seq::<Call<E>>::empty());
    assert(handled(calls.drop_last()) =~= Seq::<Messages>::empty());
    assert(calls.last() == calls[0]);
}

/// A round that `handle_err` absorbed, or that needed no recovery, does not
/// end the loop: the next receive outcome is processed.
pub proof fn absorbed_round_continues<E: From<presentation::Error>>(
    incoming: Seq<Result<Messages, presentation::Error>>,
    rounds: Seq<Seq<Call<E>>>,
    end: Result<(), E>,
    k: int,
)
    requires
        is_run(incoming, rounds, end),
        0 <= k < rounds.len(),
        ending(rounds[k]) is Ok,
        k + 1 < incoming.len(),
    ensures
        k + 1 < rounds.len(),
{
}

/// An error returned by `handle_err` ends the loop at once with that error:
/// it is the last invocation of its round, and no later receive outcome is
/// processed.
pub proof fn escalation_ends_run<E: From<presentation::Error>>(
    incoming: Seq<Result<Messages, presentation::Error>>,
    rounds: Seq<Seq<Call<E>>>,
    end: Result<(), E>,
    k: int,
)
    requires
        is_run(incoming, rounds, end),
        0 <= k < rounds.len(),
        ending(rounds[k]) is Err,
    ensures
        rounds.len() == k + 1,
        end == ending(rounds[k]),
        rounds[k].last() is HandleErr,
        rounds[k].last()->HandleErr_outcome == end,
{
}

} // verus!
