//! A connection seen whole: the dispatch table together with the requests
//! and subscriptions it points at, and what a run of responses, or the loss
//! of the connection, makes of them.

use vstd::prelude::*;
use crate::codec::RPCResult;
use crate::dispatch::{SeqHandler, TableModel};
use crate::request::{Poll, RequestState};
use crate::stream::StreamModel;

verus! {

/// A connection with all its waiting parties as a mathematical value: the
/// table, the single requests and the subscriptions. A single-shot handler
/// targets a request by its number, a persistent one a subscription.
pub struct Parties<W, R> {
    pub table: TableModel<int>,
    pub requests: Map<int, RequestState<W, R>>,
    pub streams: Map<int, StreamModel<W, R>>,
}

impl<W, R> Parties<W, R> {
    /// True when a single-shot handler is registered under `seq`.
    pub open spec fn awaits(self, seq: u64) -> bool {
        self.table.handlers.contains_key(seq) && !self.table.handlers[seq].streaming
    }

    /// The number of the party that the handler under `seq` points at.
    pub open spec fn target_of(self, seq: u64) -> int {
        self.table.handlers[seq].target
    }

    /// Every single-shot handler points at a request that waits, and no two
    /// handlers of one kind point at the same party.
    pub open spec fn wf(self) -> bool {
        &&& forall|s: u64| #[trigger]
            self.awaits(s) ==> self.requests[self.target_of(s)] is Pending
        &&& forall|a: u64, b: u64|
            #![trigger self.table.handlers[a], self.table.handlers[b]]
            self.table.handlers.contains_key(a) && self.table.handlers.contains_key(b) && a != b
                ==> self.table.handlers[a] != self.table.handlers[b]
    }

    /// The parties after `res` was delivered to the target of `handler`.
    pub open spec fn deliver_to(self, handler: SeqHandler<int>, res: RPCResult<R>) -> Self {
        if handler.streaming {
            Parties {
                table: self.table,
                requests: self.requests,
                streams: self.streams.insert(
                    handler.target,
                    self.streams[handler.target].deliver(res),
                ),
            }
        } else {
            Parties {
                table: self.table,
                requests: self.requests.insert(
                    handler.target,
                    self.requests[handler.target].delivered(res),
                ),
                streams: self.streams,
            }
        }
    }

    /// The parties after a response with sequence number `seq` and outcome
    /// `res` has arrived: the handler registered under `seq`, if there is
    /// one, is given `res`, and a single-shot handler is deregistered.
    /// Without a handler the response changes nothing.
    pub open spec fn receive(self, seq: u64, res: RPCResult<R>) -> Self {
        match self.table.found(seq) {
            Some(handler) => {
                let given = self.deliver_to(handler, res);
                Parties {
                    table: self.table.dispatch(seq),
                    requests: given.requests,
                    streams: given.streams,
                }
            },
            None => self,
        }
    }

    /// The parties after a run of responses, first to last.
    pub open spec fn receive_all(self, responses: Seq<(u64, RPCResult<R>)>) -> Self
        decreases responses.len(),
    {
        if responses.len() == 0 {
            self
        } else {
            self.receive(responses[0].0, responses[0].1).receive_all(responses.drop_first())
        }
    }

    /// The parties after the error `reason` was delivered to each of the
    /// handlers in `failed`, first to last.
    pub open spec fn fail_each(self, failed: Seq<(u64, SeqHandler<int>)>, reason: String) -> Self
        decreases failed.len(),
    {
        if failed.len() == 0 {
            self
        } else {
            self.deliver_to(failed[0].1, Err(reason)).fail_each(failed.drop_first(), reason)
        }
    }

    /// True when the party that `handler` targets has been given `res` once
    /// since `before`: a request holds it, a subscription has it at the tail
    /// of what it had queued.
    pub open spec fn resolved_since(
        self,
        before: Self,
        handler: SeqHandler<int>,
        res: RPCResult<R>,
    ) -> bool {
        if handler.streaming {
            self.streams[handler.target] == before.streams[handler.target].deliver(res)
        } else {
            self.requests[handler.target].answer() == Poll::Ready(res)
        }
    }

    /// True when the party that `handler` targets is as it was in `before`.
    pub open spec fn same_since(self, before: Self, handler: SeqHandler<int>) -> bool {
        if handler.streaming {
            self.streams[handler.target] == before.streams[handler.target]
        } else {
            self.requests[handler.target] == before.requests[handler.target]
        }
    }
}

/// The outcome that the first response with sequence number `seq` carries.
pub open spec fn first_for<R>(responses: Seq<(u64, RPCResult<R>)>, seq: u64) -> Option<
    RPCResult<R>,
>
    decreases responses.len(),
{
    if responses.len() == 0 {
        None
    } else if responses[0].0 == seq {
        Some(responses[0].1)
    } else {
        first_for(responses.drop_first(), seq)
    }
}

/// The outcomes that the responses with sequence number `seq` carry, in the
/// order of arrival.
pub open spec fn all_for<R>(responses: Seq<(u64, RPCResult<R>)>, seq: u64) -> Seq<RPCResult<R>>
    decreases responses.len(),
{
    if responses.len() == 0 {
        Seq::empty()
    } else if responses[0].0 == seq {
        seq![responses[0].1] + all_for(responses.drop_first(), seq)
    } else {
        all_for(responses.drop_first(), seq)
    }
}

/// A request that no single-shot handler points at is not changed by any
/// response.
pub proof fn lemma_unregistered_request_untouched<W, R>(
    x: Parties<W, R>,
    slot: int,
    responses: Seq<(u64, RPCResult<R>)>,
)
    requires
        forall|s: u64| #[trigger] x.awaits(s) ==> x.target_of(s) != slot,
    ensures
        x.receive_all(responses).requests[slot] == x.requests[slot],
    decreases responses.len(),
{
    if responses.len() > 0 {
        let y = x.receive(responses[0].0, responses[0].1);
        assert forall|s: u64| #[trigger] y.awaits(s) implies y.target_of(s) != slot by {
            assert(x.awaits(s));
        }
        if x.awaits(responses[0].0) {
            assert(x.target_of(responses[0].0) != slot);
        }
        lemma_unregistered_request_untouched(y, slot, responses.drop_first());
    }
}

/// Receiving a response keeps the parties well-formed.
pub proof fn lemma_receive_keeps_wf<W, R>(x: Parties<W, R>, seq: u64, res: RPCResult<R>)
    requires
        x.wf(),
    ensures
        x.receive(seq, res).wf(),
{
    let y = x.receive(seq, res);
    assert forall|s: u64| #[trigger] y.awaits(s) implies y.requests[y.target_of(s)] is Pending by {
        assert(x.awaits(s));
        if x.awaits(seq) {
            assert(s != seq);
            assert(x.table.handlers[s] != x.table.handlers[seq]);
        }
    }
    assert forall|a: u64, b: u64|
        #![trigger y.table.handlers[a], y.table.handlers[b]]
        y.table.handlers.contains_key(a) && y.table.handlers.contains_key(b) && a
            != b implies y.table.handlers[a] != y.table.handlers[b] by {
        assert(x.table.handlers[a] != x.table.handlers[b]);
    }
}

/// A response changes the party it is for and nothing else. This holds just
/// the same when nobody polls that party any more: a response for an
/// abandoned request is taken in by that request alone, its handler leaves
/// the table, and no other request, subscription or table entry is touched.
pub proof fn lemma_response_touches_only_its_target<W, R>(
    x: Parties<W, R>,
    seq: u64,
    res: RPCResult<R>,
    other: SeqHandler<int>,
)
    requires
        x.table.found(seq) != Some(other),
    ensures
        x.receive(seq, res).same_since(x, other),
        x.receive(seq, res).table == x.table.dispatch(seq),
        forall|s: u64| s != seq ==> x.receive(seq, res).table.found(s) == x.table.found(s),
{
}

/// Each waiting request resolves with the first response that carries its
/// own sequence number, whatever arrives before or after it for other
/// sequence numbers and in whatever order; responses that repeat its number
/// later change nothing. Until such a response arrives the request keeps
/// waiting, untouched by the others.
pub proof fn lemma_each_request_gets_its_own_response<W, R>(
    x: Parties<W, R>,
    seq: u64,
    responses: Seq<(u64, RPCResult<R>)>,
)
    requires
        x.wf(),
        x.awaits(seq),
    ensures
        match first_for(responses, seq) {
            Some(res) => {
                &&& x.receive_all(responses).requests[x.target_of(seq)].answer() == Poll::Ready(
                    res,
                )
                &&& !x.receive_all(responses).table.handlers.contains_key(seq)
            },
            None => {
                &&& x.receive_all(responses).requests[x.target_of(seq)] == x.requests[x.target_of(
                    seq,
                )]
                &&& x.receive_all(responses).awaits(seq)
                &&& x.receive_all(responses).target_of(seq) == x.target_of(seq)
            },
        },
    decreases responses.len(),
{
    if responses.len() > 0 {
        let slot = x.target_of(seq);
        let first = responses[0];
        let rest = responses.drop_first();
        let y = x.receive(first.0, first.1);
        if first.0 == seq {
            assert forall|s: u64| #[trigger] y.awaits(s) implies y.target_of(s) != slot by {
                assert(x.awaits(s));
                assert(x.table.handlers[s] != x.table.handlers[seq]);
            }
            lemma_unregistered_request_untouched(y, slot, rest);
            lemma_stays_deregistered(y, seq, rest);
        } else {
            assert(y.awaits(seq) && y.target_of(seq) == slot);
            if x.awaits(first.0) {
                assert(x.table.handlers[first.0] != x.table.handlers[seq]);
            }
            assert(y.requests[slot] == x.requests[slot]);
            lemma_receive_keeps_wf(x, first.0, first.1);
            lemma_each_request_gets_its_own_response(y, seq, rest);
        }
    }
}

/// A subscription is given every response that carries its sequence number,
/// in the order of arrival, and none that carries another, for as long as it
/// stays registered; no response deregisters it.
pub proof fn lemma_subscription_gets_its_own_items<W, R>(
    x: Parties<W, R>,
    seq: u64,
    responses: Seq<(u64, RPCResult<R>)>,
)
    requires
        x.wf(),
        x.table.handlers.contains_key(seq),
        x.table.handlers[seq].streaming,
    ensures
        x.receive_all(responses).streams[x.target_of(seq)].queue == x.streams[x.target_of(
            seq,
        )].queue + all_for(responses, seq),
        x.receive_all(responses).table.handlers.contains_key(seq),
        x.receive_all(responses).table.handlers[seq] == x.table.handlers[seq],
    decreases responses.len(),
{
    let slot = x.target_of(seq);
    if responses.len() == 0 {
        assert(x.streams[slot].queue + all_for(responses, seq) =~= x.streams[slot].queue);
    } else {
        let first = responses[0];
        let rest = responses.drop_first();
        let y = x.receive(first.0, first.1);
        lemma_receive_keeps_wf(x, first.0, first.1);
        if first.0 != seq && x.table.handlers.contains_key(first.0) {
            assert(x.table.handlers[first.0] != x.table.handlers[seq]);
        }
        lemma_subscription_gets_its_own_items(y, seq, rest);
        if first.0 == seq {
            assert(x.streams[slot].queue.push(first.1) + all_for(rest, seq) =~= x.streams[slot].queue
                + (seq![first.1] + all_for(rest, seq)));
        }
    }
}

/// A sequence number whose handler is gone stays without one, whatever
/// responses arrive, and so does the subscription it belonged to: nothing
/// more is queued for it.
pub proof fn lemma_stays_deregistered<W, R>(
    x: Parties<W, R>,
    seq: u64,
    responses: Seq<(u64, RPCResult<R>)>,
)
    requires
        !x.table.handlers.contains_key(seq),
    ensures
        !x.receive_all(responses).table.handlers.contains_key(seq),
    decreases responses.len(),
{
    if responses.len() > 0 {
        lemma_stays_deregistered(
            x.receive(responses[0].0, responses[0].1),
            seq,
            responses.drop_first(),
        );
    }
}

/// After a subscription was stopped, nothing more reaches it: whatever
/// responses arrive, for its old sequence number or any other, its queue
/// stays as it was.
pub proof fn lemma_stopped_subscription_gets_nothing<W, R>(
    x: Parties<W, R>,
    stream: int,
    responses: Seq<(u64, RPCResult<R>)>,
)
    requires
        forall|s: u64|
            x.table.handlers.contains_key(s) ==> (#[trigger] x.table.handlers[s]) != (SeqHandler {
                target: stream,
                streaming: true,
            }),
    ensures
        x.receive_all(responses).streams[stream] == x.streams[stream],
    decreases responses.len(),
{
    if responses.len() > 0 {
        let y = x.receive(responses[0].0, responses[0].1);
        if x.table.handlers.contains_key(responses[0].0) {
            assert(x.table.handlers[responses[0].0] != (SeqHandler {
                target: stream,
                streaming: true,
            }));
        }
        assert forall|s: u64| y.table.handlers.contains_key(s) implies (
        #[trigger] y.table.handlers[s]) != (SeqHandler { target: stream, streaming: true }) by {
            assert(x.table.handlers.contains_key(s));
            assert(y.table.handlers[s] == x.table.handlers[s]);
        }
        lemma_stopped_subscription_gets_nothing(y, stream, responses.drop_first());
    }
}

/// True when `failed` is what taking every handler out of `table` gives:
/// each entry was registered as listed, every registered handler is listed,
/// and none twice.
pub open spec fn drained(table: TableModel<int>, failed: Seq<(u64, SeqHandler<int>)>) -> bool {
    &&& forall|i: int|
        0 <= i < failed.len() ==> table.found(#[trigger] failed[i].0) == Some(failed[i].1)
    &&& forall|s: u64|
        table.handlers.contains_key(s) ==> exists|i: int|
            0 <= i < failed.len() && #[trigger] failed[i].0 == s
    &&& forall|i: int, j: int|
        0 <= i < j < failed.len() ==> #[trigger] failed[i].0 != #[trigger] failed[j].0
}

/// Delivering the error to a list of handlers gives it once to each party
/// that the list names once, and leaves every other party alone.
pub proof fn lemma_fail_each_effect<W, R>(
    x: Parties<W, R>,
    failed: Seq<(u64, SeqHandler<int>)>,
    reason: String,
    handler: SeqHandler<int>,
)
    requires
        forall|i: int, j: int|
            0 <= i < j < failed.len() ==> (#[trigger] failed[i]).1 != (#[trigger] failed[j]).1,
        !handler.streaming ==> x.requests[handler.target] is Pending,
    ensures
        (exists|i: int| 0 <= i < failed.len() && (#[trigger] failed[i]).1 == handler)
            ==> x.fail_each(failed, reason).resolved_since(x, handler, Err(reason)),
        (forall|i: int| 0 <= i < failed.len() ==> (#[trigger] failed[i]).1 != handler)
            ==> x.fail_each(failed, reason).same_since(x, handler),
    decreases failed.len(),
{
    if failed.len() > 0 {
        let first = failed[0].1;
        let rest = failed.drop_first();
        let y = x.deliver_to(first, Err(reason));
        assert forall|i: int, j: int| 0 <= i < j < rest.len() implies (#[trigger] rest[i]).1 != (
        #[trigger] rest[j]).1 by {
            assert(rest[i] == failed[i + 1] && rest[j] == failed[j + 1]);
        }
        if first == handler {
            assert forall|i: int| 0 <= i < rest.len() implies (#[trigger] rest[i]).1 != handler by {
                assert(rest[i] == failed[i + 1]);
                assert(failed[0].1 != failed[i + 1].1);
            }
            if !handler.streaming {
                lemma_resolved_request_stays(y, rest, reason, handler);
            } else {
                lemma_fail_each_effect(y, rest, reason, handler);
            }
        } else {
            assert(y.same_since(x, handler));
            lemma_fail_each_effect(y, rest, reason, handler);
            if exists|i: int| 0 <= i < failed.len() && (#[trigger] failed[i]).1 == handler {
                let i = choose|i: int| 0 <= i < failed.len() && (#[trigger] failed[i]).1 == handler;
                assert(rest[i - 1] == failed[i]);
            } else {
                assert forall|i: int| 0 <= i < rest.len() implies (#[trigger] rest[i]).1
                    != handler by {
                    assert(rest[i] == failed[i + 1]);
                }
            }
        }
    }
}

/// A request that the list does not name keeps what it holds.
proof fn lemma_resolved_request_stays<W, R>(
    x: Parties<W, R>,
    failed: Seq<(u64, SeqHandler<int>)>,
    reason: String,
    handler: SeqHandler<int>,
)
    requires
        !handler.streaming,
        forall|i: int| 0 <= i < failed.len() ==> (#[trigger] failed[i]).1 != handler,
    ensures
        x.fail_each(failed, reason).requests[handler.target] == x.requests[handler.target],
    decreases failed.len(),
{
    if failed.len() > 0 {
        let rest = failed.drop_first();
        assert(failed[0].1 != handler);
        assert forall|i: int| 0 <= i < rest.len() implies (#[trigger] rest[i]).1 != handler by {
            assert(rest[i] == failed[i + 1]);
        }
        lemma_resolved_request_stays(x.deliver_to(failed[0].1, Err(reason)), rest, reason, handler);
    }
}

/// When the connection fails, nobody is left hanging: once the error has
/// been delivered to the handlers that were taken out of the table, every
/// request that was registered resolves with that error, and every
/// subscription that was registered has it queued behind what it held.
pub proof fn lemma_failure_reaches_every_handler<W, R>(
    x: Parties<W, R>,
    failed: Seq<(u64, SeqHandler<int>)>,
    reason: String,
    seq: u64,
)
    requires
        x.wf(),
        drained(x.table, failed),
        x.table.handlers.contains_key(seq),
    ensures
        x.fail_each(failed, reason).resolved_since(x, x.table.handlers[seq], Err(reason)),
{
    let handler = x.table.handlers[seq];
    assert forall|i: int, j: int| 0 <= i < j < failed.len() implies (#[trigger] failed[i]).1 != (
    #[trigger] failed[j]).1 by {
        assert(x.table.found(failed[i].0) == Some(failed[i].1));
        assert(x.table.found(failed[j].0) == Some(failed[j].1));
        assert(failed[i].0 != failed[j].0);
        assert(x.table.handlers[failed[i].0] != x.table.handlers[failed[j].0]);
    }
    let i = choose|i: int| 0 <= i < failed.len() && #[trigger] failed[i].0 == seq;
    assert(x.table.found(failed[i].0) == Some(failed[i].1));
    assert(failed[i].1 == handler);
    if !handler.streaming {
        assert(x.awaits(seq));
    }
    lemma_fail_each_effect(x, failed, reason, handler);
}

} // verus!
