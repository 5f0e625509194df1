//! Subscriptions: a persistent handler that queues what the agent pushes,
//! and the consumer that pulls from the queue.

use std::collections::VecDeque;
use vstd::prelude::*;
use crate::args::args_bytes;
use crate::codec::{frame_bytes, RPCResult, SerializedCommand};
use crate::dispatch::{DispatchMap, SeqHandler};
use crate::protocol::{single_arg, stop_stream};
use crate::args::ValueModel;
use crate::request::Poll;

verus! {

/// The state behind one subscription. `W` is the token that resumes the
/// consumer, `R` the decoded item.
pub struct RPCStreamHandler<W, R> {
    waker: Option<W>,
    queue: VecDeque<RPCResult<R>>,
    acked: bool,
}

/// A subscription as a mathematical value.
pub struct StreamModel<W, R> {
    /// Delivered and not yet pulled, oldest first.
    pub queue: Seq<RPCResult<R>>,
    /// The token of a consumer that found the queue empty and waits.
    pub waker: Option<W>,
    /// Whether the start acknowledgment has been seen.
    pub acked: bool,
}

/// Something that happens to a subscription.
pub enum StreamEvent<W, R> {
    /// The reader delivers an item.
    Deliver(RPCResult<R>),
    /// The consumer pulls, leaving this token in case nothing is there.
    Pull(W),
}

impl<W, R> StreamModel<W, R> {
    /// A subscription that has seen nothing yet.
    pub open spec fn fresh() -> Self {
        StreamModel { queue: Seq::empty(), waker: None, acked: false }
    }

    /// The subscription after a delivery: the item joins the tail, and the
    /// stored token, if any, has been taken out to be invoked.
    pub open spec fn deliver(self, res: RPCResult<R>) -> Self {
        StreamModel { queue: self.queue.push(res), waker: None, acked: self.acked }
    }

    /// The subscription after a pull: the oldest item is gone, or, with
    /// nothing queued, the consumer's token is stored.
    pub open spec fn pull(self, waker: W) -> Self {
        if self.queue.len() > 0 {
            StreamModel { queue: self.queue.drop_first(), waker: self.waker, acked: self.acked }
        } else {
            StreamModel { queue: self.queue, waker: Some(waker), acked: self.acked }
        }
    }

    /// What a pull hands out.
    pub open spec fn front(self) -> Poll<RPCResult<R>> {
        if self.queue.len() > 0 {
            Poll::Ready(self.queue[0])
        } else {
            Poll::Pending
        }
    }

    /// The subscription after one event.
    pub open spec fn step(self, event: StreamEvent<W, R>) -> Self {
        match event {
            StreamEvent::Deliver(res) => self.deliver(res),
            StreamEvent::Pull(waker) => self.pull(waker),
        }
    }

    /// The subscription after a series of events, first to last.
    pub open spec fn run(self, events: Seq<StreamEvent<W, R>>) -> Self
        decreases events.len(),
    {
        if events.len() == 0 {
            self
        } else {
            self.step(events[0]).run(events.drop_first())
        }
    }

    /// The items that the pulls among `events` hand out, in the order of
    /// the pulls.
    pub open spec fn pulled(self, events: Seq<StreamEvent<W, R>>) -> Seq<RPCResult<R>>
        decreases events.len(),
    {
        if events.len() == 0 {
            Seq::empty()
        } else {
            let rest = self.step(events[0]).pulled(events.drop_first());
            match (events[0], self.front()) {
                (StreamEvent::Pull(_), Poll::Ready(item)) => seq![item] + rest,
                _ => rest,
            }
        }
    }
}

/// The items that the deliveries among `events` bring, in their order.
pub open spec fn delivered<W, R>(events: Seq<StreamEvent<W, R>>) -> Seq<RPCResult<R>>
    decreases events.len(),
{
    if events.len() == 0 {
        Seq::empty()
    } else {
        let rest = delivered(events.drop_first());
        match events[0] {
            StreamEvent::Deliver(res) => seq![res] + rest,
            StreamEvent::Pull(_) => rest,
        }
    }
}

/// First in, first out: however deliveries and pulls interleave, what has
/// been pulled followed by what still waits is what was waiting at first
/// followed by what was delivered, in the order of delivery. Nothing is
/// lost, repeated or reordered.
pub proof fn lemma_fifo<W, R>(s: StreamModel<W, R>, events: Seq<StreamEvent<W, R>>)
    ensures
        s.pulled(events) + s.run(events).queue == s.queue + delivered(events),
    decreases events.len(),
{
    if events.len() == 0 {
        assert(s.pulled(events) + s.run(events).queue =~= s.queue + delivered(events));
    } else {
        let next = s.step(events[0]);
        let rest = events.drop_first();
        lemma_fifo(next, rest);
        match events[0] {
            StreamEvent::Deliver(res) => {
                assert(next.queue + delivered(rest) =~= s.queue + (seq![res] + delivered(rest)));
            },
            StreamEvent::Pull(_) => {
                if s.queue.len() > 0 {
                    assert(seq![s.queue[0]] + next.queue =~= s.queue);
                    assert((seq![s.queue[0]] + next.pulled(rest)) + next.run(rest).queue =~= seq![
                        s.queue[0],
                    ] + (next.pulled(rest) + next.run(rest).queue));
                    assert(seq![s.queue[0]] + (next.queue + delivered(rest)) =~= s.queue
                        + delivered(rest));
                }
            },
        }
    }
}

/// `n` pulls in a row, each made with the token `w`.
pub open spec fn pulls<W, R>(n: nat, w: W) -> Seq<StreamEvent<W, R>> {
    Seq::new(n, |i: int| StreamEvent::Pull(w))
}

/// Pulling `n` times from a queue that holds at least `n` items removes the
/// `n` oldest and nothing else.
pub proof fn lemma_pulls_take_the_oldest<W, R>(s: StreamModel<W, R>, n: nat, w: W)
    requires
        n <= s.queue.len(),
    ensures
        s.run(pulls(n, w)).queue == s.queue.skip(n as int),
    decreases n,
{
    if n == 0 {
        assert(s.queue.skip(0) =~= s.queue);
    } else {
        let events = pulls::<W, R>(n, w);
        assert(events[0] == StreamEvent::<W, R>::Pull(w));
        assert(events.drop_first() =~= pulls::<W, R>((n - 1) as nat, w));
        lemma_pulls_take_the_oldest(s.pull(w), (n - 1) as nat, w);
        assert(s.queue.drop_first().skip(n - 1) =~= s.queue.skip(n as int));
    }
}

/// Whatever is delivered reaches the consumer: once the items that were
/// queued before it have been pulled, the next pull hands out exactly the
/// item delivered, be it an event or the error that reports a lost
/// connection.
pub proof fn lemma_delivered_item_is_pulled<W, R>(s: StreamModel<W, R>, res: RPCResult<R>, w: W)
    ensures
        s.deliver(res).run(pulls(s.queue.len(), w)).front() == Poll::Ready(res),
{
    let after = s.deliver(res);
    lemma_pulls_take_the_oldest(after, s.queue.len(), w);
    assert(after.queue.skip(s.queue.len() as int) =~= seq![res]);
}

impl<W, R> View for RPCStreamHandler<W, R> {
    type V = StreamModel<W, R>;

    closed spec fn view(&self) -> StreamModel<W, R> {
        StreamModel { queue: self.queue@, waker: self.waker, acked: self.acked }
    }
}

impl<W, R> RPCStreamHandler<W, R> {
    /// The state of a subscription that is about to be started.
    pub fn new() -> (handler: Self)
        ensures
            handler@ == StreamModel::<W, R>::fresh(),
    {
        RPCStreamHandler { waker: None, queue: VecDeque::new(), acked: false }
    }

    /// Delivers an item: it is queued behind everything delivered before.
    /// Returns the token of the consumer that waits, if one does, so that it
    /// is resumed once.
    pub fn handle(&mut self, res: RPCResult<R>) -> (woken: Option<W>)
        ensures
            final(self)@ == old(self)@.deliver(res),
            woken == old(self)@.waker,
    {
        self.queue.push_back(res);
        self.waker.take()
    }

    /// Pulls the oldest queued item. With nothing queued, stores `waker` so
    /// that the next delivery resumes the consumer, and reports `Pending`.
    pub fn poll_next(&mut self, waker: W) -> (item: Poll<RPCResult<R>>)
        ensures
            final(self)@ == old(self)@.pull(waker),
            item == old(self)@.front(),
    {
        if let Some(res) = self.queue.pop_front() {
            return Poll::Ready(res);
        }
        self.waker = Some(waker);
        Poll::Pending
    }

    /// Records that the start acknowledgment has arrived and tells whether
    /// it had arrived before.
    pub fn stream_acked(&mut self) -> (before: bool)
        ensures
            before == old(self)@.acked,
            final(self)@ == (StreamModel {
                queue: old(self)@.queue,
                waker: old(self)@.waker,
                acked: true,
            }),
    {
        let status = self.acked;
        self.acked = true;
        status
    }
}

/// Starts a subscription: registers `target` as a persistent handler under
/// a fresh sequence number and only then builds the frame of the start
/// command, so that no response can arrive before its handler is in place.
/// Returns the sequence number and the frame to send.
pub fn start_stream<H>(dispatch: &mut DispatchMap<H>, cmd: SerializedCommand, target: H) -> (out: (
    u64,
    Vec<u8>,
))
    requires
        old(dispatch)@.wf(),
        old(dispatch)@.next < u64::MAX,
        cmd.wf(),
    ensures
        out.0 == old(dispatch)@.next,
        out.1@ == frame_bytes(out.0, cmd.name@, cmd.body@),
        final(dispatch)@ == old(dispatch)@.allocate(Some(SeqHandler { target, streaming: true })),
        final(dispatch)@.found(out.0) == Some(SeqHandler { target, streaming: true }),
        final(dispatch)@.wf(),
{
    dispatch.send_command(cmd, Some(SeqHandler { target, streaming: true }))
}

/// Tears a subscription down. The handler under `seq` is deregistered
/// first, whatever else happens; then the stop notification is framed under
/// a fresh sequence number with no handler, so that its response is dropped.
/// Returns the frame to send, or `None` when the allocator has no sequence
/// number left, in which case the teardown is local only.
pub fn stop<H>(dispatch: &mut DispatchMap<H>, seq: u64) -> (frame: Option<Vec<u8>>)
    requires
        old(dispatch)@.wf(),
    ensures
        final(dispatch)@ == old(dispatch)@.deregister(seq).allocate(None),
        final(dispatch)@.found(seq) is None,
        final(dispatch)@.wf(),
        frame is Some <==> old(dispatch)@.next < u64::MAX,
        frame matches Some(f) ==> f@ == frame_bytes(
            old(dispatch)@.next as u64,
            "stop"@,
            args_bytes(single_arg("Stop"@, ValueModel::UInt(seq))),
        ),
{
    dispatch.deregister_seq_handler(seq);
    if dispatch.next_seq() < u64::MAX {
        let (_, frame) = dispatch.send_command(stop_stream(seq), None);
        Some(frame)
    } else {
        None
    }
}

} // verus!
