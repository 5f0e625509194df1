//! The completion handle of a single response: a command that is sent once
//! and resolves once.

use vstd::prelude::*;
use crate::codec::{frame_bytes, RPCResult, SerializedCommand};
use crate::dispatch::{DispatchMap, SeqHandler};

verus! {

/// Answer to a poll: the value, or not yet.
#[derive(Debug, PartialEq, Eq)]
pub enum Poll<T> {
    Ready(T),
    Pending,
}

/// Where a single request stands. `W` is the token that resumes the waiting
/// task, `R` the decoded response.
#[derive(Debug, PartialEq, Eq)]
pub enum RequestState<W, R> {
    /// Built, not yet sent.
    Unsent(SerializedCommand),
    /// Sent and registered; the token of the task to resume on delivery.
    Pending(W),
    /// The result has arrived and waits to be picked up.
    Ready(RPCResult<R>),
    /// The result was picked up, or the command was sent without tracking.
    Invalid,
}

/// A request for `cmd` that has not been sent yet.
pub fn request<W, R>(cmd: SerializedCommand) -> (state: RequestState<W, R>)
    ensures
        state == RequestState::<W, R>::Unsent(cmd),
{
    RequestState::Unsent(cmd)
}

impl<W, R> RequestState<W, R> {
    /// How far along its life the request is. No operation lowers it.
    pub open spec fn stage(&self) -> nat {
        match self {
            RequestState::Unsent(_) => 0,
            RequestState::Pending(_) => 1,
            RequestState::Ready(_) => 2,
            RequestState::Invalid => 3,
        }
    }

    /// True when the request can be put on the wire through `dispatch`.
    pub open spec fn sendable<H>(&self, dispatch: &DispatchMap<H>) -> bool {
        self matches RequestState::Unsent(cmd) ==> cmd.wf() && dispatch@.next < u64::MAX
    }

    /// The state after a poll with `waker`.
    pub open spec fn polled(self, waker: W) -> Self {
        match self {
            RequestState::Unsent(_) => RequestState::Pending(waker),
            RequestState::Pending(_) => RequestState::Pending(waker),
            RequestState::Ready(_) => RequestState::Invalid,
            RequestState::Invalid => RequestState::Invalid,
        }
    }

    /// The state after the result `res` was delivered to a waiting request.
    pub open spec fn delivered(self, res: RPCResult<R>) -> Self {
        RequestState::Ready(res)
    }

    /// What a poll hands out.
    pub open spec fn answer(self) -> Poll<RPCResult<R>> {
        match self {
            RequestState::Ready(res) => Poll::Ready(res),
            _ => Poll::Pending,
        }
    }

    /// Polls the request on behalf of the task that `waker` resumes.
    ///
    /// The first poll registers `target` as the single-shot handler under a
    /// fresh sequence number and returns the frame to send. A later poll
    /// while the response is outstanding records the new `waker` in place of
    /// the old one. Once the result is there, a poll hands it out and leaves
    /// the request spent. A spent request must not be polled.
    pub fn poll<H>(&mut self, waker: W, target: H, dispatch: &mut DispatchMap<H>) -> (out: (
        Poll<RPCResult<R>>,
        Option<Vec<u8>>,
    ))
        requires
            !(*old(self) is Invalid),
            old(self).sendable(old(dispatch)),
            old(dispatch)@.wf(),
        ensures
            *final(self) == old(self).polled(waker),
            out.0 == old(self).answer(),
            final(self).stage() >= old(self).stage(),
            final(dispatch)@.wf(),
            match *old(self) {
                RequestState::Unsent(cmd) => {
                    &&& out.0 is Pending
                    &&& out.1 matches Some(frame) && frame@ == frame_bytes(
                        old(dispatch)@.next as u64,
                        cmd.name@,
                        cmd.body@,
                    )
                    &&& final(dispatch)@ == old(dispatch)@.allocate(
                        Some(SeqHandler { target, streaming: false }),
                    )
                },
                RequestState::Ready(res) => {
                    &&& out.0 == Poll::Ready(res)
                    &&& out.1 is None
                    &&& final(dispatch)@ == old(dispatch)@
                },
                _ => {
                    &&& out.0 is Pending
                    &&& out.1 is None
                    &&& final(dispatch)@ == old(dispatch)@
                },
            },
    {
        let mut prev = RequestState::Invalid;
        std::mem::swap(self, &mut prev);
        match prev {
            RequestState::Unsent(cmd) => {
                *self = RequestState::Pending(waker);
                let (_, frame) = dispatch.send_command(
                    cmd,
                    Some(SeqHandler { target, streaming: false }),
                );
                (Poll::Pending, Some(frame))
            },
            RequestState::Pending(_) => {
                *self = RequestState::Pending(waker);
                (Poll::Pending, None)
            },
            RequestState::Ready(response) => (Poll::Ready(response), None),
            RequestState::Invalid => unreached(),
        }
    }

    /// Sends the command without registering a handler, so that whatever
    /// comes back is dropped. Only an unsent request can be sent this way.
    /// Returns the frame to send.
    pub fn send_ignored<H>(self, dispatch: &mut DispatchMap<H>) -> (frame: Vec<u8>)
        requires
            self is Unsent,
            self.sendable(old(dispatch)),
            old(dispatch)@.wf(),
        ensures
            self matches RequestState::Unsent(cmd) && frame@ == frame_bytes(
                old(dispatch)@.next as u64,
                cmd.name@,
                cmd.body@,
            ),
            final(dispatch)@ == old(dispatch)@.allocate(None),
            final(dispatch)@.wf(),
    {
        match self {
            RequestState::Unsent(cmd) => {
                let (_, frame) = dispatch.send_command(cmd, None);
                frame
            },
            _ => unreached(),
        }
    }

    /// Delivers the result. This happens once, to a request that waits for
    /// it: the result is stored and the token of the waiting task is handed
    /// back, to be invoked by whoever delivered.
    pub fn handle(&mut self, res: RPCResult<R>) -> (waker: W)
        requires
            *old(self) is Pending,
        ensures
            *old(self) == RequestState::<W, R>::Pending(waker),
            *final(self) == old(self).delivered(res),
            final(self).stage() > old(self).stage(),
    {
        let mut prev = RequestState::Ready(res);
        std::mem::swap(self, &mut prev);
        match prev {
            RequestState::Pending(waker) => waker,
            _ => unreached(),
        }
    }
}

/// A waiting request resolves with exactly what is delivered to it, however
/// often it was polled in between and from whichever tasks: the next poll
/// after the delivery hands the result out, be it the agent's answer, the
/// agent's error or the error that reports a lost connection. After that the
/// request is spent.
pub proof fn lemma_resolves_with_delivery<W, R>(
    state: RequestState<W, R>,
    wakers: Seq<W>,
    res: RPCResult<R>,
    last: W,
)
    requires
        state is Pending,
    ensures
        repolled(state, wakers) is Pending,
        repolled(state, wakers).delivered(res).answer() == Poll::Ready(res),
        repolled(state, wakers).delivered(res).polled(last) is Invalid,
    decreases wakers.len(),
{
    if wakers.len() > 0 {
        lemma_resolves_with_delivery(state.polled(wakers[0]), wakers.drop_first(), res, last);
    }
}

/// The state after a series of polls, one with each of `wakers`.
pub open spec fn repolled<W, R>(state: RequestState<W, R>, wakers: Seq<W>) -> RequestState<W, R>
    decreases wakers.len(),
{
    if wakers.len() == 0 {
        state
    } else {
        repolled(state.polled(wakers[0]), wakers.drop_first())
    }
}

/// No wakeup is lost: while the request waits, the token it holds is the
/// one that the latest poll left.
pub proof fn lemma_latest_waker_kept<W, R>(state: RequestState<W, R>, wakers: Seq<W>)
    requires
        state is Pending || state is Unsent,
        wakers.len() > 0,
    ensures
        repolled(state, wakers) == RequestState::<W, R>::Pending(wakers.last()),
    decreases wakers.len(),
{
    if wakers.len() > 1 {
        lemma_latest_waker_kept(state.polled(wakers[0]), wakers.drop_first());
        assert(wakers.drop_first().last() == wakers.last());
    } else {
        assert(repolled(state.polled(wakers[0]), wakers.drop_first()) == state.polled(wakers[0]));
    }
}

} // verus!
