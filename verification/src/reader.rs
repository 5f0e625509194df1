//! The reader's decision for one incoming response: who gets it, and what
//! they are given.

use vstd::prelude::*;
use crate::codec::{RPCResult, ResponseHeader};
use crate::dispatch::{DispatchMap, Dispatched};

verus! {

/// Where a response goes.
#[derive(Debug, PartialEq, Eq)]
pub enum Delivery<'a, H, B> {
    /// Nobody is registered for it: it is dropped.
    Discarded,
    /// To a single request, which is no longer registered.
    Once(H, RPCResult<B>),
    /// To a subscription, which stays registered.
    Stream(&'a H, RPCResult<B>),
}

/// Routes one response. The handler is looked up by the header's sequence
/// number and nothing else; it is handed the body when the header carries no
/// error and the error otherwise. Entries under other sequence numbers are
/// not touched, whatever the response holds.
pub fn route<'a, H, B>(dispatch: &'a mut DispatchMap<H>, header: ResponseHeader, body: B) -> (to:
    Delivery<'a, H, B>)
    requires
        old(dispatch)@.wf(),
    ensures
        final(dispatch)@ == old(dispatch)@.dispatch(header.seq),
        final(dispatch)@.wf(),
        match old(dispatch)@.found(header.seq) {
            None => to is Discarded,
            Some(h) => if h.streaming {
                to matches Delivery::Stream(t, res) && *t == h.target && res == header.outcome(
                    body,
                )
            } else {
                to matches Delivery::Once(t, res) && t == h.target && res == header.outcome(body)
            },
        },
{
    let seq = header.seq;
    match dispatch.lookup(seq) {
        Dispatched::Absent => Delivery::Discarded,
        Dispatched::Once(target) => Delivery::Once(target, header.into_result(body)),
        Dispatched::Stream(target) => Delivery::Stream(target, header.into_result(body)),
    }
}

} // verus!
