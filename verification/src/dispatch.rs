//! The dispatch table: which handler answers for which sequence number.

use std::collections::HashMap;
use vstd::prelude::*;
use vstd::std_specs::hash::spec_keys_iter;
use vstd::std_specs::iter::IteratorSpec;
use crate::codec::{encode_frame, frame_bytes, SerializedCommand};

verus! {

broadcast use vstd::std_specs::hash::group_hash_axioms;

/// A registered continuation. `target` is whatever the owner uses to reach
/// the waiting party; `streaming` tells a persistent handler, which stays
/// registered after a delivery, from a single-shot one, which does not.
#[derive(Debug, PartialEq, Eq)]
pub struct SeqHandler<H> {
    pub target: H,
    pub streaming: bool,
}

/// What a lookup for an incoming response found.
#[derive(Debug, PartialEq, Eq)]
pub enum Dispatched<'a, H> {
    /// Nobody is registered under the sequence number.
    Absent,
    /// A single-shot handler, taken out of the table.
    Once(H),
    /// A persistent handler, which stays in the table.
    Stream(&'a H),
}

/// The table as a mathematical value.
pub struct TableModel<H> {
    pub handlers: Map<u64, SeqHandler<H>>,
    pub next: nat,
}

impl<H> TableModel<H> {
    /// The table of a fresh connection.
    pub open spec fn empty() -> Self {
        TableModel { handlers: Map::empty(), next: 0 }
    }

    /// Every registered sequence number has been allocated already.
    pub open spec fn wf(self) -> bool {
        &&& self.next <= u64::MAX
        &&& forall|s: u64| self.handlers.contains_key(s) ==> s < self.next
    }

    /// Takes the next sequence number and registers `handler` under it, if
    /// there is one. An allocator that has handed out every number hands
    /// out no more.
    pub open spec fn allocate(self, handler: Option<SeqHandler<H>>) -> Self {
        if self.next < u64::MAX {
            TableModel {
                handlers: match handler {
                    Some(h) => self.handlers.insert(self.next as u64, h),
                    None => self.handlers,
                },
                next: self.next + 1,
            }
        } else {
            self
        }
    }

    /// The handler registered under `seq`.
    pub open spec fn found(self, seq: u64) -> Option<SeqHandler<H>> {
        if self.handlers.contains_key(seq) {
            Some(self.handlers[seq])
        } else {
            None
        }
    }

    /// The table after a response for `seq` was dispatched: a single-shot
    /// handler is gone, anything else is as before.
    pub open spec fn dispatch(self, seq: u64) -> Self {
        if self.handlers.contains_key(seq) && !self.handlers[seq].streaming {
            self.deregister(seq)
        } else {
            self
        }
    }

    /// The table without an entry for `seq`.
    pub open spec fn deregister(self, seq: u64) -> Self {
        TableModel { handlers: self.handlers.remove(seq), next: self.next }
    }

    /// The table after a fatal connection error: nothing is registered, and
    /// the allocator stands where it stood.
    pub open spec fn cleared(self) -> Self {
        TableModel { handlers: Map::empty(), next: self.next }
    }

    /// The table after one operation.
    pub open spec fn step(self, op: TableOp<H>) -> Self {
        match op {
            TableOp::Allocate(handler) => self.allocate(handler),
            TableOp::Dispatch(seq) => self.dispatch(seq),
            TableOp::Deregister(seq) => self.deregister(seq),
            TableOp::FailAll => self.cleared(),
        }
    }

    /// The table after a series of operations, first to last.
    pub open spec fn run(self, ops: Seq<TableOp<H>>) -> Self
        decreases ops.len(),
    {
        if ops.len() == 0 {
            self
        } else {
            self.step(ops[0]).run(ops.drop_first())
        }
    }
}

/// One operation on the table, as the connection's parties perform them.
pub enum TableOp<H> {
    /// A command is sent, with or without a handler.
    Allocate(Option<SeqHandler<H>>),
    /// A response for a sequence number arrives.
    Dispatch(u64),
    /// A subscription is torn down.
    Deregister(u64),
    /// The connection fails.
    FailAll,
}

impl<H> TableOp<H> {
    /// True when the operation is aimed at the entry under `seq`.
    pub open spec fn touches(self, seq: u64) -> bool {
        match self {
            TableOp::Allocate(_) => false,
            TableOp::Dispatch(s) => s == seq,
            TableOp::Deregister(s) => s == seq,
            TableOp::FailAll => true,
        }
    }
}

/// The sequence allocator and the handlers registered by sequence number.
pub struct DispatchMap<H> {
    map: HashMap<u64, SeqHandler<H>>,
    next_seq: u64,
}

impl<H> View for DispatchMap<H> {
    type V = TableModel<H>;

    closed spec fn view(&self) -> TableModel<H> {
        TableModel { handlers: self.map@, next: self.next_seq as nat }
    }
}

impl<H> DispatchMap<H> {
    /// An empty table whose first sequence number is 0.
    pub fn new() -> (table: Self)
        ensures
            table@ == TableModel::<H>::empty(),
    {
        DispatchMap { map: HashMap::new(), next_seq: 0 }
    }

    /// The sequence number that the next command will get.
    pub fn next_seq(&self) -> (seq: u64)
        ensures
            seq == self@.next,
    {
        self.next_seq
    }

    /// Tells whether a handler is registered under `seq`.
    pub fn is_registered(&self, seq: u64) -> (found: bool)
        ensures
            found == self@.handlers.contains_key(seq),
    {
        self.map.contains_key(&seq)
    }

    /// Allocates the next sequence number and registers `handler` under it
    /// in one step.
    pub fn register(&mut self, handler: Option<SeqHandler<H>>) -> (seq: u64)
        requires
            old(self)@.wf(),
            old(self)@.next < u64::MAX,
        ensures
            seq == old(self)@.next,
            final(self)@ == old(self)@.allocate(handler),
            final(self)@.wf(),
    {
        let seq = self.next_seq;
        self.next_seq = seq + 1;
        if let Some(handler) = handler {
            self.map.insert(seq, handler);
        }
        assert forall|s: u64| self.map@.contains_key(s) implies s < self.next_seq by {
            assert(s == seq || old(self)@.handlers.contains_key(s));
        }
        seq
    }

    /// Sends a command: allocates its sequence number, registers `handler`
    /// for the responses if one is given, and builds the frame to put on the
    /// outbound queue. Returns the sequence number and the frame.
    pub fn send_command(&mut self, cmd: SerializedCommand, handler: Option<SeqHandler<H>>) -> (out: (
        u64,
        Vec<u8>,
    ))
        requires
            old(self)@.wf(),
            old(self)@.next < u64::MAX,
            cmd.wf(),
        ensures
            out.0 == old(self)@.next,
            out.1@ == frame_bytes(out.0, cmd.name@, cmd.body@),
            final(self)@ == old(self)@.allocate(handler),
            final(self)@.wf(),
    {
        let seq = self.register(handler);
        let frame = encode_frame(seq, cmd);
        (seq, frame)
    }

    /// Finds the handler for a response that carries `seq`. A single-shot
    /// handler leaves the table with this call; a persistent one is lent out
    /// and stays.
    pub fn lookup(&mut self, seq: u64) -> (found: Dispatched<'_, H>)
        requires
            old(self)@.wf(),
        ensures
            final(self)@ == old(self)@.dispatch(seq),
            final(self)@.wf(),
            match old(self)@.found(seq) {
                None => found is Absent,
                Some(h) => if h.streaming {
                    found matches Dispatched::Stream(t) && *t == h.target
                } else {
                    found matches Dispatched::Once(t) && t == h.target
                },
            },
    {
        let streaming = match self.map.get(&seq) {
            None => { return Dispatched::Absent; },
            Some(h) => h.streaming,
        };
        if streaming {
            match self.map.get(&seq) {
                Some(h) => Dispatched::Stream(&h.target),
                None => Dispatched::Absent,
            }
        } else {
            match self.map.remove(&seq) {
                Some(h) => Dispatched::Once(h.target),
                None => Dispatched::Absent,
            }
        }
    }

    /// Takes every registered handler out of the table, so that each can be
    /// failed with the reason the connection died for. Each handler comes
    /// back once, with its sequence number; the table is left empty and the
    /// allocator untouched.
    pub fn fail_all(&mut self) -> (failed: Vec<(u64, SeqHandler<H>)>)
        requires
            old(self)@.wf(),
        ensures
            final(self)@ == old(self)@.cleared(),
            final(self)@.wf(),
            forall|i: int|
                0 <= i < failed@.len() ==> old(self)@.found(#[trigger] failed@[i].0) == Some(
                    failed@[i].1,
                ),
            forall|s: u64|
                old(self)@.handlers.contains_key(s) ==> exists|i: int|
                    0 <= i < failed@.len() && #[trigger] failed@[i].0 == s,
            forall|i: int, j: int|
                0 <= i < j < failed@.len() ==> #[trigger] failed@[i].0 != #[trigger] failed@[j].0,
    {
        let keys = registered_keys(&self.map);
        let mut failed: Vec<(u64, SeqHandler<H>)> = Vec::new();
        let mut i: usize = 0;
        assert forall|j: int| 0 <= j < keys@.len() implies self.map@.contains_key(
            #[trigger] keys@[j],
        ) by {
            assert(keys@.contains(keys@[j]));
        }
        while i < keys.len()
            invariant
                i <= keys@.len(),
                failed@.len() == i,
                self.next_seq == old(self).next_seq,
                keys@.no_duplicates(),
                forall|s: u64| #[trigger] keys@.contains(s) <==> old(self).map@.contains_key(s),
                forall|s: u64| #[trigger] old(self).map@.contains_key(s) ==> keys@.contains(s),
                forall|j: int|
                    0 <= j < keys@.len() ==> (self.map@.contains_key(#[trigger] keys@[j]) <==> j
                        >= i),
                forall|s: u64| #[trigger]
                    self.map@.contains_key(s) ==> old(self).map@.contains_key(s) && self.map@[s]
                        == old(self).map@[s],
                forall|j: int|
                    0 <= j < i ==> (#[trigger] failed@[j]).0 == keys@[j] && old(
                        self,
                    ).map@.contains_key(keys@[j]) && failed@[j].1 == old(self).map@[keys@[j]],
            decreases keys@.len() - i,
        {
            let seq = keys[i];
            let ghost before = self.map@;
            assert(keys@.contains(seq));
            if let Some(handler) = self.map.remove(&seq) {
                failed.push((seq, handler));
            }
            assert(self.map@ == before.remove(seq));
            assert forall|j: int| 0 <= j < keys@.len() implies (self.map@.contains_key(
                #[trigger] keys@[j],
            ) <==> j >= i + 1) by {
                if j != i {
                    assert(keys@[j] != keys@[i as int]);
                }
            }
            i = i + 1;
        }
        proof {
            assert forall|s: u64| !self.map@.contains_key(s) by {
                if self.map@.contains_key(s) {
                    assert(keys@.contains(s));
                    let j = choose|j: int| 0 <= j < keys@.len() && keys@[j] == s;
                    assert(self.map@.contains_key(keys@[j]));
                }
            }
            assert(self.map@ =~= Map::empty());
            assert forall|s: u64| old(self)@.handlers.contains_key(s) implies exists|i: int|
                0 <= i < failed@.len() && #[trigger] failed@[i].0 == s by {
                assert(keys@.contains(s));
                let j = choose|j: int| 0 <= j < keys@.len() && keys@[j] == s;
                assert(failed@[j].0 == s);
            }
            assert forall|i: int| 0 <= i < failed@.len() implies old(self)@.found(
                #[trigger] failed@[i].0,
            ) == Some(failed@[i].1) by {
                assert(keys@.contains(keys@[i]));
            }
        }
        failed
    }

    /// Removes the handler under `seq`, if there is one, and returns it.
    /// Calling it again changes nothing.
    pub fn deregister_seq_handler(&mut self, seq: u64) -> (removed: Option<SeqHandler<H>>)
        requires
            old(self)@.wf(),
        ensures
            removed == old(self)@.found(seq),
            final(self)@ == old(self)@.deregister(seq),
            final(self)@.wf(),
    {
        self.map.remove(&seq)
    }
}

/// The sequence numbers that have a handler, each once, in no set order.
fn registered_keys<H>(map: &HashMap<u64, SeqHandler<H>>) -> (keys: Vec<u64>)
    ensures
        keys@.no_duplicates(),
        forall|s: u64| keys@.contains(s) <==> map@.contains_key(s),
{
    let mut keys: Vec<u64> = Vec::new();
    let ghost all = spec_keys_iter(map).remaining();
    for k in iter: map.keys()
        invariant
            iter.seq() == all,
            keys@.len() == iter.index(),
            forall|j: int| 0 <= j < keys@.len() ==> keys@[j] == *iter.seq()[j],
    {
        keys.push(*k);
    }
    proof {
        assert(keys@ =~= all.unref());
        assert(keys@.to_set() == map@.dom());
        assert forall|s: u64| keys@.contains(s) <==> map@.contains_key(s) by {
            assert(keys@.to_set().contains(s) <==> keys@.contains(s));
        }
    }
    keys
}

/// A handler is found under exactly the sequence number that its command
/// was given, and registering it disturbs no other entry.
pub proof fn lemma_registered_under_own_seq<H>(t: TableModel<H>, h: SeqHandler<H>, other: u64)
    requires
        t.wf(),
        t.next < u64::MAX,
        other != t.next,
    ensures
        t.allocate(Some(h)).found(t.next as u64) == Some(h),
        t.allocate(Some(h)).found(other) == t.found(other),
        t.allocate(None).found(other) == t.found(other),
        t.allocate(None).found(t.next as u64) is None,
{
}

/// Responses for two different sequence numbers do not interfere: each
/// finds the handler it would have found alone, and the table ends up the
/// same whichever arrives first.
pub proof fn lemma_dispatch_order_irrelevant<H>(t: TableModel<H>, a: u64, b: u64)
    requires
        a != b,
    ensures
        t.dispatch(a).found(b) == t.found(b),
        t.dispatch(b).found(a) == t.found(a),
        t.dispatch(a).dispatch(b) == t.dispatch(b).dispatch(a),
{
    assert(t.dispatch(a).dispatch(b).handlers =~= t.dispatch(b).dispatch(a).handlers);
}

/// A registered handler stays as it was registered through any traffic that
/// is not aimed at its own sequence number: other commands being sent, other
/// responses arriving, other subscriptions being torn down.
pub proof fn lemma_untouched_by_other_traffic<H>(t: TableModel<H>, seq: u64, ops: Seq<TableOp<H>>)
    requires
        t.wf(),
        seq < t.next,
        forall|i: int| 0 <= i < ops.len() ==> !(#[trigger] ops[i]).touches(seq),
    ensures
        t.run(ops).found(seq) == t.found(seq),
    decreases ops.len(),
{
    if ops.len() > 0 {
        let u = t.step(ops[0]);
        assert(!ops[0].touches(seq));
        assert(u.found(seq) == t.found(seq));
        assert forall|i: int| 0 <= i < ops.drop_first().len() implies !(
        #[trigger] ops.drop_first()[i]).touches(seq) by {
            assert(ops.drop_first()[i] == ops[i + 1]);
        }
        lemma_untouched_by_other_traffic(u, seq, ops.drop_first());
    }
}

/// Sequence numbers only rise and the table stays well-formed, whatever is
/// done to it: a number that was handed out is never handed out again, and
/// no handler ever sits under a number that was not handed out.
pub proof fn lemma_sequence_numbers_never_reused<H>(t: TableModel<H>, ops: Seq<TableOp<H>>)
    requires
        t.wf(),
    ensures
        t.run(ops).wf(),
        t.run(ops).next >= t.next,
        forall|s: u64| s >= t.next && t.run(ops).handlers.contains_key(s) ==> s < t.run(ops).next,
    decreases ops.len(),
{
    if ops.len() > 0 {
        let u = t.step(ops[0]);
        assert(u.wf());
        lemma_sequence_numbers_never_reused(u, ops.drop_first());
    }
}

/// Once a sequence number has been deregistered, no later operation brings a
/// handler back under it: a response that still arrives for it finds nobody.
pub proof fn lemma_deregistered_stays_absent<H>(t: TableModel<H>, seq: u64, ops: Seq<TableOp<H>>)
    requires
        t.wf(),
        seq < t.next,
    ensures
        t.deregister(seq).run(ops).found(seq) is None,
{
    lemma_absent_stays_absent(t.deregister(seq), seq, ops);
}

/// A sequence number that was allocated and has no handler never gets one.
pub proof fn lemma_absent_stays_absent<H>(t: TableModel<H>, seq: u64, ops: Seq<TableOp<H>>)
    requires
        seq < t.next,
        !t.handlers.contains_key(seq),
    ensures
        t.run(ops).found(seq) is None,
    decreases ops.len(),
{
    if ops.len() > 0 {
        lemma_absent_stays_absent(t.step(ops[0]), seq, ops.drop_first());
    }
}

} // verus!
