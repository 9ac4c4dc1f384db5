//! Decided log entries on their way from the engine to one consumer.
//!
//! The engine hands each decision to a callback, on its own thread, with a
//! byte span that is valid only during the call: `Decision::from_delivery`
//! copies it out. In queued mode the callback feeds a `DecisionStream`, which
//! its single consumer polls; the stream hands the decisions out in the order
//! they were delivered, each exactly once, and ends once the producer has
//! closed it and everything delivered has been handed out.

use vstd::prelude::*;

use std::collections::VecDeque;

use crate::error::EngineError;

verus! {

/// One decided slot of the replicated log.
#[derive(Debug, Clone, PartialEq, Eq)]
pub struct Decision {
    /// The slot's sequence number.
    pub iid: u64,
    pub value: Vec<u8>,
}

impl View for Decision {
    type V = (u64, Seq<u8>);

    open spec fn view(&self) -> (u64, Seq<u8>) {
        (self.iid, self.value@)
    }
}

impl Decision {
    /// The decision that the engine delivered for slot `iid`, with its value
    /// copied out of the engine's buffer.
    pub fn from_delivery(iid: u64, bytes: &[u8]) -> (r: Decision)
        ensures
            r@ == (iid, bytes@),
    {
        let mut value: Vec<u8> = Vec::new();
        let mut i: usize = 0;
        while i < bytes.len()
            invariant
                i <= bytes@.len(),
                value@ == bytes@.subrange(0, i as int),
            decreases bytes@.len() - i,
        {
            value.push(bytes[i]);
            i = i + 1;
            assert(value@ =~= bytes@.subrange(0, i as int));
        }
        assert(bytes@.subrange(0, bytes@.len() as int) =~= bytes@);
        Decision { iid, value }
    }
}

/// What one poll of a `DecisionStream` gives.
#[derive(Debug)]
pub enum StreamPoll {
    /// The oldest decision not handed out yet.
    Item(Decision),
    /// Nothing to hand out yet; the producer is still running.
    Pending,
    /// The producer has closed the stream and everything was handed out.
    Ended,
}

/// The abstract state of a decision stream: the decisions waiting, oldest
/// first, whether the producer has closed it, and the history of what was
/// delivered and what was handed out.
pub struct StreamModel {
    pub queued: Seq<(u64, Seq<u8>)>,
    pub closed: bool,
    pub delivered: Seq<(u64, Seq<u8>)>,
    pub yielded: Seq<(u64, Seq<u8>)>,
}

impl StreamModel {
    /// What was handed out, followed by what waits, is exactly what was
    /// delivered.
    pub open spec fn wf(self) -> bool {
        self.delivered == self.yielded + self.queued
    }

    /// The stream has ended: no poll will give anything again.
    pub open spec fn ended(self) -> bool {
        self.closed && self.queued.len() == 0
    }
}

/// Delivering decision `d`: queued and recorded, unless the stream is closed.
pub open spec fn model_deliver(m: StreamModel, d: (u64, Seq<u8>)) -> StreamModel {
    if m.closed {
        m
    } else {
        StreamModel { queued: m.queued.push(d), delivered: m.delivered.push(d), ..m }
    }
}

/// Polling once: the oldest queued decision, if there is one, leaves the
/// queue and is handed out.
pub open spec fn model_poll(m: StreamModel) -> (StreamModel, Option<(u64, Seq<u8>)>) {
    if m.queued.len() == 0 {
        (m, None)
    } else {
        (
            StreamModel {
                queued: m.queued.drop_first(),
                yielded: m.yielded.push(m.queued[0]),
                ..m
            },
            Some(m.queued[0]),
        )
    }
}

/// Delivering the decisions `ds` one after another.
pub open spec fn deliver_all(m: StreamModel, ds: Seq<(u64, Seq<u8>)>) -> StreamModel
    decreases ds.len(),
{
    if ds.len() == 0 {
        m
    } else {
        model_deliver(deliver_all(m, ds.drop_last()), ds.last())
    }
}

/// Polling `n` times: the state after, and the decisions handed out, in order.
pub open spec fn poll_times(m: StreamModel, n: nat) -> (StreamModel, Seq<(u64, Seq<u8>)>)
    decreases n,
{
    if n == 0 {
        (m, seq![])
    } else {
        let (m1, items) = poll_times(m, (n - 1) as nat);
        let (m2, item) = model_poll(m1);
        (
            m2,
            match item {
                Some(d) => items.push(d),
                None => items,
            },
        )
    }
}

pub open spec fn poll_view(r: StreamPoll) -> Option<(u64, Seq<u8>)> {
    match r {
        StreamPoll::Item(d) => Some(d@),
        _ => None,
    }
}

/// A single-consumer stream of decisions, fed in delivery order.
pub struct DecisionStream {
    queue: VecDeque<Decision>,
    closed: bool,
    delivered: Ghost<Seq<(u64, Seq<u8>)>>,
    yielded: Ghost<Seq<(u64, Seq<u8>)>>,
}

impl View for DecisionStream {
    type V = StreamModel;

    closed spec fn view(&self) -> StreamModel {
        StreamModel {
            queued: self.queue@.map_values(|d: Decision| d@),
            closed: self.closed,
            delivered: self.delivered@,
            yielded: self.yielded@,
        }
    }
}

impl DecisionStream {
    /// An open stream with nothing delivered.
    pub fn new() -> (r: Self)
        ensures
            r@ == (StreamModel {
                queued: seq![],
                closed: false,
                delivered: seq![],
                yielded: seq![],
            }),
            r@.wf(),
    {
        let r = DecisionStream {
            queue: VecDeque::new(),
            closed: false,
            delivered: Ghost(Seq::empty()),
            yielded: Ghost(Seq::empty()),
        };
        assert(r@.queued =~= seq![]);
        assert(seq![] + seq![] =~= Seq::<(u64, Seq<u8>)>::empty());
        r
    }

    /// Queues the decision that the engine delivered for slot `iid`. A
    /// delivery after the stream was closed is dropped; the result says
    /// whether it was queued.
    pub fn deliver(&mut self, iid: u64, bytes: &[u8]) -> (r: bool)
        requires
            old(self)@.wf(),
        ensures
            r == !old(self)@.closed,
            final(self)@ == model_deliver(old(self)@, (iid, bytes@)),
            final(self)@.wf(),
    {
        if self.closed {
            return false;
        }
        let d = Decision::from_delivery(iid, bytes);
        let ghost before = self@;
        self.queue.push_back(d);
        self.delivered = Ghost(self.delivered@.push((iid, bytes@)));
        assert(self@.queued =~= before.queued.push((iid, bytes@)));
        assert(self@.delivered =~= self@.yielded + self@.queued);
        true
    }

    /// Whether the producer has closed the stream.
    pub fn is_closed(&self) -> (r: bool)
        ensures
            r == self@.closed,
    {
        self.closed
    }

    /// The producer is done: once everything queued is handed out, the
    /// stream ends.
    pub fn close(&mut self)
        requires
            old(self)@.wf(),
        ensures
            final(self)@ == (StreamModel { closed: true, ..old(self)@ }),
            final(self)@.wf(),
    {
        self.closed = true;
    }

    /// Hands out the oldest queued decision; with none, tells whether more
    /// may come.
    pub fn poll(&mut self) -> (r: StreamPoll)
        requires
            old(self)@.wf(),
        ensures
            (final(self)@, poll_view(r)) == model_poll(old(self)@),
            final(self)@.wf(),
            old(self)@.queued.len() == 0 ==> (if old(self)@.closed {
                r is Ended
            } else {
                r is Pending
            }),
    {
        let ghost before = self@;
        match self.queue.pop_front() {
            Some(d) => {
                self.yielded = Ghost(self.yielded@.push(d@));
                assert(self@.queued =~= before.queued.drop_first());
                assert(before.queued =~= seq![d@] + before.queued.drop_first());
                assert(self@.delivered =~= self@.yielded + self@.queued);
                StreamPoll::Item(d)
            },
            None => {
                if self.closed {
                    StreamPoll::Ended
                } else {
                    StreamPoll::Pending
                }
            },
        }
    }
}

/// Decisions leave the stream exactly as they came in: what was handed out
/// is always a prefix of what was delivered, in the same order, and once the
/// stream has ended it is all of it, with nothing repeated or skipped.
pub proof fn lemma_stream_yields_delivered(m: StreamModel)
    requires
        m.wf(),
    ensures
        m.yielded.len() <= m.delivered.len(),
        m.yielded == m.delivered.subrange(0, m.yielded.len() as int),
        m.ended() ==> m.yielded == m.delivered,
{
    assert(m.delivered.subrange(0, m.yielded.len() as int) =~= m.yielded);
    if m.ended() {
        assert(m.yielded + m.queued =~= m.yielded);
    }
}

proof fn lemma_deliver_all_queues(m: StreamModel, ds: Seq<(u64, Seq<u8>)>)
    requires
        !m.closed,
    ensures
        deliver_all(m, ds) == (StreamModel {
            queued: m.queued + ds,
            delivered: m.delivered + ds,
            ..m
        }),
    decreases ds.len(),
{
    if ds.len() == 0 {
        assert(m.queued + ds =~= m.queued);
        assert(m.delivered + ds =~= m.delivered);
    } else {
        lemma_deliver_all_queues(m, ds.drop_last());
        assert(m.queued + ds.drop_last() + seq![ds.last()] =~= m.queued + ds);
        assert((m.queued + ds.drop_last()).push(ds.last()) =~= m.queued + ds);
        assert((m.delivered + ds.drop_last()).push(ds.last()) =~= m.delivered + ds);
    }
}

proof fn lemma_poll_times_takes(m: StreamModel, n: nat)
    requires
        n <= m.queued.len(),
    ensures
        poll_times(m, n).1 == m.queued.take(n as int),
        poll_times(m, n).0 == (StreamModel {
            queued: m.queued.skip(n as int),
            yielded: m.yielded + m.queued.take(n as int),
            ..m
        }),
    decreases n,
{
    if n == 0 {
        assert(m.queued.take(0) =~= seq![]);
        assert(m.queued.skip(0) =~= m.queued);
        assert(m.yielded + seq![] =~= m.yielded);
    } else {
        let k = (n - 1) as nat;
        lemma_poll_times_takes(m, k);
        let q = m.queued;
        assert(q.skip(k as int)[0] == q[k as int]);
        assert(q.take(k as int).push(q[k as int]) =~= q.take(n as int));
        assert(q.skip(k as int).drop_first() =~= q.skip(n as int));
        assert((m.yielded + q.take(k as int)).push(q[k as int]) =~= m.yielded + q.take(n as int));
    }
}

/// Whatever decisions `ds` the engine delivers to an open stream with
/// nothing waiting, as many polls hand out exactly `ds`, in order, and
/// leave nothing waiting.
pub proof fn lemma_stream_replays_deliveries(m: StreamModel, ds: Seq<(u64, Seq<u8>)>)
    requires
        m.wf(),
        !m.closed,
        m.queued.len() == 0,
    ensures
        poll_times(deliver_all(m, ds), ds.len()).1 == ds,
        poll_times(deliver_all(m, ds), ds.len()).0.queued.len() == 0,
{
    lemma_deliver_all_queues(m, ds);
    let m1 = deliver_all(m, ds);
    assert(m1.queued =~= ds);
    lemma_poll_times_takes(m1, ds.len());
    assert(ds.take(ds.len() as int) =~= ds);
}

/// How stopping the engine's worker thread ended: the interrupt could not
/// be delivered, or it was and the thread was joined, cleanly or not.
pub fn stop_outcome(interrupt_delivered: bool, joined_cleanly: bool) -> (r: Result<(), EngineError>)
    ensures
        !interrupt_delivered ==> r == Err::<(), EngineError>(EngineError::CancelFailed),
        interrupt_delivered && !joined_cleanly ==> r == Err::<(), EngineError>(EngineError::Crashed),
        interrupt_delivered && joined_cleanly ==> r is Ok,
{
    if !interrupt_delivered {
        Err(EngineError::CancelFailed)
    } else if !joined_cleanly {
        Err(EngineError::Crashed)
    } else {
        Ok(())
    }
}

} // verus!
