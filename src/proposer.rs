//! The decisions of a proposer connection: which submission is written next,
//! and how each submission completes.
//!
//! A `ConnectionManager` owns the order of the submissions on one connection.
//! The task that owns the socket reports what happened (the connection
//! opened or failed, a value was submitted, a write finished) and carries out
//! what the manager answers: fire completions, start one write. Writes are
//! strictly sequential and follow submission order; after any failure the
//! connection is terminated for good, and every waiting or later submission
//! completes at once with `Disconnected`.

use vstd::prelude::*;

use std::collections::VecDeque;

use crate::error::ConnectionError;

verus! {

/// Where a connection stands. Transitions only go forward.
#[derive(Debug, Clone, Copy, PartialEq, Eq, Structural)]
pub enum Phase {
    Connecting,
    Connected,
    Terminated(ConnectionError),
}

/// A framed value to write, under the ticket of its submission.
#[derive(Debug)]
pub struct Request {
    pub ticket: u64,
    pub framed: Vec<u8>,
}

impl View for Request {
    type V = (u64, Seq<u8>);

    open spec fn view(&self) -> (u64, Seq<u8>) {
        (self.ticket, self.framed@)
    }
}

/// How one submission ended. Each ticket completes exactly once.
#[derive(Debug, Clone, Copy, PartialEq, Eq)]
pub struct Completion {
    pub ticket: u64,
    pub result: Result<(), ConnectionError>,
}

/// What the owner of the socket must do after a transition: fire the
/// completions in order, then start the write, if there is one.
#[derive(Debug)]
pub struct Progress {
    pub completions: Vec<Completion>,
    pub write: Option<Request>,
}

pub open spec fn request_option_view(r: Option<Request>) -> Option<(u64, Seq<u8>)> {
    match r {
        Some(q) => Some(q@),
        None => None,
    }
}

impl View for Progress {
    type V = (Seq<Completion>, Option<(u64, Seq<u8>)>);

    open spec fn view(&self) -> (Seq<Completion>, Option<(u64, Seq<u8>)>) {
        (self.completions@, request_option_view(self.write))
    }
}

/// The abstract state of a connection: its phase, the ticket being written,
/// the requests waiting behind it, oldest first, and the next ticket.
pub struct ManagerModel {
    pub phase: Phase,
    pub in_flight: Option<u64>,
    pub waiting: Seq<(u64, Seq<u8>)>,
    pub next_ticket: u64,
}

impl ManagerModel {
    /// The tickets not completed yet, in the order they will be written.
    pub open spec fn pending(self) -> Seq<u64> {
        let rest = self.waiting.map_values(|r: (u64, Seq<u8>)| r.0);
        match self.in_flight {
            Some(t) => seq![t] + rest,
            None => rest,
        }
    }

    /// Pending tickets rise strictly, and all lie below the next ticket.
    pub open spec fn tickets_ordered(self) -> bool {
        &&& forall|i: int, j: int|
            0 <= i < j < self.pending().len() ==> self.pending()[i] < self.pending()[j]
        &&& forall|i: int| 0 <= i < self.pending().len() ==> self.pending()[i] < self.next_ticket
    }

    pub open spec fn wf(self) -> bool {
        &&& self.in_flight is Some ==> self.phase == Phase::Connected
        &&& self.phase is Terminated ==> self.waiting.len() == 0
        &&& (self.phase == Phase::Connected && self.in_flight is None) ==> self.waiting.len() == 0
        &&& self.tickets_ordered()
    }
}

/// The completions of requests that will never be written.
pub open spec fn disconnect_all(w: Seq<(u64, Seq<u8>)>) -> Seq<Completion> {
    w.map_values(
        |r: (u64, Seq<u8>)| Completion { ticket: r.0, result: Err(ConnectionError::Disconnected) },
    )
}

/// Start the oldest waiting request, if there is one, on an idle connection.
pub open spec fn start_next(m: ManagerModel, done: Seq<Completion>) -> (
    ManagerModel,
    (Seq<Completion>, Option<(u64, Seq<u8>)>),
) {
    if m.waiting.len() == 0 {
        (ManagerModel { in_flight: None, ..m }, (done, None))
    } else {
        (
            ManagerModel {
                in_flight: Some(m.waiting[0].0),
                waiting: m.waiting.drop_first(),
                ..m
            },
            (done, Some(m.waiting[0])),
        )
    }
}

/// The connection opened.
pub open spec fn step_connected(m: ManagerModel) -> (
    ManagerModel,
    (Seq<Completion>, Option<(u64, Seq<u8>)>),
) {
    if m.phase == Phase::Connecting {
        start_next(ManagerModel { phase: Phase::Connected, ..m }, seq![])
    } else {
        (m, (seq![], None))
    }
}

/// The connection could not be opened.
pub open spec fn step_connect_failed(m: ManagerModel) -> (
    ManagerModel,
    (Seq<Completion>, Option<(u64, Seq<u8>)>),
) {
    if m.phase == Phase::Connecting {
        (
            ManagerModel {
                phase: Phase::Terminated(ConnectionError::ConnectFailed),
                waiting: seq![],
                ..m
            },
            (disconnect_all(m.waiting), None),
        )
    } else {
        (m, (seq![], None))
    }
}

/// A framed value was submitted; it gets ticket `m.next_ticket`.
pub open spec fn step_submit(m: ManagerModel, framed: Seq<u8>) -> (
    ManagerModel,
    (Seq<Completion>, Option<(u64, Seq<u8>)>),
) {
    let t = m.next_ticket;
    let m1 = ManagerModel { next_ticket: (t + 1) as u64, ..m };
    match m.phase {
        Phase::Terminated(_) => (
            m1,
            (seq![Completion { ticket: t, result: Err(ConnectionError::Disconnected) }], None),
        ),
        Phase::Connected => if m.in_flight is None {
            (ManagerModel { in_flight: Some(t), ..m1 }, (seq![], Some((t, framed))))
        } else {
            (ManagerModel { waiting: m.waiting.push((t, framed)), ..m1 }, (seq![], None))
        },
        Phase::Connecting => (
            ManagerModel { waiting: m.waiting.push((t, framed)), ..m1 },
            (seq![], None),
        ),
    }
}

/// The write in flight finished, successfully when `ok`.
pub open spec fn step_write_finished(m: ManagerModel, ok: bool) -> (
    ManagerModel,
    (Seq<Completion>, Option<(u64, Seq<u8>)>),
) {
    match m.in_flight {
        None => (m, (seq![], None)),
        Some(t) => if ok {
            start_next(m, seq![Completion { ticket: t, result: Ok(()) }])
        } else {
            (
                ManagerModel {
                    phase: Phase::Terminated(ConnectionError::WriteFailed),
                    in_flight: None,
                    waiting: seq![],
                    ..m
                },
                (
                    seq![Completion { ticket: t, result: Err(ConnectionError::WriteFailed) }]
                        + disconnect_all(m.waiting),
                    None,
                ),
            )
        },
    }
}

/// The order of the submissions on one proposer connection.
pub struct ConnectionManager {
    phase: Phase,
    in_flight: Option<u64>,
    waiting: VecDeque<Request>,
    next_ticket: u64,
}

impl View for ConnectionManager {
    type V = ManagerModel;

    closed spec fn view(&self) -> ManagerModel {
        ManagerModel {
            phase: self.phase,
            in_flight: self.in_flight,
            waiting: self.waiting@.map_values(|r: Request| r@),
            next_ticket: self.next_ticket,
        }
    }
}

impl ConnectionManager {
    /// A connection that is being opened, with nothing submitted.
    pub fn new() -> (r: Self)
        ensures
            r@ == (ManagerModel {
                phase: Phase::Connecting,
                in_flight: None,
                waiting: seq![],
                next_ticket: 0,
            }),
            r@.wf(),
    {
        let r = ConnectionManager {
            phase: Phase::Connecting,
            in_flight: None,
            waiting: VecDeque::new(),
            next_ticket: 0,
        };
        assert(r@.waiting =~= seq![]);
        r
    }

    pub fn phase(&self) -> (r: Phase)
        ensures
            r == self@.phase,
    {
        self.phase
    }

    /// Whether another submission can be given a ticket.
    pub fn can_submit(&self) -> (r: bool)
        ensures
            r == (self@.next_ticket < u64::MAX),
    {
        self.next_ticket < u64::MAX
    }

    /// Fails every waiting request with `Disconnected`, oldest first.
    fn drain_disconnected(&mut self, done: &mut Vec<Completion>)
        ensures
            final(self)@ == (ManagerModel { waiting: seq![], ..old(self)@ }),
            final(done)@ == old(done)@ + disconnect_all(old(self)@.waiting),
    {
        let ghost start_done = done@;
        let ghost all = self@.waiting;
        while self.waiting.len() > 0
            invariant
                self@ == (ManagerModel { waiting: self@.waiting, ..old(self)@ }),
                all == old(self)@.waiting,
                start_done == old(done)@,
                self@.waiting.len() <= all.len(),
                self@.waiting == all.subrange(all.len() - self@.waiting.len(), all.len() as int),
                done@ == start_done + disconnect_all(
                    all.subrange(0, all.len() - self@.waiting.len()),
                ),
            decreases self@.waiting.len(),
        {
            let ghost wv = self@.waiting;
            let ghost k = all.len() - wv.len();
            assert(wv[0] == all[k]);
            match self.waiting.pop_front() {
                Some(r) => {
                    assert(r@ == wv[0]);
                    done.push(Completion { ticket: r.ticket, result: Err(ConnectionError::Disconnected) });
                    assert(self@.waiting =~= wv.drop_first());
                    assert(all.subrange(0, k + 1) =~= all.subrange(0, k).push(all[k]));
                    assert(disconnect_all(all.subrange(0, k + 1)) =~= disconnect_all(
                        all.subrange(0, k),
                    ).push(Completion { ticket: all[k].0, result: Err(ConnectionError::Disconnected) }));
                    assert(self@.waiting =~= all.subrange(k + 1, all.len() as int));
                },
                None => {},
            }
        }
        assert(self@.waiting =~= seq![]);
        assert(all.subrange(0, all.len() as int) =~= all);
    }

    /// Moves the oldest waiting request, if any, into flight.
    fn start_next(&mut self, done: Vec<Completion>) -> (r: Progress)
        requires
            old(self).in_flight is None,
        ensures
            (final(self)@, r@) == start_next(old(self)@, done@),
    {
        let ghost w = self@.waiting;
        match self.waiting.pop_front() {
            Some(req) => {
                self.in_flight = Some(req.ticket);
                assert(self@.waiting =~= w.drop_first());
                Progress { completions: done, write: Some(req) }
            },
            None => Progress { completions: done, write: None },
        }
    }

    /// The connection opened: the oldest waiting request, if any, is written.
    pub fn connected(&mut self) -> (r: Progress)
        requires
            old(self)@.wf(),
        ensures
            (final(self)@, r@) == step_connected(old(self)@),
            final(self)@.wf(),
    {
        if self.phase == Phase::Connecting {
            self.phase = Phase::Connected;
            let r = self.start_next(Vec::new());
            assert(r.completions@ =~= seq![]);
            proof {
                assert(ManagerModel { phase: Phase::Connected, ..old(self)@ }.pending()
                    =~= old(self)@.pending());
                lemma_start_next_wf(ManagerModel { phase: Phase::Connected, ..old(self)@ }, seq![]);
            }
            r
        } else {
            let r = Progress { completions: Vec::new(), write: None };
            assert(r.completions@ =~= seq![]);
            r
        }
    }

    /// The connection could not be opened: the connection terminates and
    /// every waiting request completes with `Disconnected`.
    pub fn connect_failed(&mut self) -> (r: Progress)
        requires
            old(self)@.wf(),
        ensures
            (final(self)@, r@) == step_connect_failed(old(self)@),
            final(self)@.wf(),
    {
        let mut done: Vec<Completion> = Vec::new();
        if self.phase == Phase::Connecting {
            self.drain_disconnected(&mut done);
            self.phase = Phase::Terminated(ConnectionError::ConnectFailed);
            assert(done@ =~= disconnect_all(old(self)@.waiting));
            proof {
                assert(self@.pending() =~= seq![]);
            }
        } else {
            assert(done@ =~= seq![]);
        }
        Progress { completions: done, write: None }
    }

    /// Submits a framed value under a fresh ticket. On an idle open
    /// connection it is written at once; on a terminated one it completes at
    /// once with `Disconnected`; otherwise it waits behind the earlier ones.
    pub fn submit(&mut self, framed: Vec<u8>) -> (r: (u64, Progress))
        requires
            old(self)@.wf(),
            old(self)@.next_ticket < u64::MAX,
        ensures
            r.0 == old(self)@.next_ticket,
            (final(self)@, r.1@) == step_submit(old(self)@, framed@),
            final(self)@.wf(),
            final(self)@.pending() == match old(self)@.phase {
                Phase::Terminated(_) => old(self)@.pending(),
                _ => old(self)@.pending().push(r.0),
            },
    {
        let t = self.next_ticket;
        self.next_ticket = t + 1;
        let ghost m = old(self)@;
        let ghost fv = framed@;
        match self.phase {
            Phase::Terminated(_) => {
                let mut done: Vec<Completion> = Vec::new();
                done.push(Completion { ticket: t, result: Err(ConnectionError::Disconnected) });
                assert(done@ =~= seq![Completion { ticket: t, result: Err(ConnectionError::Disconnected) }]);
                (t, Progress { completions: done, write: None })
            },
            Phase::Connected if self.in_flight.is_none() => {
                self.in_flight = Some(t);
                let r = Progress { completions: Vec::new(), write: Some(Request { ticket: t, framed }) };
                assert(r.completions@ =~= seq![]);
                assert(m.waiting.len() == 0);
                assert(self@.waiting =~= seq![]);
                assert(m.pending() =~= seq![]);
                assert(self@.pending() =~= m.pending().push(t));
                (t, r)
            },
            _ => {
                self.waiting.push_back(Request { ticket: t, framed });
                let r = Progress { completions: Vec::new(), write: None };
                assert(r.completions@ =~= seq![]);
                assert(self@.waiting =~= m.waiting.push((t, fv)));
                assert(m.waiting.push((t, fv)).map_values(|q: (u64, Seq<u8>)| q.0)
                    =~= m.waiting.map_values(|q: (u64, Seq<u8>)| q.0).push(t));
                assert(self@.pending() =~= m.pending().push(t));
                (t, r)
            },
        }
    }

    /// The write in flight finished. On success its submission completes with
    /// `Ok` and the oldest waiting request is written next. On failure it
    /// completes with `WriteFailed`, every waiting request with
    /// `Disconnected`, and the connection terminates.
    pub fn write_finished(&mut self, ok: bool) -> (r: Progress)
        requires
            old(self)@.wf(),
        ensures
            (final(self)@, r@) == step_write_finished(old(self)@, ok),
            final(self)@.wf(),
    {
        let ghost m = old(self)@;
        match self.in_flight {
            None => {
                let r = Progress { completions: Vec::new(), write: None };
                assert(r.completions@ =~= seq![]);
                r
            },
            Some(t) => {
                self.in_flight = None;
                let mut done: Vec<Completion> = Vec::new();
                if ok {
                    done.push(Completion { ticket: t, result: Ok(()) });
                    assert(done@ =~= seq![Completion { ticket: t, result: Ok(()) }]);
                    let r = self.start_next(done);
                    proof {
                        lemma_start_next_wf(m, done@);
                    }
                    r
                } else {
                    done.push(Completion { ticket: t, result: Err(ConnectionError::WriteFailed) });
                    let ghost first = done@;
                    assert(first =~= seq![Completion { ticket: t, result: Err(ConnectionError::WriteFailed) }]);
                    self.drain_disconnected(&mut done);
                    self.phase = Phase::Terminated(ConnectionError::WriteFailed);
                    assert(self@.pending() =~= seq![]);
                    Progress { completions: done, write: None }
                }
            },
        }
    }
}

/// What the completion channel of one submission has shown so far.
#[derive(Debug, Clone, Copy, PartialEq, Eq)]
pub enum Delivery {
    /// Nothing has been reported yet.
    Waiting,
    /// The connection reported this outcome.
    Fired(Result<(), ConnectionError>),
    /// The connection went away without reporting.
    Abandoned,
}

/// What a poll of a submission gives.
#[derive(Debug, Clone, Copy, PartialEq, Eq)]
pub enum SubmitPoll {
    Pending,
    Ready(Result<(), ConnectionError>),
}

/// The awaitable side of one submission.
#[derive(Debug, Clone, Copy, PartialEq, Eq, Structural)]
pub struct Submitted {
    /// Whether the request reached the connection's queue at all.
    pub accepted: bool,
}

impl Submitted {
    pub fn new(accepted: bool) -> (r: Self)
        ensures
            r.accepted == accepted,
    {
        Submitted { accepted }
    }

    /// The outcome of the submission, given what its completion channel
    /// shows. A submission that never reached the queue, or whose
    /// connection went away without reporting, fails with `Disconnected`
    /// at once, rather than staying pending.
    pub fn poll(&self, delivery: Delivery) -> (r: SubmitPoll)
        ensures
            r == (if !self.accepted {
                SubmitPoll::Ready(Err(ConnectionError::Disconnected))
            } else {
                match delivery {
                    Delivery::Waiting => SubmitPoll::Pending,
                    Delivery::Fired(res) => SubmitPoll::Ready(res),
                    Delivery::Abandoned => SubmitPoll::Ready(Err(ConnectionError::Disconnected)),
                }
            }),
    {
        if !self.accepted {
            return SubmitPoll::Ready(Err(ConnectionError::Disconnected));
        }
        match delivery {
            Delivery::Waiting => SubmitPoll::Pending,
            Delivery::Fired(res) => SubmitPoll::Ready(res),
            Delivery::Abandoned => SubmitPoll::Ready(Err(ConnectionError::Disconnected)),
        }
    }
}

/// Starting the next request keeps a connection well formed.
proof fn lemma_start_next_wf(m: ManagerModel, done: Seq<Completion>)
    requires
        m.tickets_ordered(),
        m.phase == Phase::Connected,
    ensures
        start_next(ManagerModel { in_flight: None, ..m }, done).0.wf(),
{
    let m0 = ManagerModel { in_flight: None, ..m };
    let m1 = start_next(m0, done).0;
    let rest = m.waiting.map_values(|r: (u64, Seq<u8>)| r.0);
    if m.waiting.len() > 0 {
        assert(m1.pending() =~= rest);
        if m.in_flight is Some {
            assert(m.pending() =~= seq![m.in_flight.unwrap()] + rest);
            assert forall|i: int, j: int| 0 <= i < j < m1.pending().len() implies m1.pending()[i]
                < m1.pending()[j] by {
                assert(m1.pending()[i] == m.pending()[i + 1]);
                assert(m1.pending()[j] == m.pending()[j + 1]);
            }
            assert forall|i: int| 0 <= i < m1.pending().len() implies m1.pending()[i]
                < m1.next_ticket by {
                assert(m1.pending()[i] == m.pending()[i + 1]);
            }
        } else {
            assert(m.pending() =~= rest);
        }
    } else {
        assert(m1.pending() =~= seq![]);
    }
}

/// Wire order follows submission order: while a submission is still
/// waiting or being written, no submission with a later ticket is being
/// written. Tickets are handed out in submission order (see
/// `ConnectionManager::submit`), so of two values submitted one after the
/// other, the second one's write begins only once the first one's has
/// completed.
pub proof fn lemma_fifo_wire_order(m: ManagerModel, earlier: u64, later: u64)
    requires
        m.wf(),
        m.pending().contains(earlier),
        earlier < later,
    ensures
        m.in_flight != Some(later),
{
    if m.in_flight == Some(later) {
        let i = choose|i: int| 0 <= i < m.pending().len() && m.pending()[i] == earlier;
        assert(m.pending()[0] == later);
        if i > 0 {
            assert(m.pending()[0] < m.pending()[i]);
        }
    }
}

/// On an open, idle connection, a submitted value is written at once,
/// byte for byte, and its submission completes with `Ok` once that write
/// has succeeded.
pub proof fn lemma_idle_submission_is_written(m: ManagerModel, framed: Seq<u8>)
    requires
        m.wf(),
        m.phase == Phase::Connected,
        m.in_flight is None,
        m.next_ticket < u64::MAX,
    ensures
        ({
            let t = m.next_ticket;
            let (m1, p1) = step_submit(m, framed);
            let (m2, p2) = step_write_finished(m1, true);
            &&& p1.0 == Seq::<Completion>::empty()
            &&& p1.1 == Some((t, framed))
            &&& p2.0 == seq![Completion { ticket: t, result: Ok(()) }]
            &&& p2.1 is None
            &&& m2.in_flight is None
            &&& m2.phase == Phase::Connected
        }),
{
}

/// Two values submitted one after the other on an open, idle connection
/// reach the wire one after the other: the first is written at once, the
/// second only when the first's write has succeeded and completed it with
/// `Ok`, and never both at the same time.
pub proof fn lemma_two_submissions_are_written_in_turn(
    m: ManagerModel,
    first: Seq<u8>,
    second: Seq<u8>,
)
    requires
        m.wf(),
        m.phase == Phase::Connected,
        m.in_flight is None,
        m.next_ticket < u64::MAX - 1,
    ensures
        ({
            let t = m.next_ticket;
            let (m1, p1) = step_submit(m, first);
            let (m2, p2) = step_submit(m1, second);
            let (m3, p3) = step_write_finished(m2, true);
            let (m4, p4) = step_write_finished(m3, true);
            &&& p1.1 == Some((t, first))
            &&& p2.0 == Seq::<Completion>::empty()
            &&& p2.1 is None
            &&& m2.in_flight == Some(t)
            &&& p3.0 == seq![Completion { ticket: t, result: Ok(()) }]
            &&& p3.1 == Some(((t + 1) as u64, second))
            &&& p4.0 == seq![Completion { ticket: (t + 1) as u64, result: Ok(()) }]
            &&& p4.1 is None
        }),
{
    let t = m.next_ticket;
    let m2 = step_submit(step_submit(m, first).0, second).0;
    assert(m2.waiting =~= seq![((t + 1) as u64, second)]);
    assert(m2.waiting.drop_first() =~= Seq::<(u64, Seq<u8>)>::empty());
}

/// Two submissions in a row on an open or opening connection get
/// consecutive tickets and join the end of the pending order, the first
/// before the second.
pub proof fn lemma_submissions_keep_order(m: ManagerModel, first: Seq<u8>, second: Seq<u8>)
    requires
        m.wf(),
        m.next_ticket < u64::MAX - 1,
        !(m.phase is Terminated),
    ensures
        ({
            let m1 = step_submit(m, first).0;
            let m2 = step_submit(m1, second).0;
            &&& m2.pending() == m.pending().push(m.next_ticket).push((m.next_ticket + 1) as u64)
            &&& m2.wf()
        }),
{
    lemma_submit_model(m, first);
    lemma_submit_model(step_submit(m, first).0, second);
}

/// What a submission does to the pending order, at the level of the model.
proof fn lemma_submit_model(m: ManagerModel, framed: Seq<u8>)
    requires
        m.wf(),
        m.next_ticket < u64::MAX,
    ensures
        step_submit(m, framed).0.wf(),
        step_submit(m, framed).0.next_ticket == m.next_ticket + 1,
        step_submit(m, framed).0.phase == m.phase,
        step_submit(m, framed).0.pending() == match m.phase {
            Phase::Terminated(_) => m.pending(),
            _ => m.pending().push(m.next_ticket),
        },
{
    let t = m.next_ticket;
    let m1 = step_submit(m, framed).0;
    let rest = m.waiting.map_values(|q: (u64, Seq<u8>)| q.0);
    match m.phase {
        Phase::Terminated(_) => {
            assert(m1.pending() =~= m.pending());
        },
        Phase::Connected => {
            if m.in_flight is None {
                assert(m.pending() =~= seq![]);
                assert(m1.pending() =~= seq![t]);
            } else {
                assert(m.waiting.push((t, framed)).map_values(|q: (u64, Seq<u8>)| q.0)
                    =~= rest.push(t));
                assert(m1.pending() =~= m.pending().push(t));
            }
        },
        Phase::Connecting => {
            assert(m.waiting.push((t, framed)).map_values(|q: (u64, Seq<u8>)| q.0) =~= rest.push(t));
            assert(m1.pending() =~= m.pending().push(t));
        },
    }
}

/// On a terminated connection every submission completes at once with
/// `Disconnected`, nothing is written, and the connection stays terminated.
pub proof fn lemma_submit_after_termination(m: ManagerModel, framed: Seq<u8>)
    requires
        m.wf(),
        m.phase is Terminated,
    ensures
        ({
            let (m1, p) = step_submit(m, framed);
            &&& p.0 == seq![
                Completion { ticket: m.next_ticket, result: Err(ConnectionError::Disconnected) },
            ]
            &&& p.1 is None
            &&& m1.phase == m.phase
            &&& m1.pending() == m.pending()
        }),
{
    let m1 = step_submit(m, framed).0;
    assert(m1.pending() =~= m.pending());
}

/// After a write fails, the connection is terminated, and a submission made
/// afterwards completes at once with `Disconnected` and is never written.
pub proof fn lemma_submit_after_write_failure(m: ManagerModel, framed: Seq<u8>)
    requires
        m.wf(),
        m.in_flight is Some,
    ensures
        ({
            let m1 = step_write_finished(m, false).0;
            let (m2, p) = step_submit(m1, framed);
            &&& m1.phase == Phase::Terminated(ConnectionError::WriteFailed)
            &&& p.0 == seq![
                Completion { ticket: m1.next_ticket, result: Err(ConnectionError::Disconnected) },
            ]
            &&& p.1 is None
            &&& m2.phase == m1.phase
        }),
{
}

/// After the connection fails to open, a submission completes at once with
/// `Disconnected` and is never written.
pub proof fn lemma_submit_after_connect_failure(m: ManagerModel, framed: Seq<u8>)
    requires
        m.wf(),
        m.phase == Phase::Connecting,
    ensures
        ({
            let m1 = step_connect_failed(m).0;
            let (m2, p) = step_submit(m1, framed);
            &&& m1.phase == Phase::Terminated(ConnectionError::ConnectFailed)
            &&& p.0 == seq![
                Completion { ticket: m1.next_ticket, result: Err(ConnectionError::Disconnected) },
            ]
            &&& p.1 is None
            &&& m2.phase == m1.phase
        }),
{
}

} // verus!
