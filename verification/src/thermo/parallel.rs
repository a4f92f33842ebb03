//! The dispatcher of the parallel conversion.
//!
//! Converting in parallel is a loop around three things that the dispatcher
//! does not do itself: handing a scan to a worker, waiting for a worker to
//! finish, and returning. The dispatcher decides which of them is due. It
//! schedules the scans in ascending order, keeps at most as many at work as
//! the queue holds, schedules nothing new once a worker has failed, and
//! finishes only when no scan is at work any more.

use crate::error::MzioError;
use crate::thermo::spectrum::count_ms2;
use vstd::prelude::*;

verus! {

/// What is due next in the parallel conversion.
#[derive(Clone, Copy, Debug, PartialEq, Eq, Structural)]
pub enum Action {
    /// Hand the scan `index` to a worker.
    Dispatch { index: u32 },
    /// Wait until a worker has finished.
    Wait,
    /// Return: with `failure` where a worker failed, else with success.
    Finish { failure: Option<MzioError> },
}

/// What the dispatcher is told.
pub enum Event {
    /// It is asked what is due.
    Poll,
    /// A worker has finished a scan, with a failure or without.
    Completed { failure: Option<MzioError> },
}

/// The state of a dispatcher.
pub struct DispatcherView {
    /// The scan that is scheduled next; `None` when all are scheduled.
    pub pending: Option<u32>,
    /// The last scan of the source.
    pub last: u32,
    /// How many scans are at work.
    pub in_flight: nat,
    /// How many scans may be at work at a time.
    pub limit: nat,
    /// The first failure that a worker reported.
    pub failure: Option<MzioError>,
}

impl DispatcherView {
    /// At least one scan may be at work, no more are at work than may be,
    /// and the scan that is scheduled next lies within the bounds.
    pub open spec fn wf(self) -> bool {
        &&& self.limit >= 1
        &&& self.in_flight <= self.limit
        &&& self.pending matches Some(i) ==> i <= self.last
    }

    /// The dispatcher before any scan is scheduled. A queue of size zero
    /// holds one scan, as a hand-over without a queue does.
    pub open spec fn fresh(first: u32, last: u32, queue_size: usize) -> DispatcherView {
        DispatcherView {
            pending: if first <= last {
                Some(first)
            } else {
                None
            },
            last,
            in_flight: 0,
            limit: if queue_size == 0 {
                1
            } else {
                queue_size as nat
            },
            failure: None,
        }
    }

    /// What is due in this state.
    pub open spec fn decide(self) -> Action {
        if self.failure is Some {
            if self.in_flight > 0 {
                Action::Wait
            } else {
                Action::Finish { failure: self.failure }
            }
        } else {
            match self.pending {
                Some(index) => if self.in_flight < self.limit {
                    Action::Dispatch { index }
                } else {
                    Action::Wait
                },
                None => if self.in_flight > 0 {
                    Action::Wait
                } else {
                    Action::Finish { failure: None }
                },
            }
        }
    }

    /// The state after the dispatcher was asked what is due: where a scan
    /// was scheduled, that scan is at work and the next one is pending.
    pub open spec fn polled(self) -> DispatcherView {
        match self.decide() {
            Action::Dispatch { index } => DispatcherView {
                pending: if index < self.last {
                    Some((index + 1) as u32)
                } else {
                    None
                },
                in_flight: self.in_flight + 1,
                ..self
            },
            _ => self,
        }
    }

    /// The state after a worker has finished: one scan fewer is at work, and
    /// the first failure is kept.
    pub open spec fn completed(self, failure: Option<MzioError>) -> DispatcherView {
        DispatcherView {
            in_flight: (self.in_flight - 1) as nat,
            failure: if self.failure is Some {
                self.failure
            } else {
                failure
            },
            ..self
        }
    }

    /// Whether `event` can happen in this state: a worker can only finish
    /// while a scan is at work.
    pub open spec fn accepts(self, event: Event) -> bool {
        event is Completed ==> self.in_flight > 0
    }

    /// The state after `event`.
    pub open spec fn step(self, event: Event) -> DispatcherView {
        match event {
            Event::Poll => self.polled(),
            Event::Completed { failure } => self.completed(failure),
        }
    }

    /// The state after the events of `events`, one after the other.
    pub open spec fn run(self, events: Seq<Event>) -> DispatcherView
        decreases events.len(),
    {
        if events.len() == 0 {
            self
        } else {
            self.run(events.drop_last()).step(events.last())
        }
    }

    /// Whether each event of `events` can happen when its turn comes.
    pub open spec fn admits(self, events: Seq<Event>) -> bool
        decreases events.len(),
    {
        events.len() > 0 ==> self.admits(events.drop_last()) && self.run(
            events.drop_last(),
        ).accepts(events.last())
    }

    /// The scans that are scheduled in the course of `events`, in the order
    /// in which they are scheduled.
    pub open spec fn dispatched(self, events: Seq<Event>) -> Seq<u32>
        decreases events.len(),
    {
        if events.len() == 0 {
            Seq::empty()
        } else {
            let before = self.dispatched(events.drop_last());
            match (events.last(), self.run(events.drop_last()).decide()) {
                (Event::Poll, Action::Dispatch { index }) => before.push(index),
                _ => before,
            }
        }
    }
}

/// The dispatcher of a parallel conversion.
#[derive(Debug)]
pub struct Dispatcher {
    next: u32,
    last: u32,
    exhausted: bool,
    in_flight: usize,
    limit: usize,
    failure: Option<MzioError>,
}

impl View for Dispatcher {
    type V = DispatcherView;

    closed spec fn view(&self) -> DispatcherView {
        DispatcherView {
            pending: if self.exhausted || self.next > self.last {
                None
            } else {
                Some(self.next)
            },
            last: self.last,
            in_flight: self.in_flight as nat,
            limit: self.limit as nat,
            failure: self.failure,
        }
    }
}

impl Dispatcher {
    #[verifier::type_invariant]
    spec fn inv(&self) -> bool {
        1 <= self.limit && self.in_flight <= self.limit
    }

    /// A dispatcher for the scans from `first` to `last` that keeps at most
    /// `queue_size` of them at work; one where `queue_size` is zero.
    pub fn new(first: u32, last: u32, queue_size: usize) -> (dispatcher: Self)
        ensures
            dispatcher@ == DispatcherView::fresh(first, last, queue_size),
            dispatcher@.wf(),
    {
        Dispatcher {
            next: first,
            last,
            exhausted: first > last,
            in_flight: 0,
            limit: if queue_size == 0 {
                1
            } else {
                queue_size
            },
            failure: None,
        }
    }

    /// How many scans are at work.
    pub fn in_flight(&self) -> (n: usize)
        ensures
            n == self@.in_flight,
            self@.wf(),
    {
        proof {
            use_type_invariant(self);
        }
        self.in_flight
    }

    /// Says what is due, and counts a scan that it schedules as at work.
    pub fn next_action(&mut self) -> (action: Action)
        ensures
            action == old(self)@.decide(),
            final(self)@ == old(self)@.polled(),
            old(self)@.wf(),
            final(self)@.wf(),
    {
        proof {
            use_type_invariant(&*self);
        }
        if self.failure.is_some() {
            if self.in_flight > 0 {
                Action::Wait
            } else {
                Action::Finish { failure: self.failure }
            }
        } else if self.exhausted || self.next > self.last {
            if self.in_flight > 0 {
                Action::Wait
            } else {
                Action::Finish { failure: None }
            }
        } else if self.in_flight < self.limit {
            let index: u32 = self.next;
            if index < self.last {
                self.next = index + 1;
            } else {
                self.exhausted = true;
            }
            self.in_flight = self.in_flight + 1;
            Action::Dispatch { index }
        } else {
            Action::Wait
        }
    }

    /// Takes note that a worker has finished a scan, with `failure` where it
    /// failed. The first failure is the one that the conversion returns.
    pub fn completed(&mut self, failure: Option<MzioError>)
        requires
            old(self)@.in_flight > 0,
        ensures
            final(self)@ == old(self)@.completed(failure),
            old(self)@.wf(),
            final(self)@.wf(),
    {
        proof {
            use_type_invariant(&*self);
        }
        self.in_flight = self.in_flight - 1;
        if self.failure.is_none() {
            self.failure = failure;
        }
    }
}

/// How many of `events` say that a worker has finished.
pub open spec fn completions(events: Seq<Event>) -> nat
    decreases events.len(),
{
    if events.len() == 0 {
        0
    } else {
        completions(events.drop_last()) + (if events.last() is Completed {
            1nat
        } else {
            0nat
        })
    }
}

/// The scans from `first` on, `count` of them.
pub open spec fn scans_from(first: u32, count: nat) -> Seq<u32> {
    Seq::new(count, |j: int| (first + j) as u32)
}

/// How many scans lie between `first` and `last`, both included.
pub open spec fn scan_count(first: u32, last: u32) -> nat {
    if first <= last {
        (last - first + 1) as nat
    } else {
        0
    }
}

/// The dispatcher never waits for nothing: where it says to wait, a scan is
/// at work whose worker will report.
pub proof fn lemma_wait_means_work(state: DispatcherView)
    requires
        state.wf(),
        state.decide() == Action::Wait,
    ensures
        state.in_flight > 0,
{
}

/// Whatever happens, no more scans are at work than the queue holds.
pub proof fn lemma_run_keeps_bound(start: DispatcherView, events: Seq<Event>)
    requires
        start.wf(),
        start.admits(events),
    ensures
        start.run(events).wf(),
        start.run(events).in_flight <= start.limit,
        start.run(events).limit == start.limit,
        start.run(events).last == start.last,
    decreases events.len(),
{
    if events.len() > 0 {
        lemma_run_keeps_bound(start, events.drop_last());
    }
}

/// The scans are scheduled in ascending order from the first one on, each
/// once, whatever the size of the queue and whenever the workers finish;
/// and every scan that was scheduled is at work or was reported as finished.
pub proof fn lemma_dispatch_in_order(first: u32, last: u32, queue_size: usize, events: Seq<Event>)
    requires
        DispatcherView::fresh(first, last, queue_size).admits(events),
    ensures
        ({
            let start = DispatcherView::fresh(first, last, queue_size);
            let count = start.dispatched(events).len();
            &&& count <= scan_count(first, last)
            &&& start.dispatched(events) == scans_from(first, count)
            &&& start.run(events).pending == (if count < scan_count(first, last) {
                Some((first + count) as u32)
            } else {
                None
            })
            &&& start.run(events).in_flight + completions(events) == count
        }),
    decreases events.len(),
{
    let start = DispatcherView::fresh(first, last, queue_size);
    if events.len() == 0 {
        assert(start.dispatched(events) =~= scans_from(first, 0));
    } else {
        let earlier = events.drop_last();
        lemma_dispatch_in_order(first, last, queue_size, earlier);
        lemma_run_keeps_bound(start, earlier);
        let before = start.dispatched(earlier);
        let after = start.dispatched(events);
        assert(after =~= scans_from(first, after.len()));
    }
}

/// A conversion that finishes with success has scheduled every scan of the
/// source once and has seen each of them finished: with a callback that
/// keeps the fragmentation scans, it has kept as many as the source holds,
/// whatever the size of the queue.
pub proof fn lemma_success_covers_source(
    first: u32,
    last: u32,
    queue_size: usize,
    events: Seq<Event>,
    levels: Seq<u8>,
)
    requires
        DispatcherView::fresh(first, last, queue_size).admits(events),
        DispatcherView::fresh(first, last, queue_size).run(events).decide() == (Action::Finish {
            failure: None,
        }),
        levels.len() == scan_count(first, last),
    ensures
        ({
            let start = DispatcherView::fresh(first, last, queue_size);
            let scheduled = start.dispatched(events);
            &&& scheduled == scans_from(first, scan_count(first, last))
            &&& completions(events) == scan_count(first, last)
            &&& count_ms2(Seq::new(scheduled.len(), |j: int| levels[scheduled[j] - first]))
                == count_ms2(levels)
        }),
{
    let start = DispatcherView::fresh(first, last, queue_size);
    let scheduled = start.dispatched(events);
    lemma_dispatch_in_order(first, last, queue_size, events);
    assert(Seq::new(scheduled.len(), |j: int| levels[scheduled[j] - first]) =~= levels);
}

/// Once a worker has failed, no scan is scheduled any more, the failure
/// stays the one that is returned, and until the scans at work have finished
/// the dispatcher waits.
pub proof fn lemma_failure_stops_dispatch(
    start: DispatcherView,
    failure: MzioError,
    events: Seq<Event>,
)
    requires
        start.wf(),
        start.failure == Some(failure),
        start.admits(events),
    ensures
        start.dispatched(events) == Seq::<u32>::empty(),
        start.run(events).failure == Some(failure),
        start.run(events).pending == start.pending,
        start.run(events).in_flight + completions(events) == start.in_flight,
        start.run(events).decide() == (if start.run(events).in_flight > 0 {
            Action::Wait
        } else {
            Action::Finish { failure: Some(failure) }
        }),
    decreases events.len(),
{
    if events.len() > 0 {
        lemma_failure_stops_dispatch(start, failure, events.drop_last());
    }
}

/// The failure that the conversion returns is the first that a worker
/// reported.
pub proof fn lemma_first_failure_is_kept(
    start: DispatcherView,
    first_failure: MzioError,
    later: Option<MzioError>,
)
    requires
        start.failure is None,
    ensures
        start.completed(Some(first_failure)).failure == Some(first_failure),
        start.completed(Some(first_failure)).completed(later).failure == Some(first_failure),
{
}

} // verus!
