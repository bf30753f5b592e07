//! Admits link checks one at a time, never more in flight than the limit allows.
//!
//! The scheduler decides; whoever runs the checks asks it which check to start next
//! and tells it when one has finished, in whatever order they finish.
use crate::CONCURRENCY_LIMIT;
use vstd::prelude::*;

verus! {

/// The state of a run of `total` checks, numbered from 0.
pub struct Scheduler {
    total: usize,
    started: usize,
    finished: usize,
}

/// What a scheduler has counted so far.
pub struct SchedulerView {
    pub total: nat,
    pub started: nat,
    pub finished: nat,
}

impl SchedulerView {
    /// How many checks have started and not yet finished.
    pub open spec fn in_flight(self) -> int {
        self.started - self.finished
    }

    /// The counts agree with each other and the limit holds.
    pub open spec fn wf(self) -> bool {
        &&& self.finished <= self.started <= self.total
        &&& self.in_flight() <= CONCURRENCY_LIMIT
    }

    /// Another check may start: one is waiting and a slot is free.
    pub open spec fn can_start(self) -> bool {
        self.started < self.total && self.in_flight() < CONCURRENCY_LIMIT
    }
}

/// What a scheduler is told or asked.
pub enum Event {
    /// Asked for a check to start.
    Start,
    /// Told that a check in flight has finished.
    Finish,
}

/// The counts of a run of `total` checks before any has started.
pub open spec fn fresh(total: nat) -> SchedulerView {
    SchedulerView { total, started: 0, finished: 0 }
}

/// The counts after event `e`: a start is admitted only if a check is waiting and a
/// slot is free, a finish only if a check is in flight.
pub open spec fn next(s: SchedulerView, e: Event) -> SchedulerView {
    match e {
        Event::Start => if s.can_start() {
            SchedulerView { started: s.started + 1, ..s }
        } else {
            s
        },
        Event::Finish => if s.in_flight() > 0 {
            SchedulerView { finished: s.finished + 1, ..s }
        } else {
            s
        },
    }
}

/// The counts after the events `es`, in order, starting from `s`.
pub open spec fn replay(s: SchedulerView, es: Seq<Event>) -> SchedulerView
    decreases es.len(),
{
    if es.len() == 0 {
        s
    } else {
        next(replay(s, es.drop_last()), es.last())
    }
}

impl View for Scheduler {
    type V = SchedulerView;

    closed spec fn view(&self) -> SchedulerView {
        SchedulerView { total: self.total as nat, started: self.started as nat, finished: self.finished as nat }
    }
}

impl Scheduler {
    /// A run of `total` checks, none of them started.
    pub fn new(total: usize) -> (r: Scheduler)
        ensures
            r@ == fresh(total as nat),
            r@.wf(),
    {
        Scheduler { total, started: 0, finished: 0 }
    }

    /// The number of the check to start now, if one is waiting and a slot is free;
    /// checks start in the order of their numbers.
    pub fn start_next(&mut self) -> (r: Option<usize>)
        requires
            old(self)@.wf(),
        ensures
            final(self)@.wf(),
            final(self)@ == next(old(self)@, Event::Start),
            old(self)@.can_start() ==> r == Some(old(self)@.started as usize),
            !old(self)@.can_start() ==> r is None,
    {
        if self.started < self.total && self.started - self.finished < CONCURRENCY_LIMIT {
            let n = self.started;
            self.started = self.started + 1;
            Some(n)
        } else {
            None
        }
    }

    /// Records that one of the checks in flight has finished, which frees its slot.
    pub fn finish_one(&mut self)
        requires
            old(self)@.wf(),
            old(self)@.in_flight() > 0,
        ensures
            final(self)@.wf(),
            final(self)@ == next(old(self)@, Event::Finish),
    {
        self.finished = self.finished + 1;
    }

    /// How many checks are in flight.
    pub fn in_flight(&self) -> (r: usize)
        requires
            self@.wf(),
        ensures
            r == self@.in_flight(),
    {
        self.started - self.finished
    }

    /// Whether every check has finished.
    pub fn is_done(&self) -> (r: bool)
        requires
            self@.wf(),
        ensures
            r == (self@.finished == self@.total),
    {
        self.finished == self.total
    }
}

proof fn lemma_next_wf(s: SchedulerView, e: Event)
    requires
        s.wf(),
    ensures
        next(s, e).wf(),
        next(s, e).total == s.total,
{
}

/// Whatever the events and their order, a run of `total` checks never has more
/// checks in flight than the limit allows; and a check that waits, waits only while
/// every slot is taken.
pub proof fn lemma_in_flight_bounded(total: nat, es: Seq<Event>)
    ensures
        replay(fresh(total), es).wf(),
        0 <= replay(fresh(total), es).in_flight() <= CONCURRENCY_LIMIT,
        ({
            let s = replay(fresh(total), es);
            s.started < s.total && !s.can_start() ==> s.in_flight() == CONCURRENCY_LIMIT
        }),
    decreases es.len(),
{
    if es.len() > 0 {
        lemma_in_flight_bounded(total, es.drop_last());
        lemma_next_wf(replay(fresh(total), es.drop_last()), es.last());
    }
}

} // verus!
