//! The marker traits of the runtime and its built-in messages.
//!
//! - A [`Signal`] is app-level: it goes to every *system* registered for
//!   its type.
//! - An [`Event`] is node-level: it goes to the *handlers* of the nodes it
//!   is emitted at.
//!
//! Both are markers. Any type can be one, or both.

use std::collections::VecDeque;
use vstd::prelude::*;

verus! {

/// Marks a type as storable in a tree. The runtime never calls anything on
/// a widget.
pub trait Widget {}

/// An app-level message consumed by systems.
pub trait Signal {}

/// A node-level message consumed by handlers.
pub trait Event {}

/// The built-in signal a runner sends once per loop iteration.
#[derive(Debug, Clone, Copy, PartialEq, Eq, Structural)]
pub struct Tick;

impl Signal for Tick {}

/// The two queues of pending work: node-level events and app-level
/// signals, each first in, first out. Nothing runs where it is queued; a
/// flush drains them, events first.
#[derive(Debug)]
pub struct Queues<J> {
    events: VecDeque<J>,
    signals: VecDeque<J>,
}

/// What runs next: the oldest event if any is pending, else the oldest
/// signal, else nothing.
pub open spec fn next_job<J>(events: Seq<J>, signals: Seq<J>) -> Option<J> {
    if events.len() > 0 {
        Some(events[0])
    } else if signals.len() > 0 {
        Some(signals[0])
    } else {
        None
    }
}

impl<J> Queues<J> {
    pub closed spec fn events_view(&self) -> Seq<J> {
        self.events@
    }

    pub closed spec fn signals_view(&self) -> Seq<J> {
        self.signals@
    }

    /// Both queues empty.
    pub fn new() -> (q: Self)
        ensures
            q.events_view() == Seq::<J>::empty(),
            q.signals_view() == Seq::<J>::empty(),
    {
        Queues { events: VecDeque::new(), signals: VecDeque::new() }
    }

    /// Queue an event's dispatch, behind every event already pending.
    pub fn push_event(&mut self, job: J)
        ensures
            final(self).events_view() == old(self).events_view().push(job),
            final(self).signals_view() == old(self).signals_view(),
    {
        self.events.push_back(job);
    }

    /// Queue a signal's dispatch, behind every signal already pending.
    pub fn push_signal(&mut self, job: J)
        ensures
            final(self).signals_view() == old(self).signals_view().push(job),
            final(self).events_view() == old(self).events_view(),
    {
        self.signals.push_back(job);
    }

    /// Take what runs next. Events take priority: a signal is taken only
    /// when no event is pending. `None` once both queues are empty.
    pub fn next(&mut self) -> (j: Option<J>)
        ensures
            j == next_job(old(self).events_view(), old(self).signals_view()),
            old(self).events_view().len() > 0 ==> final(self).events_view() == old(self).events_view().drop_first()
                && final(self).signals_view() == old(self).signals_view(),
            old(self).events_view().len() == 0 ==> final(self).events_view() == old(self).events_view()
                && final(self).signals_view() == (if old(self).signals_view().len() > 0 {
                    old(self).signals_view().drop_first()
                } else {
                    old(self).signals_view()
                }),
    {
        match self.events.pop_front() {
            Some(job) => Some(job),
            None => self.signals.pop_front(),
        }
    }

    /// Whether nothing is pending.
    pub fn is_empty(&self) -> (r: bool)
        ensures
            r == (self.events_view().len() == 0 && self.signals_view().len() == 0),
    {
        self.events.len() == 0 && self.signals.len() == 0
    }
}

/// A signal never overtakes an event: while any event is pending, what runs
/// next is the oldest event, and the signals wait untouched.
pub proof fn lemma_events_before_signals<J>(events: Seq<J>, signals: Seq<J>)
    requires
        events.len() > 0,
    ensures
        next_job(events, signals) == Some(events[0]),
{
}

} // verus!
