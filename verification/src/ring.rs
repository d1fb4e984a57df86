//! The ring's bookkeeping: the tokens that name submissions, the
//! completions heard as signals, and the runner's decisions.
//!
//! Anything that wants to be woken submits under a [`Token`] and hears the
//! completion as an [`IoEvent`]. The runner runs a batch (`Tick`, then
//! [`BeforeWait`]), then waits and runs a batch per round of completions,
//! until a [`Stop`] has been signalled; then it submits once more, so the
//! last batch's requests leave.

use vstd::prelude::*;
use crate::event::Signal;

verus! {

/// Names one submission, so its completion can be recognised.
#[derive(Debug, Clone, Copy, PartialEq, Eq, Structural, Hash)]
pub struct Token(pub u64);

/// One completion, as a signal. `result` is the kernel's: a byte count, a
/// zero, or a negated errno.
#[derive(Debug, Clone, Copy, PartialEq, Eq, Structural)]
pub struct IoEvent {
    pub token: Token,
    pub result: i32,
}

impl Signal for IoEvent {}

/// Asks the runner to return once the current batch is done.
#[derive(Debug, Clone, Copy, PartialEq, Eq, Structural)]
pub struct Stop;

impl Signal for Stop {}

/// The runner is about to block on the ring: `Tick` and everything it
/// chained have run. A module that buffered requests sends them here.
#[derive(Debug, Clone, Copy, PartialEq, Eq, Structural)]
pub struct BeforeWait;

impl Signal for BeforeWait {}

/// Inserts the ring, sized for `entries` submissions, and sets the runner.
#[derive(Debug, Clone, Copy, PartialEq, Eq, Structural)]
pub struct RingModule {
    pub entries: u32,
}

impl Default for RingModule {
    fn default() -> (m: Self)
        ensures
            m.entries == 256,
    {
        RingModule { entries: 256 }
    }
}

/// Hands out the tokens: each one fresh, counting up from one.
#[derive(Debug)]
pub struct Tokens {
    next: u64,
}

impl Tokens {
    /// The token the next submission gets.
    pub closed spec fn next_token(&self) -> u64 {
        self.next
    }

    pub fn new() -> (t: Self)
        ensures
            t.next_token() == 1,
    {
        Tokens { next: 1 }
    }

    /// Whether another token can be handed out.
    pub fn has_next(&self) -> (r: bool)
        ensures
            r == (self.next_token() < u64::MAX),
    {
        self.next < u64::MAX
    }

    /// A fresh token: greater than every token handed out before.
    pub fn issue(&mut self) -> (t: Token)
        requires
            old(self).next_token() < u64::MAX,
        ensures
            t.0 == old(self).next_token(),
            final(self).next_token() == old(self).next_token() + 1,
    {
        let t = Token(self.next);
        self.next = self.next + 1;
        t
    }
}

/// What the runner does next.
#[derive(Debug, Clone, Copy, PartialEq, Eq, Structural)]
pub enum Step {
    /// Block for completions, signal them, and run a batch.
    Wait,
    /// Submit what is queued and return.
    Finish,
}

/// The runner's one piece of state: whether a [`Stop`] has been seen.
#[derive(Debug)]
pub struct Runner {
    stopping: bool,
}

impl Runner {
    pub closed spec fn is_stopping(&self) -> bool {
        self.stopping
    }

    pub fn new() -> (r: Self)
        ensures
            !r.is_stopping(),
    {
        Runner { stopping: false }
    }

    /// A `Stop` was signalled; the batch under way still finishes.
    pub fn stop(&mut self)
        ensures
            final(self).is_stopping(),
    {
        self.stopping = true;
    }

    /// After a batch: wait for more, or finish once stopped.
    pub fn after_batch(&self) -> (s: Step)
        ensures
            s == (if self.is_stopping() { Step::Finish } else { Step::Wait }),
    {
        if self.stopping {
            Step::Finish
        } else {
            Step::Wait
        }
    }
}

} // verus!
