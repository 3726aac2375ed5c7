//! Bounded concurrency, as bookkeeping.
//!
//! A stage has a fixed number of work items, numbered from zero, and a bound
//! on how many may run at once. The scheduler says what to do next: start
//! the next item, wait for a running one, or stop. It starts nothing once an
//! item has failed, lets running items finish, and reports success only when
//! every item has succeeded. The caller does the work and reports back.
//!
//! A bound of zero lets nothing start: a stage that has items then stops at
//! once, without success.

use vstd::prelude::*;

verus! {

/// What the caller of a [`Scheduler`] does next.
#[derive(Debug, Clone, Copy, PartialEq, Eq, Structural)]
pub enum Directive {
    /// Start the item with this number.
    Start(usize),
    /// Wait until a running item ends and report how it ended.
    Wait,
    /// Stop. The flag tells whether every item succeeded.
    Finished(bool),
}

/// The state of a stage, as numbers.
pub struct Progress {
    /// The number of items.
    pub total: nat,
    /// The greatest number of items that may run at once.
    pub limit: nat,
    /// How many items have been started.
    pub started: nat,
    /// How many items have ended in success.
    pub succeeded: nat,
    /// How many items have ended in failure.
    pub failed: nat,
}

impl Progress {
    /// The number of items that run.
    pub open spec fn in_flight(self) -> int {
        self.started - self.succeeded - self.failed
    }

    /// The invariant of a stage: nothing ends before it starts, nothing
    /// starts beyond the last item, and no more run than the bound allows.
    /// Item numbers fit a machine word.
    pub open spec fn wf(self) -> bool {
        &&& self.total <= usize::MAX
        &&& self.started <= self.total
        &&& self.succeeded + self.failed <= self.started
        &&& self.in_flight() <= self.limit
    }

    /// Whether another item may be started now.
    pub open spec fn may_start(self) -> bool {
        self.failed == 0 && self.started < self.total && self.in_flight() < self.limit
    }

    /// What to do in this state.
    pub open spec fn directive(self) -> Directive {
        if self.may_start() {
            Directive::Start(self.started as usize)
        } else if self.in_flight() > 0 {
            Directive::Wait
        } else {
            Directive::Finished(self.succeeded == self.total)
        }
    }

    /// The state once the directive has been handed out.
    pub open spec fn polled(self) -> Progress {
        if self.may_start() {
            Progress { started: self.started + 1, ..self }
        } else {
            self
        }
    }

    /// The state once a running item has ended.
    pub open spec fn completed(self, success: bool) -> Progress {
        if self.in_flight() <= 0 {
            self
        } else if success {
            Progress { succeeded: self.succeeded + 1, ..self }
        } else {
            Progress { failed: self.failed + 1, ..self }
        }
    }

    /// A fresh stage.
    pub open spec fn fresh(total: nat, limit: nat) -> Progress {
        Progress { total, limit, started: 0, succeeded: 0, failed: 0 }
    }
}

/// Handing out a directive keeps the invariant, and so does the end of an
/// item: at no time do more items run than the bound allows.
pub proof fn lemma_bound_is_kept(p: Progress, success: bool)
    requires
        p.wf(),
    ensures
        p.polled().wf(),
        p.completed(success).wf(),
        p.polled().in_flight() <= p.limit,
        p.completed(success).in_flight() <= p.limit,
{
}

/// Once an item has failed, no further item is started, now or later.
pub proof fn lemma_failure_stops_scheduling(p: Progress, success: bool)
    requires
        p.failed > 0,
    ensures
        !(p.directive() is Start),
        p.polled() == p,
        p.completed(success).failed > 0,
{
}

/// Success is reported only when every item has been started and has ended
/// in success; a stage with a failed item never ends in success.
pub proof fn lemma_success_is_complete(p: Progress)
    requires
        p.wf(),
        p.directive() == Directive::Finished(true),
    ensures
        p.started == p.total,
        p.succeeded == p.total,
        p.failed == 0,
{
}

/// The count of successes moves by one for each item that ends in success,
/// and by nothing else.
pub proof fn lemma_progress_counts_successes(p: Progress, success: bool)
    ensures
        p.polled().succeeded == p.succeeded,
        p.completed(success).succeeded == p.succeeded + if success && p.in_flight() > 0 {
            1nat
        } else {
            0nat
        },
{
}

/// A caller told to wait has a running item to wait for, and a caller told
/// to stop has none.
pub proof fn lemma_wait_has_company(p: Progress)
    requires
        p.wf(),
    ensures
        p.directive() == Directive::Wait ==> p.in_flight() > 0,
        p.directive() is Finished ==> p.in_flight() == 0,
        p.directive() matches Directive::Start(i) ==> i == p.started && p.started < p.total,
{
}

/// The bookkeeping of one stage.
pub struct Scheduler {
    total: usize,
    limit: usize,
    started: usize,
    succeeded: usize,
    failed: usize,
}

impl View for Scheduler {
    type V = Progress;

    closed spec fn view(&self) -> Progress {
        Progress {
            total: self.total as nat,
            limit: self.limit as nat,
            started: self.started as nat,
            succeeded: self.succeeded as nat,
            failed: self.failed as nat,
        }
    }
}

impl Scheduler {
    #[verifier::type_invariant]
    spec fn inv(self) -> bool {
        self@.wf()
    }

    /// A stage of `total` items of which at most `limit` run at once.
    pub fn new(total: usize, limit: usize) -> (s: Scheduler)
        ensures
            s@ == Progress::fresh(total as nat, limit as nat),
            s@.wf(),
    {
        Scheduler { total, limit, started: 0, succeeded: 0, failed: 0 }
    }

    /// Says what to do next. After `Start(i)` the item `i` counts as
    /// running.
    pub fn poll(&mut self) -> (d: Directive)
        ensures
            old(self)@.wf(),
            d == old(self)@.directive(),
            final(self)@ == old(self)@.polled(),
            final(self)@.wf(),
    {
        proof {
            use_type_invariant(&*self);
        }
        let running = self.started - self.succeeded - self.failed;
        if self.failed == 0 && self.started < self.total && running < self.limit {
            let item = self.started;
            self.started = item + 1;
            Directive::Start(item)
        } else if running > 0 {
            Directive::Wait
        } else {
            Directive::Finished(self.succeeded == self.total)
        }
    }

    /// Records that a running item has ended. Returns `false`, and records
    /// nothing, where no item runs.
    pub fn complete(&mut self, success: bool) -> (accepted: bool)
        ensures
            old(self)@.wf(),
            accepted == (old(self)@.in_flight() > 0),
            final(self)@ == old(self)@.completed(success),
            final(self)@.wf(),
    {
        proof {
            use_type_invariant(&*self);
        }
        if self.started - self.succeeded - self.failed == 0 {
            return false;
        }
        if success {
            self.succeeded = self.succeeded + 1;
        } else {
            self.failed = self.failed + 1;
        }
        true
    }

    /// The number of items that have ended in success.
    pub fn succeeded(&self) -> (n: usize)
        ensures
            n == self@.succeeded,
    {
        self.succeeded
    }

    /// The number of items.
    pub fn total(&self) -> (n: usize)
        ensures
            n == self@.total,
    {
        self.total
    }

    /// Whether an item has failed.
    pub fn has_failed(&self) -> (b: bool)
        ensures
            b == (self@.failed > 0),
    {
        self.failed > 0
    }
}

} // verus!
