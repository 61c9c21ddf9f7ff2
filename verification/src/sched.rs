//! Fetch scheduler: dispatches segment fetches in ordinal order with at
//! most `k` in flight, records each unit's terminal result, and surfaces
//! the first failure after every dispatched unit has settled.
//!
//! The scheduler is the decision half of the fetch loop: callers perform
//! the fetches and writes and hand the outcomes back as events.

use vstd::prelude::*;
use vstd::pervasive::VecAdditionalExecFns;

use crate::progress::Progress;

verus! {

/// Why one fetch unit failed: the HTTP fetch (a non-2xx status or a
/// network-level fault), the write of the artifact, or the per-request
/// deadline.
#[derive(Clone, Copy, Debug, PartialEq, Eq, Structural)]
pub enum FailureKind {
    Fetch,
    Write,
    Timeout,
}

/// The terminal result of one fetch unit.
#[derive(Clone, Copy, Debug, PartialEq, Eq, Structural)]
pub enum UnitOutcome {
    Success,
    Failure(FailureKind),
}

/// Where one unit stands: not yet dispatched, dispatched and not settled,
/// or settled with its outcome.
#[derive(Clone, Copy, Debug, PartialEq, Eq, Structural)]
pub enum UnitState {
    Pending,
    InFlight,
    Done(UnitOutcome),
}

/// The first failure of a run: the ordinal whose unit failed first (in
/// settlement order) and why.
#[derive(Clone, Copy, Debug, PartialEq, Eq, Structural)]
pub struct SegmentFailure {
    pub ordinal: usize,
    pub kind: FailureKind,
}

/// How many elements of `s` satisfy `p`.
pub open spec fn count_matching<T>(s: Seq<T>, p: spec_fn(T) -> bool) -> int
    decreases s.len(),
{
    if s.len() == 0 {
        0
    } else {
        count_matching(s.drop_last(), p) + if p(s.last()) {
            1int
        } else {
            0int
        }
    }
}

pub proof fn lemma_count_bounds<T>(s: Seq<T>, p: spec_fn(T) -> bool)
    ensures
        0 <= count_matching(s, p) <= s.len(),
    decreases s.len(),
{
    if s.len() > 0 {
        lemma_count_bounds(s.drop_last(), p);
    }
}

pub proof fn lemma_count_push<T>(s: Seq<T>, p: spec_fn(T) -> bool, x: T)
    ensures
        count_matching(s.push(x), p) == count_matching(s, p) + if p(x) {
            1int
        } else {
            0int
        },
{
    assert(s.push(x).drop_last() =~= s);
}

pub proof fn lemma_count_update<T>(s: Seq<T>, p: spec_fn(T) -> bool, i: int, x: T)
    requires
        0 <= i < s.len(),
    ensures
        count_matching(s.update(i, x), p) == count_matching(s, p) - (if p(s[i]) {
            1int
        } else {
            0int
        }) + (if p(x) {
            1int
        } else {
            0int
        }),
    decreases s.len(),
{
    if i == s.len() - 1 {
        assert(s.update(i, x).drop_last() =~= s.drop_last());
        assert(s.update(i, x).last() == x);
    } else {
        assert(s.update(i, x).drop_last() =~= s.drop_last().update(i, x));
        assert(s.update(i, x).last() == s.last());
        lemma_count_update(s.drop_last(), p, i, x);
    }
}

/// An element satisfying `p` makes the count positive.
pub proof fn lemma_count_pos<T>(s: Seq<T>, p: spec_fn(T) -> bool, i: int)
    requires
        0 <= i < s.len(),
        p(s[i]),
    ensures
        count_matching(s, p) >= 1,
    decreases s.len(),
{
    lemma_count_bounds(s.drop_last(), p);
    if i < s.len() - 1 {
        assert(s.drop_last()[i] == s[i]);
        lemma_count_pos(s.drop_last(), p, i);
    }
}

/// A pointwise-weaker predicate counts no fewer elements.
pub proof fn lemma_count_mono<T>(s: Seq<T>, p: spec_fn(T) -> bool, q: spec_fn(T) -> bool)
    requires
        forall|i: int| 0 <= i < s.len() && p(#[trigger] s[i]) ==> q(s[i]),
    ensures
        count_matching(s, p) <= count_matching(s, q),
    decreases s.len(),
{
    if s.len() > 0 {
        assert forall|i: int|
            0 <= i < s.drop_last().len() && p(#[trigger] s.drop_last()[i]) implies q(
            s.drop_last()[i],
        ) by {
            assert(s.drop_last()[i] == s[i]);
        }
        lemma_count_mono(s.drop_last(), p, q);
        assert(s.last() == s[s.len() - 1]);
    }
}

/// If every element counted, all elements satisfy `p`.
pub proof fn lemma_count_all<T>(s: Seq<T>, p: spec_fn(T) -> bool)
    requires
        count_matching(s, p) == s.len(),
    ensures
        forall|i: int| 0 <= i < s.len() ==> p(#[trigger] s[i]),
    decreases s.len(),
{
    if s.len() > 0 {
        lemma_count_bounds(s.drop_last(), p);
        lemma_count_all(s.drop_last(), p);
        assert forall|i: int| 0 <= i < s.len() implies p(#[trigger] s[i]) by {
            if i < s.len() - 1 {
                assert(s.drop_last()[i] == s[i]);
            }
        }
    }
}

pub open spec fn is_in_flight(u: UnitState) -> bool {
    u is InFlight
}

pub open spec fn is_settled(u: UnitState) -> bool {
    u is Done
}

pub open spec fn is_success(u: UnitState) -> bool {
    u == UnitState::Done(UnitOutcome::Success)
}

/// The scheduler's state over `units.len()` fetch units: `next` is the
/// lowest undispatched ordinal, the counters cache how many units are in
/// flight, settled and successful, and `first_failure` holds the first
/// failure event of the run, if any.
pub struct Scheduler {
    pub units: Vec<UnitState>,
    pub k: usize,
    pub next: usize,
    pub in_flight: usize,
    pub settled: usize,
    pub succeeded: usize,
    pub first_failure: Option<SegmentFailure>,
}

impl Scheduler {
    pub open spec fn n(self) -> int {
        self.units@.len() as int
    }

    /// The reachable states: dispatch happens in ordinal order (pending
    /// ordinals form a suffix), the counters agree with the unit states,
    /// and at most `k` units are in flight.
    pub open spec fn wf(self) -> bool {
        &&& self.k >= 1
        &&& self.next <= self.n()
        &&& (forall|i: int| 0 <= i < self.n() ==> ((self.units@[i] is Pending) <==> i >= self.next))
        &&& self.in_flight == count_matching(self.units@, |u: UnitState| is_in_flight(u))
        &&& self.settled == count_matching(self.units@, |u: UnitState| is_settled(u))
        &&& self.succeeded == count_matching(self.units@, |u: UnitState| is_success(u))
        &&& self.in_flight <= self.k
        &&& self.in_flight == self.next - self.settled
        &&& (self.first_failure matches Some(f) ==> 0 <= f.ordinal < self.n() && self.units@[
            f.ordinal as int] == UnitState::Done(UnitOutcome::Failure(f.kind)))
        &&& ((self.first_failure is None) <==> self.succeeded == self.settled)
    }

    /// A fresh scheduler for `n` units with concurrency bound `k`.
    pub fn new(n: usize, k: usize) -> (r: Scheduler)
        requires
            k >= 1,
        ensures
            r.wf(),
            r.n() == n,
            r.k == k,
            r.next == 0,
            r.in_flight == 0,
            r.settled == 0,
            r.succeeded == 0,
            r.first_failure is None,
    {
        let mut units: Vec<UnitState> = Vec::new();
        let mut i: usize = 0;
        proof {
            assert(count_matching(units@, |u: UnitState| is_in_flight(u)) == 0);
            assert(count_matching(units@, |u: UnitState| is_settled(u)) == 0);
            assert(count_matching(units@, |u: UnitState| is_success(u)) == 0);
        }
        while i < n
            invariant
                i <= n,
                units@.len() == i,
                forall|j: int| 0 <= j < i ==> (#[trigger] units@[j]) is Pending,
                count_matching(units@, |u: UnitState| is_in_flight(u)) == 0,
                count_matching(units@, |u: UnitState| is_settled(u)) == 0,
                count_matching(units@, |u: UnitState| is_success(u)) == 0,
            decreases n - i,
        {
            proof {
                lemma_count_push(units@, |u: UnitState| is_in_flight(u), UnitState::Pending);
                lemma_count_push(units@, |u: UnitState| is_settled(u), UnitState::Pending);
                lemma_count_push(units@, |u: UnitState| is_success(u), UnitState::Pending);
            }
            units.push(UnitState::Pending);
            i = i + 1;
        }
        Scheduler { units, k, next: 0, in_flight: 0, settled: 0, succeeded: 0, first_failure: None }
    }

    /// Whether a further unit may be dispatched now: one is pending and a
    /// slot is free.
    pub fn can_dispatch(&self) -> (r: bool)
        ensures
            r == (self.next < self.n() && self.in_flight < self.k),
    {
        self.next < self.units.len() && self.in_flight < self.k
    }

    /// Dispatch the next pending unit; its ordinal is returned and the
    /// unit is in flight. Dispatch follows ordinal order and never exceeds
    /// the bound `k`.
    pub fn dispatch(&mut self) -> (ordinal: usize)
        requires
            old(self).wf(),
            old(self).next < old(self).n(),
            old(self).in_flight < old(self).k,
        ensures
            final(self).wf(),
            ordinal == old(self).next,
            final(self).n() == old(self).n(),
            final(self).k == old(self).k,
            final(self).next == old(self).next + 1,
            final(self).in_flight == old(self).in_flight + 1,
            final(self).settled == old(self).settled,
            final(self).succeeded == old(self).succeeded,
            final(self).first_failure == old(self).first_failure,
            final(self).units@ == old(self).units@.update(
                ordinal as int,
                UnitState::InFlight,
            ),
    {
        let ordinal = self.next;
        let n = self.units.len();
        proof {
            assert(ordinal < n);
            assert(self.units@[ordinal as int] is Pending);
            lemma_count_update(
                self.units@,
                |u: UnitState| is_in_flight(u),
                ordinal as int,
                UnitState::InFlight,
            );
            lemma_count_update(
                self.units@,
                |u: UnitState| is_settled(u),
                ordinal as int,
                UnitState::InFlight,
            );
            lemma_count_update(
                self.units@,
                |u: UnitState| is_success(u),
                ordinal as int,
                UnitState::InFlight,
            );
        }
        self.units.set(ordinal, UnitState::InFlight);
        self.next = self.next + 1;
        self.in_flight = self.in_flight + 1;
        ordinal
    }

    /// Settle the in-flight unit `ordinal` with its outcome: it is done,
    /// its slot is free, and a failure is recorded as the run's first
    /// failure if no earlier unit failed.
    pub fn settle(&mut self, ordinal: usize, outcome: UnitOutcome)
        requires
            old(self).wf(),
            0 <= ordinal < old(self).n(),
            old(self).units@[ordinal as int] is InFlight,
        ensures
            final(self).wf(),
            final(self).n() == old(self).n(),
            final(self).k == old(self).k,
            final(self).next == old(self).next,
            final(self).in_flight == old(self).in_flight - 1,
            final(self).settled == old(self).settled + 1,
            final(self).succeeded == old(self).succeeded + (if outcome == UnitOutcome::Success {
                1int
            } else {
                0int
            }),
            final(self).units@ == old(self).units@.update(
                ordinal as int,
                UnitState::Done(outcome),
            ),
            final(self).first_failure == (match (old(self).first_failure, outcome) {
                (Some(f), _) => Some(f),
                (None, UnitOutcome::Failure(kind)) => Some(SegmentFailure { ordinal, kind }),
                (None, UnitOutcome::Success) => None::<SegmentFailure>,
            }),
    {
        let n = self.units.len();
        proof {
            lemma_count_pos(self.units@, |u: UnitState| is_in_flight(u), ordinal as int);
            lemma_count_mono(
                self.units@,
                |u: UnitState| is_success(u),
                |u: UnitState| is_settled(u),
            );
            lemma_count_bounds(
                self.units@.update(ordinal as int, UnitState::Done(outcome)),
                |u: UnitState| is_settled(u),
            );
            lemma_count_bounds(
                self.units@.update(ordinal as int, UnitState::Done(outcome)),
                |u: UnitState| is_success(u),
            );
            lemma_count_update(
                self.units@,
                |u: UnitState| is_in_flight(u),
                ordinal as int,
                UnitState::Done(outcome),
            );
            lemma_count_update(
                self.units@,
                |u: UnitState| is_settled(u),
                ordinal as int,
                UnitState::Done(outcome),
            );
            lemma_count_update(
                self.units@,
                |u: UnitState| is_success(u),
                ordinal as int,
                UnitState::Done(outcome),
            );
            lemma_count_bounds(self.units@, |u: UnitState| is_settled(u));
        }
        self.units.set(ordinal, UnitState::Done(outcome));
        self.in_flight = self.in_flight - 1;
        self.settled = self.settled + 1;
        match outcome {
            UnitOutcome::Success => {
                self.succeeded = self.succeeded + 1;
            },
            UnitOutcome::Failure(kind) => {
                if self.first_failure.is_none() {
                    self.first_failure = Some(SegmentFailure { ordinal, kind });
                }
            },
        }
    }

    /// Whether every unit has settled.
    pub fn is_done(&self) -> (r: bool)
        requires
            self.wf(),
        ensures
            r == (self.settled == self.n()),
    {
        self.settled == self.units.len()
    }

    /// The run's result once every unit has settled: success exactly when
    /// every unit succeeded, else the first failure of the run.
    pub fn result(&self) -> (r: Result<(), SegmentFailure>)
        requires
            self.wf(),
            self.settled == self.n(),
        ensures
            (r is Ok) <==> self.succeeded == self.n(),
            (r is Ok) <==> (forall|i: int|
                0 <= i < self.n() ==> is_success(#[trigger] self.units@[i])),
            r matches Err(f) ==> self.first_failure == Some(f) && self.units@[f.ordinal as int]
                == UnitState::Done(UnitOutcome::Failure(f.kind)),
    {
        proof {
            if self.succeeded == self.n() {
                lemma_count_all(self.units@, |u: UnitState| is_success(u));
            }
            if (forall|i: int| 0 <= i < self.n() ==> is_success(#[trigger] self.units@[i])) {
                lemma_count_all_success(self.units@);
            }
        }
        match self.first_failure {
            None => Ok(()),
            Some(f) => Err(f),
        }
    }
}

/// A unit vector of successes only counts every element as a success.
proof fn lemma_count_all_success(s: Seq<UnitState>)
    requires
        forall|i: int| 0 <= i < s.len() ==> is_success(#[trigger] s[i]),
    ensures
        count_matching(s, |u: UnitState| is_success(u)) == s.len(),
    decreases s.len(),
{
    if s.len() > 0 {
        assert forall|i: int| 0 <= i < s.drop_last().len() implies is_success(
            #[trigger] s.drop_last()[i],
        ) by {
            assert(s.drop_last()[i] == s[i]);
        }
        lemma_count_all_success(s.drop_last());
    }
}

/// In every reachable scheduler state, at most `k` fetches are in flight.
pub proof fn lemma_in_flight_bounded(s: Scheduler)
    requires
        s.wf(),
    ensures
        count_matching(s.units@, |u: UnitState| is_in_flight(u)) <= s.k,
{
}

/// Drive a schedule of `n` units with bound `k` against the given
/// outcomes, settling units in ordinal order and counting each success on
/// the reporter. The result is success exactly when every unit succeeded;
/// otherwise it names the first failed ordinal; in either case the
/// reporter's completed count equals the number of successful units.
pub fn run_schedule(n: usize, k: usize, outcomes: &Vec<UnitOutcome>, reporter: &mut Progress) -> (r:
    Result<(), SegmentFailure>)
    requires
        k >= 1,
        outcomes@.len() == n,
        old(reporter).wf(),
        old(reporter).spec_total() == n,
        old(reporter).spec_completed() == 0,
    ensures
        final(reporter).wf(),
        final(reporter).spec_total() == n,
        final(reporter).spec_completed() == count_matching(
            outcomes@,
            |o: UnitOutcome| o == UnitOutcome::Success,
        ),
        (r is Ok) <==> (forall|i: int|
            0 <= i < n ==> #[trigger] outcomes@[i] == UnitOutcome::Success),
        r matches Err(f) ==> 0 <= f.ordinal < n && outcomes@[f.ordinal as int]
            == UnitOutcome::Failure(f.kind) && (forall|i: int|
            0 <= i < f.ordinal ==> #[trigger] outcomes@[i] == UnitOutcome::Success),
{
    let mut sched = Scheduler::new(n, k);
    proof {
        assert(outcomes@.take(0) =~= Seq::<UnitOutcome>::empty());
    }
    while sched.settled < n
        invariant
            sched.wf(),
            sched.n() == n,
            sched.k == k,
            outcomes@.len() == n,
            sched.in_flight == 0,
            sched.next == sched.settled,
            forall|i: int|
                0 <= i < sched.settled ==> #[trigger] sched.units@[i] == UnitState::Done(
                    outcomes@[i],
                ),
            reporter.wf(),
            reporter.spec_total() == n,
            reporter.spec_completed() == sched.succeeded,
            sched.succeeded == count_matching(
                outcomes@.take(sched.settled as int),
                |o: UnitOutcome| o == UnitOutcome::Success,
            ),
            sched.first_failure matches Some(f) ==> 0 <= f.ordinal < sched.settled && outcomes@[
                f.ordinal as int] == UnitOutcome::Failure(f.kind) && (forall|i: int|
                0 <= i < f.ordinal ==> #[trigger] outcomes@[i] == UnitOutcome::Success),
            sched.first_failure is None ==> (forall|i: int|
                0 <= i < sched.settled ==> #[trigger] outcomes@[i] == UnitOutcome::Success),
        decreases n - sched.settled,
    {
        let ord = sched.dispatch();
        let outcome = outcomes[ord];
        let ghost pre = sched.units@;
        sched.settle(ord, outcome);
        proof {
            lemma_count_bounds(
                outcomes@.take(ord as int),
                |o: UnitOutcome| o == UnitOutcome::Success,
            );
        }
        if outcome == UnitOutcome::Success {
            reporter.inc();
        }
        proof {
            lemma_count_push(
                outcomes@.take(ord as int),
                |o: UnitOutcome| o == UnitOutcome::Success,
                outcomes@[ord as int],
            );
            assert(outcomes@.take(ord as int).push(outcomes@[ord as int]) =~= outcomes@.take(
                ord + 1,
            ));
        }
    }
    proof {
        assert(outcomes@.take(n as int) =~= outcomes@);
    }
    proof {
        assert forall|i: int| 0 <= i < n implies (is_success(#[trigger] sched.units@[i]) == (
        outcomes@[i] == UnitOutcome::Success)) by {
            assert(sched.units@[i] == UnitState::Done(outcomes@[i]));
        }
    }
    sched.result()
}

} // verus!
