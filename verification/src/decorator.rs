//! Decorators: nodes that wrap exactly one child and transform its result.
//!
//! Each transformation is stated as a spec function over [`Status`], applied
//! by the decorator that carries it; the laws the transformations obey stand
//! as proof functions beside them. A decorator holds no per-subject state, so
//! one instance that carries a counter ([`Retry`]) must not be shared by
//! several concurrently running subjects.

use vstd::prelude::*;

use crate::behaviour::Behaviour;
use crate::behaviour::Condition;
use crate::behaviour::IntoBehaviour;
use crate::behaviour::SelfMarker;
use crate::behaviour::Status;
use crate::behaviour::TodoBehaviour;

verus! {

/// How [`Invert`] transforms its child's status: success and failure swap,
/// `Running` passes through unchanged.
pub open spec fn invert_status(status: Status) -> Status {
    match status {
        Status::Failure => Status::Success,
        Status::Success => Status::Failure,
        Status::Running => Status::Running,
    }
}

/// Inverting succeeds exactly when the child failed, fails exactly when the
/// child succeeded, and reports a still-running child unchanged.
pub proof fn lemma_invert_swaps(status: Status)
    ensures
        invert_status(status) == Status::Success <==> status == Status::Failure,
        invert_status(status) == Status::Failure <==> status == Status::Success,
        status == Status::Running ==> invert_status(status) == Status::Running,
{
}

/// Inverts the output of its child.
///
/// **Succeeds** when the underlying behaviour fails.
/// **Fails** when the underlying behaviour succeeds.
#[derive(Clone)]
pub struct Invert<T>(pub T);

impl<Ctx, T: Behaviour<Ctx>> Behaviour<Ctx> for Invert<T> {
    fn initialize(&mut self, ctx: &mut Ctx) {
        self.0.initialize(ctx);
    }

    fn run(&mut self, subject: u64, ctx: &mut Ctx) -> (status: Status)
        ensures
            exists|child: Status| status == invert_status(child),
    {
        let child = self.0.run(subject, ctx);
        let status = match child {
            Status::Failure => Status::Success,
            Status::Success => Status::Failure,
            Status::Running => Status::Running,
        };
        proof {
            assert(status == invert_status(child));
        }
        status
    }
}

impl<T> IntoBehaviour<SelfMarker> for Invert<T> {
    type Out = Invert<T>;

    fn into_behaviour(self) -> (out: Invert<T>)
        ensures
            out == self,
    {
        self
    }
}

/// What a guarding decorator answers: the child's own status when the
/// condition held, the configured short-circuit status when it did not.
pub open spec fn run_if_result(cond: bool, short_circuit: Status, child: Status) -> Status {
    if cond {
        child
    } else {
        short_circuit
    }
}

/// When the condition is false the decorator answers exactly the configured
/// short-circuit status, whatever status the child could have produced had it
/// been consulted; when the condition is true the child's status passes
/// through unchanged.
pub proof fn lemma_run_if_short_circuit(short_circuit: Status, child: Status)
    ensures
        run_if_result(false, short_circuit, child) == short_circuit,
        run_if_result(true, short_circuit, child) == child,
{
}

/// Only runs the underlying behaviour if the condition returns true;
/// otherwise answers `short_circuit` without touching the child.
///
/// **Succeeds** if the condition is false and `short_circuit` is
/// `Status::Success` (the default made by [`Decorator::run_if`]).
/// **Succeeds or fails** with the underlying behaviour if the condition is
/// true.
pub struct RunIf<T, C> {
    /// The guarded child.
    pub func: T,
    /// The guarding condition.
    pub condition: C,
    /// What to answer when the condition is false.
    pub short_circuit: Status,
}

impl<Ctx, T: Behaviour<Ctx>, C: Condition<Ctx>> Behaviour<Ctx> for RunIf<T, C> {
    fn initialize(&mut self, ctx: &mut Ctx)
        ensures
            final(self).short_circuit == old(self).short_circuit,
    {
        self.condition.initialize(ctx);
        self.func.initialize(ctx);
    }

    fn run(&mut self, subject: u64, ctx: &mut Ctx) -> (status: Status)
        ensures
            final(self).short_circuit == old(self).short_circuit,
            exists|cond: bool, child: Status|
                status == run_if_result(cond, final(self).short_circuit, child) && (!cond
                    ==> final(self).func == old(self).func),
    {
        if self.condition.check(subject, ctx) {
            let child = self.func.run(subject, ctx);
            proof {
                assert(child == run_if_result(true, self.short_circuit, child));
            }
            child
        } else {
            proof {
                assert(self.short_circuit == run_if_result(
                    false,
                    self.short_circuit,
                    Status::Running,
                ));
            }
            self.short_circuit
        }
    }
}

impl<T, C> IntoBehaviour<SelfMarker> for RunIf<T, C> {
    type Out = RunIf<T, C>;

    fn into_behaviour(self) -> (out: RunIf<T, C>)
        ensures
            out == self,
    {
        self
    }
}

/// One step of the [`Retry`] counter: a successful child resets the counter
/// and succeeds; a running child changes nothing; a failed child bumps the
/// counter and keeps running until the budget `max_tries` is spent, at which
/// point the counter resets and the failure is reported.
pub open spec fn retry_step(tries: int, max_tries: int, child: Status) -> (int, Status) {
    match child {
        Status::Success => (0, Status::Success),
        Status::Running => (tries, Status::Running),
        Status::Failure => if tries + 1 < max_tries {
            (tries + 1, Status::Running)
        } else {
            (0, Status::Failure)
        },
    }
}

/// With a budget of zero tries, the very first failure is already final.
pub proof fn lemma_retry_zero_budget(tries: nat)
    ensures
        retry_step(tries as int, 0, Status::Failure) == (0int, Status::Failure),
{
}

/// The [`Retry`] counter folded over a whole run: starting from counter
/// `tries`, the final counter and the statuses the decorator answers tick by
/// tick when its child answers `children`.
pub open spec fn retry_run(tries: int, max_tries: int, children: Seq<Status>) -> (int, Seq<Status>)
    decreases children.len(),
{
    if children.len() == 0 {
        (tries, Seq::empty())
    } else {
        let first = retry_step(tries, max_tries, children[0]);
        let rest = retry_run(first.0, max_tries, children.drop_first());
        (rest.0, seq![first.1] + rest.1)
    }
}

/// Splitting a run: processing `left + right` is processing `left`, then
/// `right` from the counter `left` leaves behind. In particular, a round
/// that leaves the counter at zero has no effect on the round after it:
/// the decorator behaves identically from its first tick again.
pub proof fn lemma_retry_run_append(
    tries: int,
    max_tries: int,
    left: Seq<Status>,
    right: Seq<Status>,
)
    ensures
        ({
            let first = retry_run(tries, max_tries, left);
            let second = retry_run(first.0, max_tries, right);
            retry_run(tries, max_tries, left + right) == (second.0, first.1 + second.1)
        }),
    decreases left.len(),
{
    let first = retry_run(tries, max_tries, left);
    let second = retry_run(first.0, max_tries, right);
    if left.len() == 0 {
        assert(left + right =~= right);
        assert(first.1 + second.1 =~= second.1);
    } else {
        let step = retry_step(tries, max_tries, left[0]);
        lemma_retry_run_append(step.0, max_tries, left.drop_first(), right);
        assert((left + right).drop_first() =~= left.drop_first() + right);
        let tail_first = retry_run(step.0, max_tries, left.drop_first());
        let tail_second = retry_run(tail_first.0, max_tries, right);
        assert(seq![step.1] + (tail_first.1 + tail_second.1) =~= (seq![step.1] + tail_first.1)
            + tail_second.1);
    }
}

/// A block of failures that stays inside the budget: every answer is
/// `Running` and the counter advances by the length of the block.
pub proof fn lemma_retry_failures_stay_running(tries: int, max_tries: int, count: nat)
    requires
        0 <= tries,
        tries + count < max_tries,
    ensures
        retry_run(tries, max_tries, Seq::new(count, |i: int| Status::Failure)) == (
            tries + count,
            Seq::new(count, |i: int| Status::Running),
        ),
    decreases count,
{
    let failures = Seq::new(count, |i: int| Status::Failure);
    let answers = Seq::new(count, |i: int| Status::Running);
    if count == 0 {
        assert(retry_run(tries, max_tries, failures) == (tries, Seq::<Status>::empty()));
        assert(answers =~= Seq::<Status>::empty());
    } else {
        assert(failures[0] == Status::Failure);
        assert(retry_step(tries, max_tries, Status::Failure) == (tries + 1, Status::Running));
        assert(failures.drop_first() =~= Seq::new((count - 1) as nat, |i: int| Status::Failure));
        lemma_retry_failures_stay_running(tries + 1, max_tries, (count - 1) as nat);
        assert(seq![Status::Running] + Seq::new((count - 1) as nat, |i: int| Status::Running)
            =~= answers);
    }
}

/// A child that fails `failures` times and then succeeds, the budget
/// permitting, keeps the decorator running for those `failures` ticks and
/// succeeds on the tick after them, with the counter reset for the next
/// round.
pub proof fn lemma_retry_failures_then_success(max_tries: int, failures: nat)
    requires
        failures < max_tries,
    ensures
        ({
            let children = Seq::new(failures, |i: int| Status::Failure).push(Status::Success);
            retry_run(0, max_tries, children) == (
                0int,
                Seq::new(failures, |i: int| Status::Running).push(Status::Success),
            )
        }),
{
    let blocked = Seq::new(failures, |i: int| Status::Failure);
    let children = blocked.push(Status::Success);
    assert(children =~= blocked + seq![Status::Success]);
    lemma_retry_failures_stay_running(0, max_tries, failures);
    lemma_retry_run_append(0, max_tries, blocked, seq![Status::Success]);
    assert(retry_run(failures as int, max_tries, seq![Status::Success]) == (
        0int,
        seq![Status::Success],
    )) by {
        reveal_with_fuel(retry_run, 2);
        assert(seq![Status::Success].drop_first() =~= Seq::<Status>::empty());
        assert(seq![Status::Success] =~= seq![Status::Success] + Seq::<Status>::empty());
    }
    assert(Seq::new(failures, |i: int| Status::Running) + seq![Status::Success] =~= Seq::new(
        failures,
        |i: int| Status::Running,
    ).push(Status::Success));
}

/// A child that always fails spends the whole budget: the decorator keeps
/// running for `max_tries - 1` ticks, fails on tick `max_tries`, and leaves
/// the counter reset so that the next round behaves identically from its
/// first tick.
pub proof fn lemma_retry_exhausts_budget(max_tries: int)
    requires
        max_tries >= 1,
    ensures
        ({
            let children = Seq::new(max_tries as nat, |i: int| Status::Failure);
            retry_run(0, max_tries, children) == (
                0int,
                Seq::new((max_tries - 1) as nat, |i: int| Status::Running).push(Status::Failure),
            )
        }),
{
    let blocked = Seq::new((max_tries - 1) as nat, |i: int| Status::Failure);
    let children = Seq::new(max_tries as nat, |i: int| Status::Failure);
    assert(children =~= blocked + seq![Status::Failure]);
    lemma_retry_failures_stay_running(0, max_tries, (max_tries - 1) as nat);
    lemma_retry_run_append(0, max_tries, blocked, seq![Status::Failure]);
    assert(retry_run(max_tries - 1, max_tries, seq![Status::Failure]) == (
        0int,
        seq![Status::Failure],
    )) by {
        reveal_with_fuel(retry_run, 2);
        assert(retry_step(max_tries - 1, max_tries, Status::Failure) == (0int, Status::Failure));
        assert(seq![Status::Failure].drop_first() =~= Seq::<Status>::empty());
        assert(seq![Status::Failure] =~= seq![Status::Failure] + Seq::<Status>::empty());
    }
    assert(Seq::new((max_tries - 1) as nat, |i: int| Status::Running) + seq![Status::Failure]
        =~= Seq::new((max_tries - 1) as nat, |i: int| Status::Running).push(Status::Failure));
}

/// Retries the underlying behaviour a fixed number of times.
///
/// **Succeeds** when the underlying behaviour succeeds.
/// **Fails** when the maximum number of tries has been spent.
#[derive(Clone)]
pub struct Retry<T> {
    /// How many failed tries are allowed before the failure is reported.
    pub max_tries: usize,
    /// How many failed tries have been observed so far.
    pub tries: usize,
    /// The retried child.
    pub func: T,
}

impl<Ctx, T: Behaviour<Ctx>> Behaviour<Ctx> for Retry<T> {
    fn initialize(&mut self, ctx: &mut Ctx)
        ensures
            final(self).tries == 0,
            final(self).max_tries == old(self).max_tries,
    {
        self.func.initialize(ctx);
        self.tries = 0;
    }

    fn run(&mut self, subject: u64, ctx: &mut Ctx) -> (status: Status)
        ensures
            final(self).max_tries == old(self).max_tries,
            exists|child: Status| (final(self).tries as int, status) == retry_step(
                old(self).tries as int,
                old(self).max_tries as int,
                child,
            ),
            status != Status::Running ==> final(self).tries == 0,
    {
        let child = self.func.run(subject, ctx);
        let status = match child {
            Status::Failure => {
                if self.max_tries == 0 {
                    self.tries = 0;
                    Status::Failure
                } else if self.tries >= self.max_tries - 1 {
                    // the budget is spent: reset the counter to get ready for
                    // the next round
                    self.tries = 0;
                    Status::Failure
                } else {
                    self.tries = self.tries + 1;
                    Status::Running
                }
            },
            Status::Success => {
                // reset the counter
                self.tries = 0;
                Status::Success
            },
            Status::Running => Status::Running,
        };
        proof {
            assert((self.tries as int, status) == retry_step(
                old(self).tries as int,
                old(self).max_tries as int,
                child,
            ));
        }
        status
    }
}

impl<T> IntoBehaviour<SelfMarker> for Retry<T> {
    type Out = Retry<T>;

    fn into_behaviour(self) -> (out: Retry<T>)
        ensures
            out == self,
    {
        self
    }
}

/// How [`RetryWhile`] reports a child it was allowed to run: failure and
/// still-running both collapse to `Running` (keep retrying while the
/// condition holds); only success ends the retrying.
pub open spec fn retry_while_collapse(child: Status) -> Status {
    match child {
        Status::Success => Status::Success,
        Status::Failure => Status::Running,
        Status::Running => Status::Running,
    }
}

/// What [`RetryWhile`] answers: an immediate failure when the condition did
/// not hold, the collapsed child status when it did.
pub open spec fn retry_while_result(cond: bool, child: Status) -> Status {
    if cond {
        retry_while_collapse(child)
    } else {
        Status::Failure
    }
}

/// While the condition holds the decorator never fails, whatever the child
/// does, and succeeds exactly when the child succeeds. A failure can
/// therefore only come from the condition turning false, and it comes on that
/// very tick, whatever status the child could have produced had it been run.
pub proof fn lemma_retry_while(child: Status)
    ensures
        retry_while_collapse(child) != Status::Failure,
        retry_while_collapse(child) == Status::Success <==> child == Status::Success,
        retry_while_result(false, child) == Status::Failure,
{
}

/// Retries the underlying behaviour while the condition is true.
///
/// **Succeeds** when the underlying behaviour succeeds.
/// **Fails** when the condition becomes false; that is an abort, not a
/// pass-through, and the child is not run on such a tick.
#[derive(Clone)]
pub struct RetryWhile<T, C> {
    /// The retried child.
    pub func: T,
    /// The throttling condition; there is no counter.
    pub condition: C,
}

impl<Ctx, T: Behaviour<Ctx>, C: Condition<Ctx>> Behaviour<Ctx> for RetryWhile<T, C> {
    fn initialize(&mut self, ctx: &mut Ctx) {
        self.condition.initialize(ctx);
        self.func.initialize(ctx);
    }

    fn run(&mut self, subject: u64, ctx: &mut Ctx) -> (status: Status)
        ensures
            exists|cond: bool, child: Status|
                status == #[trigger] retry_while_result(cond, child) && (!cond ==> final(self).func
                    == old(self).func),
            status == Status::Failure ==> final(self).func == old(self).func,
    {
        if self.condition.check(subject, ctx) {
            let child = self.func.run(subject, ctx);
            let status = match child {
                Status::Success => Status::Success,
                Status::Failure => Status::Running,
                Status::Running => Status::Running,
            };
            proof {
                assert(status == retry_while_result(true, child));
            }
            status
        } else {
            proof {
                assert(Status::Failure == retry_while_result(false, Status::Running));
            }
            Status::Failure
        }
    }
}

impl<T, C> IntoBehaviour<SelfMarker> for RetryWhile<T, C> {
    type Out = RetryWhile<T, C>;

    fn into_behaviour(self) -> (out: RetryWhile<T, C>)
        ensures
            out == self,
    {
        self
    }
}

/// Everything a value can be decorated with.
///
/// The methods only assemble data: the built decorator behaves as a node once
/// its children do, so the blanket implementation places no bound on `Self`.
pub trait Decorator: Sized {
    /// Wraps `self` in [`Invert`].
    fn invert(self) -> (decorated: Invert<Self>)
        ensures
            decorated.0 == self,
    {
        Invert(self)
    }

    /// Wraps `self` in [`RunIf`] with the default short-circuit status,
    /// `Status::Success`.
    fn run_if<C>(self, condition: C) -> (decorated: RunIf<Self, C>)
        ensures
            decorated.func == self,
            decorated.condition == condition,
            decorated.short_circuit == Status::Success,
    {
        RunIf { func: self, condition, short_circuit: Status::Success }
    }

    /// Like [`run_if`](Decorator::run_if), but with a customisable answer
    /// when short-circuiting. Guarding with `Status::Failure` composes with
    /// [`invert`](Decorator::invert): `b.run_if(c).invert()` behaves like
    /// `b.invert().run_if_with_return(c, Status::Failure)`.
    fn run_if_with_return<C>(self, condition: C, short_circuit: Status) -> (decorated: RunIf<
        Self,
        C,
    >)
        ensures
            decorated.func == self,
            decorated.condition == condition,
            decorated.short_circuit == short_circuit,
    {
        RunIf { func: self, condition, short_circuit }
    }

    /// Wraps `self` in [`Retry`] with the given budget and a fresh counter.
    fn retry(self, tries: usize) -> (decorated: Retry<Self>)
        ensures
            decorated.func == self,
            decorated.max_tries == tries,
            decorated.tries == 0,
    {
        Retry { func: self, max_tries: tries, tries: 0 }
    }

    /// Wraps `self` in [`RetryWhile`] with the given condition.
    fn retry_while<C>(self, condition: C) -> (decorated: RetryWhile<Self, C>)
        ensures
            decorated.func == self,
            decorated.condition == condition,
    {
        RetryWhile { func: self, condition }
    }

    /// Reserved surface for a fixed-count repeat decorator; answers the inert
    /// [`TodoBehaviour`] until a repeat policy is settled.
    fn repeat(self, _repeats: usize) -> TodoBehaviour {
        TodoBehaviour
    }

    /// Reserved surface for a conditional repeat decorator; answers the inert
    /// [`TodoBehaviour`] until a repeat policy is settled.
    fn repeat_while<C>(self, _condition: C) -> TodoBehaviour {
        TodoBehaviour
    }
}

impl<T> Decorator for T {
}

} // verus!
