//! The tasks of runnable providers.
//!
//! The tasks are spawned and awaited outside. The runtime holds them and decides
//! what the end of one of them means.
use std::marker::PhantomData;
use std::task::Context;
use std::task::Poll;
use tokio::task::JoinSet;
use vstd::prelude::*;
use crate::registry::error::BoxError;
use crate::registry::error::Error;

verus! {

/// `tokio::task::JoinSet`, carried as an opaque value.
#[verifier::external_type_specification]
#[verifier::external_body]
#[verifier::reject_recursive_types(T)]
pub struct ExJoinSet<T>(JoinSet<T>);

/// `std::task::Context`, carried as an opaque value.
#[verifier::external_type_specification]
#[verifier::external_body]
pub struct ExContext<'a>(Context<'a>);

/// What looking for a task that ended comes to, as the join set tells it.
pub enum Joined {
    /// There are tasks, and none is known to have ended.
    Pending,
    /// There are no tasks.
    Empty,
    /// A task returned this.
    Returned(Result<(), Error>),
    /// A task did not return.
    Lost(BoxError),
}

/// How many tasks a join set holds: those spawned on it and not yet joined.
pub uninterp spec fn tasks_in(set: JoinSet<Result<(), Error>>) -> nat;

/// Every task in a join set was told to stop.
pub uninterp spec fn told_to_stop(set: JoinSet<Result<(), Error>>) -> bool;

/// What looking for ended tasks in a join set came to so far, oldest first.
pub uninterp spec fn looked(set: JoinSet<Result<(), Error>>) -> Seq<Joined>;

/// Calls `JoinSet::new`. The claim is that the set holds no task, and that nobody
/// looked for any.
#[verifier::external_body]
fn no_tasks() -> (set: JoinSet<Result<(), Error>>)
    ensures
        tasks_in(set) == 0,
        looked(set) == Seq::<Joined>::empty(),
{
    JoinSet::new()
}

/// Calls `JoinSet::len`. The claim is that it is the number of tasks in the set.
#[verifier::external_body]
fn number_of_tasks(set: &JoinSet<Result<(), Error>>) -> (n: usize)
    ensures
        n == tasks_in(*set),
{
    set.len()
}

/// Calls `JoinSet::abort_all`. The claim is that every task in the set is told to
/// stop and stays in the set, to be joined once it has.
#[verifier::external_body]
fn abort_tasks(set: &mut JoinSet<Result<(), Error>>)
    ensures
        told_to_stop(*final(set)),
        tasks_in(*final(set)) == tasks_in(*old(set)),
        looked(*final(set)) == looked(*old(set)),
{
    set.abort_all();
}

/// Calls `JoinSet::poll_join_next`, which `JoinSet::join_next` awaits. The claim is
/// that a task whose end comes back is taken out of the set, that nothing else is,
/// and that the set is said to be empty exactly when it is. Which task ended, and
/// when, is left unsaid, as it depends on the tasks; what came back is kept in
/// [`looked`].
#[verifier::external_body]
fn poll_joined(set: &mut JoinSet<Result<(), Error>>, cx: &mut Context<'_>) -> (joined: Joined)
    ensures
        match joined {
            Joined::Pending => tasks_in(*old(set)) > 0 && tasks_in(*final(set)) == tasks_in(
                *old(set),
            ),
            Joined::Empty => tasks_in(*old(set)) == 0 && tasks_in(*final(set)) == 0,
            _ => tasks_in(*final(set)) + 1 == tasks_in(*old(set)),
        },
        told_to_stop(*old(set)) ==> told_to_stop(*final(set)),
        looked(*final(set)) == looked(*old(set)).push(joined),
{
    match set.poll_join_next(cx) {
        Poll::Pending => Joined::Pending,
        Poll::Ready(None) => Joined::Empty,
        Poll::Ready(Some(Ok(returned))) => Joined::Returned(returned),
        Poll::Ready(Some(Err(e))) => Joined::Lost(BoxError { inner: Box::new(e) }),
    }
}

/// How a task ended.
#[derive(Debug)]
pub enum TaskEnd {
    /// It returned without an error.
    Finished,
    /// It returned an error.
    Failed(Error),
    /// It did not return: it panicked or was aborted.
    Lost(BoxError),
}

/// What looking for the end of a task comes to.
#[derive(Debug)]
pub enum Polled {
    /// There are tasks, and none is known to have ended. Whoever looked is woken
    /// when one does.
    Pending,
    /// There are no tasks left.
    Empty,
    /// A task ended.
    Ended(TaskEnd),
}

/// What the join set tells, as the end of a task.
pub open spec fn read_as(joined: Joined) -> Polled {
    match joined {
        Joined::Pending => Polled::Pending,
        Joined::Empty => Polled::Empty,
        Joined::Returned(Ok(_)) => Polled::Ended(TaskEnd::Finished),
        Joined::Returned(Err(e)) => Polled::Ended(TaskEnd::Failed(e)),
        Joined::Lost(source) => Polled::Ended(TaskEnd::Lost(source)),
    }
}

/// What a runtime that waits for its tasks has seen happen.
#[derive(Debug)]
pub enum WaitEvent {
    /// Shutdown has begun.
    ShutDown,
    /// A task ended.
    Ended(TaskEnd),
    /// There are no tasks left.
    NoTasks,
}

/// What a runtime that waits for its tasks does next.
#[derive(Debug)]
pub enum WaitAction {
    /// It goes on waiting. A failure that it goes on from is handed back to be
    /// reported.
    Continue(Option<Error>),
    /// It stops waiting, with this result.
    Stop(Result<(), Error>),
}

/// What the end of a task means: a clean end and a recoverable failure are gone
/// on from, any other failure is fatal.
pub open spec fn after_end(end: TaskEnd, action: WaitAction) -> bool {
    match end {
        TaskEnd::Finished => action == WaitAction::Continue(None),
        TaskEnd::Failed(e) => if e is Recoverable {
            action == WaitAction::Continue(Some(e))
        } else {
            action == WaitAction::Stop(Err(e))
        },
        TaskEnd::Lost(source) => action == WaitAction::Stop(Err(Error::Other(source))),
    }
}

/// What an event means to a runtime that waits for its tasks.
pub open spec fn after_event(event: WaitEvent, action: WaitAction) -> bool {
    match event {
        WaitEvent::ShutDown => action matches WaitAction::Stop(result) && result is Ok,
        WaitEvent::NoTasks => action matches WaitAction::Stop(result) && result is Ok,
        WaitEvent::Ended(end) => after_end(end, action),
    }
}

/// Decides what the end of a task means.
fn judge(end: TaskEnd) -> (action: WaitAction)
    ensures
        after_end(end, action),
{
    match end {
        TaskEnd::Finished => WaitAction::Continue(None),
        TaskEnd::Failed(e) => match e {
            Error::Recoverable { name, source } => WaitAction::Continue(
                Some(Error::Recoverable { name, source }),
            ),
            other => WaitAction::Stop(Err(other)),
        },
        TaskEnd::Lost(source) => WaitAction::Stop(Err(Error::Other(source))),
    }
}

/// Runtime task manager for runnable providers.
pub struct Runtime<S> {
    join_set: JoinSet<Result<(), Error>>,
    state: PhantomData<S>,
}

impl<S> Runtime<S> {
    /// The tasks the runtime holds.
    pub closed spec fn join_set(self) -> JoinSet<Result<(), Error>> {
        self.join_set
    }

    /// How many tasks the runtime holds.
    pub open spec fn tasks(self) -> nat {
        tasks_in(self.join_set())
    }

    /// How many tasks the runtime holds.
    pub fn len(&self) -> (n: usize)
        ensures
            n == self.tasks(),
    {
        number_of_tasks(&self.join_set)
    }

    /// Whether no task is left to be awaited.
    pub fn is_drained(&self) -> (drained: bool)
        ensures
            drained == (self.tasks() == 0),
    {
        number_of_tasks(&self.join_set) == 0
    }

    /// What looking for the end of a task comes to, and what it leaves.
    pub open spec fn polls(self, polled: Polled, after: Self) -> bool {
        &&& match polled {
            Polled::Pending => self.tasks() > 0 && after.tasks() == self.tasks(),
            Polled::Empty => self.tasks() == 0 && after.tasks() == 0,
            Polled::Ended(_) => after.tasks() + 1 == self.tasks(),
        }
        &&& told_to_stop(self.join_set()) ==> told_to_stop(after.join_set())
        &&& exists|joined: Joined| #[trigger]
            looked(self.join_set()).push(joined) == looked(after.join_set()) && polled == read_as(
                joined,
            )
    }

    /// Looks for a task that ended, and takes it out. Where none has yet, whoever
    /// `cx` belongs to is woken when one does.
    pub fn poll_end(&mut self, cx: &mut Context<'_>) -> (polled: Polled)
        ensures
            old(self).polls(polled, *final(self)),
    {
        let joined = poll_joined(&mut self.join_set, cx);
        assert(looked(old(self).join_set).push(joined) == looked(self.join_set));
        match joined {
            Joined::Pending => Polled::Pending,
            Joined::Empty => Polled::Empty,
            Joined::Returned(Ok(())) => Polled::Ended(TaskEnd::Finished),
            Joined::Returned(Err(e)) => Polled::Ended(TaskEnd::Failed(e)),
            Joined::Lost(source) => Polled::Ended(TaskEnd::Lost(source)),
        }
    }

    /// The tasks the runtime holds, to spawn more.
    pub fn tasks_mut(&mut self) -> (set: &mut JoinSet<Result<(), Error>>)
        ensures
            *set == old(self).join_set(),
            final(self).join_set() == *final(set),
    {
        &mut self.join_set
    }

    /// Runs until shutdown is initiated or a critical runnable failure occurs:
    /// says what to do after `event`.
    ///
    /// Stops with `Ok(())` when shutdown has begun or all runnables finished, and
    /// with an error on a critical failure.
    pub fn wait_until_shutdown(&self, event: WaitEvent) -> (action: WaitAction)
        ensures
            after_event(event, action),
    {
        match event {
            WaitEvent::ShutDown => WaitAction::Stop(Ok(())),
            WaitEvent::NoTasks => WaitAction::Stop(Ok(())),
            WaitEvent::Ended(end) => judge(end),
        }
    }

    /// Aborts all tasks. They stay with the runtime until their end is awaited.
    pub fn abort_and_drain(&mut self)
        ensures
            told_to_stop(final(self).join_set()),
            looked(final(self).join_set()) == looked(old(self).join_set()),
            final(self).tasks() == old(self).tasks(),
    {
        abort_tasks(&mut self.join_set);
    }

    /// Waits for all remaining tasks to finish on their own: says what to do
    /// after the next of them ended, or after the last one did.
    pub fn drain(&self, end: Option<TaskEnd>) -> (action: WaitAction)
        ensures
            match end {
                Some(end) => after_end(end, action),
                None => action matches WaitAction::Stop(result) && result is Ok,
            },
    {
        match end {
            Some(end) => judge(end),
            None => WaitAction::Stop(Ok(())),
        }
    }
}

impl<S> Default for Runtime<S> {
    fn default() -> (runtime: Self)
        ensures
            runtime.tasks() == 0,
            looked(runtime.join_set()) == Seq::<Joined>::empty(),
    {
        Runtime { join_set: no_tasks(), state: PhantomData }
    }
}

/// `states` are a runtime whose tasks are looked for again and again, one more
/// after each look.
pub open spec fn is_draining<S>(states: Seq<Runtime<S>>, looks: Seq<Polled>) -> bool {
    &&& states.len() == looks.len() + 1
    &&& forall|k: int|
        0 <= k < looks.len() ==> states[k].polls(#[trigger] looks[k], states[k + 1])
}

/// How many of the looks found a task that ended.
pub open spec fn ends_in(looks: Seq<Polled>) -> nat
    decreases looks.len(),
{
    if looks.len() == 0 {
        0
    } else {
        ends_in(looks.drop_last()) + if looks.last() is Ended {
            1nat
        } else {
            0nat
        }
    }
}

/// Each look that finds an end takes one task away, and no other does.
proof fn lemma_draining<S>(states: Seq<Runtime<S>>, looks: Seq<Polled>)
    requires
        is_draining(states, looks),
    ensures
        states.last().tasks() + ends_in(looks) == states[0].tasks(),
        told_to_stop(states[0].join_set()) ==> told_to_stop(states.last().join_set()),
    decreases looks.len(),
{
    if looks.len() > 0 {
        let fewer = looks.drop_last();
        let earlier = states.drop_last();
        assert forall|k: int| 0 <= k < fewer.len() implies earlier[k].polls(
            #[trigger] fewer[k],
            earlier[k + 1],
        ) by {
            assert(fewer[k] == looks[k]);
        }
        lemma_draining(earlier, fewer);
        let last = looks.len() - 1;
        assert(states[last].polls(looks[last], states[last + 1]));
    }
}

/// Looking until there are no tasks leaves none: every task that was there has
/// ended and its end came back once, and the next look, to drain or to wait, finds
/// nothing and stops at once without an error.
pub proof fn draining_leaves_no_task<S>(
    states: Seq<Runtime<S>>,
    looks: Seq<Polled>,
    next: Polled,
    after: Runtime<S>,
    waiting: WaitAction,
)
    requires
        is_draining(states, looks),
        looks.len() > 0,
        looks.last() is Empty,
        states.last().polls(next, after),
        after_event(WaitEvent::NoTasks, waiting),
    ensures
        states.last().tasks() == 0,
        ends_in(looks) == states[0].tasks(),
        next is Empty,
        waiting matches WaitAction::Stop(result) && result is Ok,
{
    lemma_draining(states, looks);
    let last = looks.len() - 1;
    assert(states[last].polls(looks[last], states[last + 1]));
}

/// A recoverable failure never stops the runtime, and every other failure does,
/// with that very error.
pub proof fn only_recoverable_failures_are_survived(
    e: Error,
    waiting: WaitAction,
    draining: WaitAction,
)
    requires
        after_event(WaitEvent::Ended(TaskEnd::Failed(e)), waiting),
        after_end(TaskEnd::Failed(e), draining),
    ensures
        waiting == draining,
        e is Recoverable <==> waiting is Continue,
        !(e is Recoverable) ==> waiting == WaitAction::Stop(Err(e)),
{
}

/// What comes of a look is what the join set told: that a task returned without an
/// error, the very error that it returned, that it did not return, or that there is
/// nothing to tell.
pub proof fn ends_are_told_as_they_were<S>(before: Runtime<S>, polled: Polled, after: Runtime<S>)
    requires
        before.polls(polled, after),
    ensures
        looked(after.join_set()).len() == looked(before.join_set()).len() + 1,
        looked(after.join_set()).drop_last() == looked(before.join_set()),
        match looked(after.join_set()).last() {
            Joined::Pending => polled is Pending,
            Joined::Empty => polled is Empty,
            Joined::Returned(Ok(_)) => polled matches Polled::Ended(end) && end is Finished,
            Joined::Returned(Err(e)) => polled matches Polled::Ended(end) && end
                == TaskEnd::Failed(e),
            Joined::Lost(source) => polled matches Polled::Ended(end) && end == TaskEnd::Lost(
                source,
            ),
        },
        polled is Ended ==> before.tasks() == after.tasks() + 1,
        !(polled is Ended) ==> before.tasks() == after.tasks(),
        polled is Empty <==> before.tasks() == 0,
        told_to_stop(before.join_set()) ==> told_to_stop(after.join_set()),
{
    let joined = choose|joined: Joined| #[trigger]
        looked(before.join_set()).push(joined) == looked(after.join_set()) && polled == read_as(
            joined,
        );
    assert(looked(before.join_set()).push(joined).drop_last() =~= looked(before.join_set()));
}

/// From what a task returned to what the runtime does: a clean end and a recoverable
/// error are gone on from, the error being handed back; every other error stops the
/// runtime with that very error, and so does a task that did not return.
pub proof fn returned_errors_are_judged_as_they_are<S>(
    before: Runtime<S>,
    end: TaskEnd,
    after: Runtime<S>,
    waiting: WaitAction,
    draining: WaitAction,
)
    requires
        before.polls(Polled::Ended(end), after),
        after_event(WaitEvent::Ended(end), waiting),
        after_end(end, draining),
    ensures
        waiting == draining,
        match looked(after.join_set()).last() {
            Joined::Returned(Ok(_)) => waiting matches WaitAction::Continue(None),
            Joined::Returned(Err(e)) => if e is Recoverable {
                waiting matches WaitAction::Continue(Some(reported)) && reported == e
            } else {
                waiting matches WaitAction::Stop(Err(fatal)) && fatal == e
            },
            Joined::Lost(source) => waiting matches WaitAction::Stop(Err(fatal)) && fatal
                == Error::Other(source),
            _ => false,
        },
{
    ends_are_told_as_they_were(before, Polled::Ended(end), after);
}

/// Shutdown, and there being no tasks, end the wait without an error; nothing else
/// but the end of a task does anything.
pub proof fn shutdown_and_no_tasks_end_the_wait(closed: WaitAction, empty: WaitAction)
    requires
        after_event(WaitEvent::ShutDown, closed),
        after_event(WaitEvent::NoTasks, empty),
    ensures
        closed matches WaitAction::Stop(result) && result is Ok,
        empty matches WaitAction::Stop(result) && result is Ok,
{
}

} // verus!
