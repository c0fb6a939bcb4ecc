//! Small in-flight counter.
//!
//! [`GuardGroup::guard`] counts one more and hands out a [`Guard`]; giving the
//! guard back counts one less. Tasks that wait for the group to be empty are
//! woken when the count reaches zero.
use std::sync::Arc;
use tokio::sync::Notify;
use vstd::prelude::*;

verus! {

/// The guards of a group that are in use, and what wakes the tasks that wait for
/// the group to be empty.
#[derive(Debug)]
pub struct GuardGroup {
    count: usize,
    notify: Arc<Notify>,
}

/// One unit of work in flight, until it is given back with
/// [`GuardGroup::release`].
#[derive(Debug)]
pub struct Guard {
    group: Arc<Notify>,
}

impl Guard {
    /// The signal that the guard carries, by which it knows its group.
    pub closed spec fn empty_signal(self) -> Arc<Notify> {
        self.group
    }

    /// The guard was taken at `group`.
    pub open spec fn is_for(self, group: GuardGroup) -> bool {
        self.empty_signal() == group.empty_signal()
    }
}

/// The count with one guard more. The counter wraps around.
pub open spec fn one_more(count: usize) -> usize {
    if count == usize::MAX {
        0
    } else {
        (count + 1) as usize
    }
}

/// The count with one guard less.
pub open spec fn one_less(count: usize) -> usize {
    (count - 1) as usize
}

impl View for GuardGroup {
    type V = usize;

    closed spec fn view(&self) -> usize {
        self.count
    }
}

impl GuardGroup {
    /// What wakes the tasks that wait for the group to be empty.
    pub closed spec fn empty_signal(self) -> Arc<Notify> {
        self.notify
    }

    pub fn new() -> (group: Self)
        ensures
            group@ == 0,
    {
        GuardGroup { count: 0, notify: Arc::new(Notify::new()) }
    }

    /// Counts one more unit of work.
    pub fn guard(&mut self) -> (guard: Guard)
        ensures
            final(self)@ == one_more(old(self)@),
            final(self).empty_signal() == old(self).empty_signal(),
            guard.is_for(*final(self)),
    {
        self.count = self.count.wrapping_add(1);
        Guard { group: self.notify.clone() }
    }

    /// How many units of work are in flight.
    pub fn count(&self) -> (count: usize)
        ensures
            count == self@,
    {
        self.count
    }

    /// Counts one unit of work less, and wakes the tasks that wait for the group
    /// to be empty where it was the last one. Says whether it was.
    pub fn release(&mut self, guard: Guard) -> (last: bool)
        requires
            old(self)@ > 0,
            guard.is_for(*old(self)),
        ensures
            final(self)@ == one_less(old(self)@),
            last == (final(self)@ == 0),
            last ==> call_ensures(Notify::notify_waiters, (&*old(self).empty_signal(),), ()),
            final(self).empty_signal() == old(self).empty_signal(),
    {
        self.count = self.count - 1;
        let last = self.count == 0;
        if last {
            self.notify.notify_waiters();
        }
        last
    }

    /// What a task that waits for the group to be empty waits for next: nothing
    /// where it is empty, else the signal that it became so.
    pub fn wait_empty(&self) -> (next: Option<Arc<Notify>>)
        ensures
            match next {
                Some(signal) => self@ > 0 && signal == self.empty_signal(),
                None => self@ == 0,
            },
    {
        if self.count == 0 {
            None
        } else {
            Some(self.notify.clone())
        }
    }
}

impl Default for GuardGroup {
    fn default() -> (group: Self)
        ensures
            group@ == 0,
    {
        GuardGroup::new()
    }
}

/// Giving a guard back undoes taking it, where the counter does not wrap around.
pub proof fn releasing_undoes_guarding(count: usize)
    requires
        count < usize::MAX,
    ensures
        one_more(count) > 0,
        one_less(one_more(count)) == count,
{
}

/// What is done with the guards of a group.
pub enum GuardStep {
    /// One is taken.
    Taken,
    /// One is given back.
    Released,
}

/// The guards that were taken and not given back.
pub open spec fn live(steps: Seq<GuardStep>) -> int
    decreases steps.len(),
{
    if steps.len() == 0 {
        0
    } else {
        live(steps.drop_last()) + match steps.last() {
            GuardStep::Taken => 1int,
            GuardStep::Released => -1int,
        }
    }
}

/// `counts` are the counts of a group from its making on, one after each step.
pub open spec fn counts_steps(counts: Seq<usize>, steps: Seq<GuardStep>) -> bool {
    &&& counts.len() == steps.len() + 1
    &&& counts[0] == 0
    &&& forall|k: int|
        0 <= k < steps.len() ==> counts[k + 1] == match #[trigger] steps[k] {
            GuardStep::Taken => one_more(counts[k]),
            GuardStep::Released => one_less(counts[k]),
        }
}

/// The count is the number of live guards, over whatever is taken and given back:
/// no more guards are given back than were taken, and no more are live than the
/// counter holds.
pub proof fn count_is_the_number_of_live_guards(counts: Seq<usize>, steps: Seq<GuardStep>)
    requires
        counts_steps(counts, steps),
        forall|n: int| 0 <= n <= steps.len() ==> 0 <= #[trigger] live(steps.take(n)) <= usize::MAX,
    ensures
        counts.last() == live(steps),
    decreases steps.len(),
{
    assert(steps.take(steps.len() as int) == steps);
    if steps.len() > 0 {
        let shorter = steps.drop_last();
        assert forall|n: int| 0 <= n <= shorter.len() implies 0 <= #[trigger] live(shorter.take(n))
            <= usize::MAX by {
            assert(shorter.take(n) == steps.take(n));
        }
        assert(counts_steps(counts.drop_last(), shorter)) by {
            assert forall|k: int| 0 <= k < shorter.len() implies counts.drop_last()[k + 1]
                == match #[trigger] shorter[k] {
                GuardStep::Taken => one_more(counts.drop_last()[k]),
                GuardStep::Released => one_less(counts.drop_last()[k]),
            } by {
                assert(shorter[k] == steps[k]);
            }
        }
        count_is_the_number_of_live_guards(counts.drop_last(), shorter);
        assert(0 <= live(steps.take(steps.len() as int)) <= usize::MAX);
        assert(steps[steps.len() - 1] == steps.last());
    }
}

/// A guard counts for one: taking one raises the count by one, up to where the
/// counter wraps around, and giving one back lowers it by one.
pub proof fn a_guard_counts_for_one(count: usize)
    ensures
        count < usize::MAX ==> one_more(count) == count + 1,
        count == usize::MAX ==> one_more(count) == 0,
        count > 0 ==> one_less(count) == count - 1,
{
}

/// A step changes the number of live guards by one, and nothing is live at first.
pub proof fn live_guards_change_by_one(steps: Seq<GuardStep>)
    ensures
        live(Seq::<GuardStep>::empty()) == 0,
        live(steps.push(GuardStep::Taken)) == live(steps) + 1,
        live(steps.push(GuardStep::Released)) == live(steps) - 1,
{
    assert(steps.push(GuardStep::Taken).drop_last() =~= steps);
    assert(steps.push(GuardStep::Released).drop_last() =~= steps);
}

} // verus!
