//! Boot, shutdown and reload: which provider is asked next, and what its answer
//! means for the rest.
//!
//! The asynchronous work itself happens outside. A [`Sweep`] hands out one
//! provider at a time and takes back how it went.
use vstd::prelude::*;
use vstd::string::StringExecFns;
use crate::registry::error::Error;
use crate::registry::error::Result;
use crate::registry::handles;
use crate::registry::plan_view;
use crate::registry::provider::answers_name;
use crate::registry::provider::answers_reloadable;
use crate::registry::provider::name_of;
use crate::registry::provider::reloadable_of;
use crate::registry::provider::share;
use crate::registry::provider::DynProvider;
use crate::registry::provider::Reloadable;
use crate::registry::Registry;
use crate::text::same_text;

verus! {

/// The providers that a lifecycle phase has yet to go through.
#[verifier::reject_recursive_types(S)]
pub struct Sweep<S> {
    providers: Vec<DynProvider<S>>,
    at: usize,
}

/// The provider answers whether it can be reloaded.
pub open spec fn reads_reloadable<S: 'static>(handle: DynProvider<S>, reloadable: bool) -> bool {
    exists|capability: Option<&dyn Reloadable<S>>| #[trigger]
        answers_reloadable(handle, capability) && reloadable == (
        capability is Some)
}

/// The provider answers the name `name`.
pub open spec fn named<S: 'static>(handle: DynProvider<S>, name: Seq<char>) -> bool {
    exists|answer: &'static str| #[trigger]
        answers_name(handle, answer) && answer@ == name
}

/// The provider answers another name than `name`.
pub open spec fn named_otherwise<S: 'static>(handle: DynProvider<S>, name: Seq<char>) -> bool {
    exists|answer: &'static str| #[trigger]
        answers_name(handle, answer) && answer@ != name
}

/// `at` is the place of the first provider that answers the name `name`, or the
/// number of providers where none does.
pub open spec fn first_named<S: 'static>(
    providers: Seq<DynProvider<S>>,
    name: Seq<char>,
    at: int,
) -> bool {
    &&& 0 <= at <= providers.len()
    &&& forall|i: int| 0 <= i < at ==> named_otherwise(#[trigger] providers[i], name)
    &&& at < providers.len() ==> named(providers[at], name)
}

/// The message where no provider has the name asked for.
pub open spec fn unknown_message(name: Seq<char>) -> Seq<char> {
    "reload_by_name: no provider registered with name '"@ + name + "'"@
}

/// The message where the provider asked for cannot be reloaded.
pub open spec fn fixed_message(name: Seq<char>) -> Seq<char> {
    "reload_by_name: provider '"@ + name + "' is not reloadable"@
}

/// `e` is `failure` as a boot failure of the provider.
pub open spec fn boot_failure<S: 'static>(handle: DynProvider<S>, failure: Error, e: Error) -> bool {
    exists|name: &'static str| #[trigger]
        answers_name(handle, name) && e == failure.booting(name)
}

/// `e` is `failure` as a reload failure of the provider.
pub open spec fn reload_failure<S: 'static>(
    handle: DynProvider<S>,
    failure: Error,
    e: Error,
) -> bool {
    exists|name: &'static str| #[trigger]
        answers_name(handle, name) && e == failure.reloading(name)
}

impl<S: 'static> Sweep<S> {
    /// The providers still to come, the next one first.
    pub closed spec fn rest(self) -> Seq<DynProvider<S>> {
        self.providers@.skip(self.at as int)
    }

    pub closed spec fn well_formed(self) -> bool {
        self.at <= self.providers@.len()
    }

    fn over(providers: Vec<DynProvider<S>>) -> (sweep: Self)
        ensures
            sweep.well_formed(),
            sweep.rest() == providers@,
    {
        let sweep = Sweep { providers, at: 0 };
        assert(sweep.rest() == providers@);
        sweep
    }

    /// The provider whose turn it is.
    pub fn current(&self) -> (provider: Option<DynProvider<S>>)
        requires
            self.well_formed(),
        ensures
            match provider {
                Some(handle) => self.rest().len() > 0 && handle == self.rest()[0],
                None => self.rest().len() == 0,
            },
    {
        if self.at < self.providers.len() {
            Some(share(&self.providers[self.at]))
        } else {
            None
        }
    }

    /// Passes over the providers that cannot be reloaded, and gives the next one
    /// that can.
    pub fn current_reloadable(&mut self) -> (provider: Option<DynProvider<S>>)
        requires
            old(self).well_formed(),
        ensures
            final(self).well_formed(),
            exists|passed: int|
                0 <= passed <= old(self).rest().len() && final(self).rest()
                    == #[trigger] old(self).rest().skip(passed) && (forall|i: int|
                    0 <= i < passed ==> reads_reloadable(#[trigger] old(self).rest()[i], false)),
            match provider {
                Some(handle) => final(self).rest().len() > 0 && handle == final(self).rest()[0]
                    && reads_reloadable(handle, true),
                None => final(self).rest().len() == 0,
            },
    {
        let ghost rest = self.rest();
        let ghost mut passed: int = 0;
        assert(rest.skip(0) == rest);
        while self.at < self.providers.len()
            invariant
                rest == old(self).rest(),
                old(self).well_formed(),
                self.well_formed(),
                self.providers@ == old(self).providers@,
                0 <= passed,
                self.at == old(self).at + passed,
                self.rest() == rest.skip(passed),
                forall|i: int| 0 <= i < passed ==> reads_reloadable(#[trigger] rest[i], false),
            decreases self.providers@.len() - self.at,
        {
            assert(self.rest()[0] == self.providers@[self.at as int]);
            let capability = reloadable_of(&self.providers[self.at]);
            assert(answers_reloadable(self.providers@[self.at as int], capability));
            if capability.is_some() {
                assert(reads_reloadable(self.rest()[0], true));
                return Some(share(&self.providers[self.at]));
            }
            proof {
                assert(rest[passed] == self.providers@[self.at as int]);
                assert(reads_reloadable(rest[passed], false));
                assert(rest.skip(passed + 1) == self.providers@.skip(self.at + 1));
                passed = passed + 1;
            }
            self.at = self.at + 1;
        }
        None
    }

    /// Takes back how booting the current provider went. A failure ends the
    /// sweep and comes back as a boot failure of that provider.
    pub fn booted(&mut self, outcome: Result<()>) -> (verdict: Result<()>)
        requires
            old(self).well_formed(),
            old(self).rest().len() > 0,
        ensures
            final(self).well_formed(),
            match (outcome, verdict) {
                (Ok(()), Ok(())) => final(self).rest() == old(self).rest().drop_first(),
                (Err(failure), Err(e)) => final(self).rest().len() == 0 && boot_failure(
                    old(self).rest()[0],
                    failure,
                    e,
                ),
                _ => false,
            },
    {
        match outcome {
            Ok(()) => {
                let end = self.providers.len();
                assert(self.at < end && self.providers@.skip(self.at + 1)
                    == self.rest().drop_first());
                self.at = self.at + 1;
                Ok(())
            },
            Err(failure) => {
                let name = name_of(&self.providers[self.at]);
                self.at = self.providers.len();
                Err(failure.into_boot(name))
            },
        }
    }

    /// Takes back how shutting down or reloading the current provider went. The
    /// sweep goes on whatever the outcome; a failure comes back only to be
    /// reported.
    pub fn settled(&mut self, outcome: Result<()>) -> (failure: Option<Error>)
        requires
            old(self).well_formed(),
            old(self).rest().len() > 0,
        ensures
            final(self).well_formed(),
            final(self).rest() == old(self).rest().drop_first(),
            match outcome {
                Ok(()) => failure is None,
                Err(e) => failure == Some(e),
            },
    {
        let end = self.providers.len();
        assert(self.at < end && self.providers@.skip(self.at + 1) == self.rest().drop_first());
        self.at = self.at + 1;
        match outcome {
            Ok(()) => None,
            Err(e) => Some(e),
        }
    }
}

/// The provider's reload went as `outcome` says: a failure becomes a reload
/// failure of that provider.
pub fn reload_verdict<S: 'static>(handle: &DynProvider<S>, outcome: Result<()>) -> (verdict: Result<
    (),
>)
    ensures
        match (outcome, verdict) {
            (Ok(()), Ok(())) => true,
            (Err(failure), Err(e)) => reload_failure(*handle, failure, e),
            _ => false,
        },
{
    match outcome {
        Ok(()) => Ok(()),
        Err(failure) => {
            let name = name_of(handle);
            Err(failure.into_reload(name))
        },
    }
}

/// The error where the provider asked for cannot be reloaded.
pub fn not_reloadable(name: &str) -> (e: Error)
    ensures
        e.says(fixed_message(name@)),
{
    let mut message = String::from("reload_by_name: provider '");
    message.append(name);
    message.append("' is not reloadable");
    Error::msg(message.as_str())
}

/// The providers the other way round.
fn reversed<S: 'static>(providers: &Vec<DynProvider<S>>) -> (other: Vec<DynProvider<S>>)
    ensures
        other@ == providers@.reverse(),
{
    let mut other: Vec<DynProvider<S>> = Vec::new();
    let mut left: usize = providers.len();
    while left > 0
        invariant
            left <= providers@.len(),
            other@.len() == providers@.len() - left,
            forall|k: int|
                0 <= k < other@.len() ==> #[trigger] other@[k] == providers@[providers@.len() - 1
                    - k],
        decreases left,
    {
        left = left - 1;
        other.push(share(&providers[left]));
    }
    other
}

impl<S: 'static> Registry<S> {
    /// `result` is a sweep over all providers in lifecycle order, or the reason
    /// why there is no such order; `after` is the registry that knows the order.
    pub open spec fn sweeps(self, result: Result<Sweep<S>>, after: Self) -> bool {
        exists|plan: Result<Seq<DynProvider<S>>>| #[trigger]
            self.plans(plan, after) && match (plan, result) {
                (Ok(providers), Ok(sweep)) => sweep.well_formed() && sweep.rest() == providers,
                (Err(a), Err(b)) => a == b,
                _ => false,
            }
    }

    /// As [`Registry::sweeps`], in reverse lifecycle order.
    pub open spec fn sweeps_back(self, result: Result<Sweep<S>>, after: Self) -> bool {
        exists|plan: Result<Seq<DynProvider<S>>>| #[trigger]
            self.plans(plan, after) && match (plan, result) {
                (Ok(providers), Ok(sweep)) => sweep.well_formed() && sweep.rest()
                    == providers.reverse(),
                (Err(a), Err(b)) => a == b,
                _ => false,
            }
    }

    /// Starts booting all providers, in lifecycle order.
    pub fn boot_all(&mut self) -> (result: Result<Sweep<S>>)
        requires
            old(self).well_formed(),
        ensures
            final(self).well_formed(),
            old(self).sweeps(result, *final(self)),
    {
        let plan = self.lifecycle_plan();
        assert(old(self).plans(plan_view(plan), *self));
        match plan {
            Ok(providers) => Ok(Sweep::over(providers)),
            Err(e) => Err(e),
        }
    }

    /// Starts shutting down all providers, in reverse lifecycle order.
    pub fn shutdown_all(&mut self) -> (result: Result<Sweep<S>>)
        requires
            old(self).well_formed(),
        ensures
            final(self).well_formed(),
            old(self).sweeps_back(result, *final(self)),
    {
        let plan = self.lifecycle_plan();
        assert(old(self).plans(plan_view(plan), *self));
        match plan {
            Ok(providers) => Ok(Sweep::over(reversed(&providers))),
            Err(e) => Err(e),
        }
    }

    /// Starts reloading all providers, in lifecycle order, once the shared state
    /// is reloaded. Where that failed, its error comes back and no provider is
    /// reloaded.
    pub fn reload_all(&mut self, state: Result<()>) -> (result: Result<Sweep<S>>)
        requires
            old(self).well_formed(),
        ensures
            final(self).well_formed(),
            match state {
                Err(e) => *final(self) == *old(self) && result == Err::<Sweep<S>, Error>(e),
                Ok(()) => old(self).sweeps(result, *final(self)),
            },
    {
        match state {
            Err(e) => Err(e),
            Ok(()) => self.boot_all(),
        }
    }

    /// The provider named `name`, to be reloaded by itself.
    pub fn reload_one(&self, name: &str) -> (result: Result<DynProvider<S>>)
        ensures
            exists|at: int| #[trigger]
                first_named(handles(self.entries()), name@, at) && match result {
                    Ok(handle) => at < self.entries().len() && handle == handles(self.entries())[at]
                        && reads_reloadable(handle, true),
                    Err(e) => if at < self.entries().len() {
                        reads_reloadable(handles(self.entries())[at], false) && e.says(
                            fixed_message(name@),
                        )
                    } else {
                        e.says(unknown_message(name@))
                    },
                },
    {
        let providers = self.providers();
        let mut at: usize = 0;
        while at < providers.len()
            invariant
                at <= providers@.len(),
                providers@ == handles(self.entries()),
                forall|i: int|
                    0 <= i < at ==> named_otherwise(#[trigger] providers@[i], name@),
            decreases providers@.len() - at,
        {
            let answer = name_of(&providers[at]);
            assert(answers_name(providers@[at as int], answer));
            if same_text(answer, name) {
                assert(first_named(providers@, name@, at as int));
                let capability = reloadable_of(&providers[at]);
                assert(answers_reloadable(providers@[at as int], capability));
                if capability.is_some() {
                    assert(reads_reloadable(providers@[at as int], true));
                    return Ok(share(&providers[at]));
                }
                assert(reads_reloadable(providers@[at as int], false));
                return Err(not_reloadable(name));
            }
            assert(named_otherwise(providers@[at as int], name@));
            at = at + 1;
        }
        assert(first_named(providers@, name@, at as int));
        let mut message = String::from("reload_by_name: no provider registered with name '");
        message.append(name);
        message.append("'");
        Err(Error::msg(message.as_str()))
    }
}

} // verus!
