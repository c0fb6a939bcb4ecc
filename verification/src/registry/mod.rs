//! The provider registry.
//!
//! Providers are registered once, by concrete type. The registry then resolves
//! them by that type and arranges them in one lifecycle order, which boot,
//! validation, reload and (backwards) shutdown share.
use std::any::TypeId;
use std::sync::Arc;
use vstd::prelude::*;
use crate::registry::identity::forget_type;
use crate::registry::identity::made_from;
use crate::registry::identity::made_only_from;
use crate::registry::identity::recall_type;
use crate::registry::identity::same_type;
use crate::registry::identity::share_any;
use crate::registry::identity::type_id;
use crate::registry::identity::type_id_of;
use crate::registry::identity::AnyHandle;
use crate::registry::lifecycle::cycle_message;
use crate::registry::lifecycle::has_cycle;
use crate::registry::lifecycle::is_lifecycle_order;
use crate::registry::lifecycle::is_over;
use crate::registry::lifecycle::is_run;
use crate::registry::lifecycle::lifecycle_order_places_each_once;
use crate::registry::lifecycle::Node;
use crate::registry::planner::order_provider_entries;
use crate::registry::provider::answers_name;
use crate::registry::provider::answers_order;
use crate::registry::provider::answers_validation;
use crate::registry::provider::handle_to;
use crate::registry::provider::leads_to;
use crate::registry::provider::lifecycle_priority;
use crate::registry::provider::name_of;
use crate::registry::provider::order_of;
use crate::registry::provider::reads_lifecycle_priority;
use crate::registry::provider::share;
use crate::registry::provider::validate_with;
use crate::registry::provider::DynProvider;

pub use crate::registry::error::BoxError;
pub use crate::registry::error::Error;
pub use crate::registry::error::Result;
pub use crate::registry::provider::Provider;
pub use crate::registry::provider::ProviderOrder;
pub use crate::registry::provider::ReloadState;
pub use crate::registry::provider::Reloadable;
pub use crate::registry::provider::Runnable;

pub mod error;
pub mod guarantees;
pub mod history;
pub mod identity;
pub mod laws;
pub mod lifecycle;
pub mod planner;
pub mod priority;
pub mod provider;
pub mod start;
pub mod sweep;

verus! {

/// A registered provider: its concrete type, the value itself with its type
/// forgotten, and a handle to call it through.
#[verifier::reject_recursive_types(S)]
pub struct ProviderEntry<S> {
    pub type_id: TypeId,
    pub any: AnyHandle,
    pub handle: DynProvider<S>,
}

/// Type-erased provider registry used for service discovery and lookup by type.
/// The entries stand in registration order.
#[verifier::reject_recursive_types(S)]
pub struct Registry<S> {
    entries: Vec<ProviderEntry<S>>,
    lifecycle_order: Option<Vec<TypeId>>,
}

/// No two entries have the same type.
pub open spec fn distinct_entries<S>(entries: Seq<ProviderEntry<S>>) -> bool {
    forall|i: int, j: int|
        0 <= i < j < entries.len() ==> (#[trigger] entries[i]).type_id != (
        #[trigger] entries[j]).type_id
}

/// A provider of type `id` is among the entries.
pub open spec fn registered<S>(entries: Seq<ProviderEntry<S>>, id: TypeId) -> bool {
    exists|i: int| 0 <= i < entries.len() && (#[trigger] entries[i]).type_id == id
}

/// The handles of the entries, in registration order.
pub open spec fn handles<S>(entries: Seq<ProviderEntry<S>>) -> Seq<DynProvider<S>> {
    Seq::new(entries.len(), |i: int| entries[i].handle)
}

/// The handles of the entries that `order` names by place.
pub open spec fn arranged<S>(entries: Seq<ProviderEntry<S>>, order: Seq<usize>) -> Seq<
    DynProvider<S>,
> {
    Seq::new(order.len(), |k: int| entries[order[k] as int].handle)
}

/// The types of the entries that `order` names by place.
pub open spec fn arranged_types<S>(entries: Seq<ProviderEntry<S>>, order: Seq<usize>) -> Seq<
    TypeId,
> {
    Seq::new(order.len(), |k: int| entries[order[k] as int].type_id)
}

/// The entry of type `id`.
pub open spec fn entry_of<S>(entries: Seq<ProviderEntry<S>>, id: TypeId) -> ProviderEntry<S> {
    entries[choose|i: int| 0 <= i < entries.len() && (#[trigger] entries[i]).type_id == id]
}

/// The handles of the providers of types `ids`, without those that are not
/// registered.
pub open spec fn found<S>(entries: Seq<ProviderEntry<S>>, ids: Seq<TypeId>) -> Seq<DynProvider<S>>
    decreases ids.len(),
{
    if ids.len() == 0 {
        Seq::empty()
    } else if registered(entries, ids.last()) {
        found(entries, ids.drop_last()).push(entry_of(entries, ids.last()).handle)
    } else {
        found(entries, ids.drop_last())
    }
}

/// `node` holds what the provider of `entry` answers about its place in the
/// lifecycle.
pub open spec fn reads_node<S: 'static>(entry: ProviderEntry<S>, node: Node) -> bool {
    &&& node.type_id == entry.type_id
    &&& reads_lifecycle_priority(entry.handle, node.priority)
    &&& answers_name(entry.handle, node.name)
    &&& exists|order: ProviderOrder| #[trigger]
        answers_order(entry.handle, order) && node.before@ == order.preceded()
            && node.after@ == order.followed()
}

/// `nodes` holds what the providers answer, one node for each entry.
pub open spec fn reads_nodes<S: 'static>(
    entries: Seq<ProviderEntry<S>>,
    nodes: Seq<Node>,
) -> bool {
    &&& nodes.len() == entries.len()
    &&& forall|i: int| 0 <= i < nodes.len() ==> reads_node(entries[i], #[trigger] nodes[i])
}

/// A plan as the sequence of its providers.
pub open spec fn plan_view<S>(plan: Result<Vec<DynProvider<S>>>) -> Result<Seq<DynProvider<S>>> {
    match plan {
        Ok(providers) => Ok(providers@),
        Err(e) => Err(e),
    }
}

/// What ordering providers that answer `nodes` comes to: the lifecycle order,
/// or an error that names those a cycle blocks.
pub open spec fn plan_of<S: 'static>(
    entries: Seq<ProviderEntry<S>>,
    nodes: Seq<Node>,
    plan: Result<Seq<DynProvider<S>>>,
    types: Option<Seq<TypeId>>,
) -> bool {
    match plan {
        Ok(providers) => exists|order: Seq<usize>| #[trigger]
            is_lifecycle_order(nodes, order) && providers == arranged(entries, order) && types
                == Some(arranged_types(entries, order)),
        Err(e) => has_cycle(nodes) && types is None && exists|order: Seq<usize>|
            is_run(nodes, order) && is_over(nodes, order) && e.says(
                #[trigger] cycle_message(nodes, order),
            ),
    }
}

/// `names` are the names that the providers answer.
pub open spec fn reads_names<S: 'static>(
    providers: Seq<DynProvider<S>>,
    names: Seq<&'static str>,
) -> bool {
    &&& names.len() == providers.len()
    &&& forall|i: int|
        0 <= i < names.len() ==> answers_name(providers[i], #[trigger] names[i])
}

/// The provider accepts `state`.
pub open spec fn accepts<S: 'static>(handle: DynProvider<S>, state: &S) -> bool {
    exists|answer: Result<()>| #[trigger]
        answers_validation(handle, state, answer) && answer is Ok
}

/// The first `n` providers accept `state`.
pub open spec fn accept<S: 'static>(plan: Seq<DynProvider<S>>, state: &S, n: int) -> bool {
    &&& 0 <= n <= plan.len()
    &&& forall|i: int| 0 <= i < n ==> accepts(#[trigger] plan[i], state)
}

/// The provider rejects `state`, and `e` is its error as a validation failure.
pub open spec fn rejects<S: 'static>(handle: DynProvider<S>, state: &S, e: Error) -> bool {
    exists|failure: Error, name: &'static str|
        answers_validation(handle, state, Err::<(), Error>(failure))
            && answers_name(handle, name) && e == #[trigger] failure.validating(
            name,
        )
}

/// Validating the providers one after another, up to the first that rejects
/// `state`, comes to `outcome`.
pub open spec fn validation<S: 'static>(
    plan: Seq<DynProvider<S>>,
    state: &S,
    outcome: Result<()>,
) -> bool {
    match outcome {
        Ok(()) => accept(plan, state, plan.len() as int),
        Err(e) => exists|n: int|
            n < plan.len() && #[trigger] accept(plan, state, n) && rejects(plan[n], state, e),
    }
}

/// The types once more.
fn copied(types: &Vec<TypeId>) -> (other: Vec<TypeId>)
    ensures
        other@ == types@,
{
    let mut other: Vec<TypeId> = Vec::new();
    let mut at: usize = 0;
    while at < types.len()
        invariant
            at <= types@.len(),
            other@ == types@.take(at as int),
        decreases types@.len() - at,
    {
        other.push(types[at]);
        assert(types@.take(at + 1) == types@.take(at as int).push(types@[at as int]));
        at = at + 1;
    }
    assert(types@.take(at as int) == types@);
    other
}

/// Asks the providers for their names.
fn names_of<S: 'static>(providers: &Vec<DynProvider<S>>) -> (names: Vec<&'static str>)
    ensures
        reads_names(providers@, names@),
{
    let mut names: Vec<&'static str> = Vec::new();
    let mut at: usize = 0;
    while at < providers.len()
        invariant
            at <= providers@.len(),
            names@.len() == at,
            forall|i: int|
                0 <= i < at ==> answers_name(providers@[i], #[trigger] names@[i]),
        decreases providers@.len() - at,
    {
        names.push(name_of(&providers[at]));
        at = at + 1;
    }
    names
}

impl<S: 'static> Registry<S> {
    /// What is registered, in registration order.
    pub closed spec fn entries(self) -> Seq<ProviderEntry<S>> {
        self.entries@
    }

    /// The lifecycle order by type, where it is known.
    pub closed spec fn known_order(self) -> Option<Seq<TypeId>> {
        match self.lifecycle_order {
            Some(types) => Some(types@),
            None => None,
        }
    }

    /// No type is registered twice, and a known order is a lifecycle order of
    /// what the registered providers answered.
    pub open spec fn well_formed(self) -> bool {
        &&& distinct_entries(self.entries())
        &&& self.known_order() matches Some(types) ==> exists|nodes: Seq<Node>, order: Seq<usize>| 
            #![trigger reads_nodes(self.entries(), nodes), is_lifecycle_order(nodes, order)]
            reads_nodes(self.entries(), nodes) && is_lifecycle_order(nodes, order) && types
                == arranged_types(self.entries(), order)
    }

    /// The registry after `item` is registered: unchanged where its type is
    /// registered already, else with `item` last and the order to be found anew.
    pub open spec fn registers<C: Provider<S>>(self, item: Arc<C>, after: Self) -> bool {
        if registered(self.entries(), type_id::<C>()) {
            after == self
        } else {
            &&& after.entries().len() == self.entries().len() + 1
            &&& after.entries().drop_last() == self.entries()
            &&& after.entries().last().type_id == type_id::<C>()
            &&& made_from(after.entries().last().any, item)
            &&& leads_to(after.entries().last().handle, item)
            &&& after.known_order() is None
        }
    }

    /// `found` is the registered provider of type `T`.
    pub open spec fn resolves<T: Provider<S>>(self, found: Option<Arc<T>>) -> bool {
        match found {
            Some(item) => exists|i: int|
                0 <= i < self.entries().len() && (#[trigger] self.entries()[i]).type_id == type_id::<
                    T,
                >() && made_only_from(self.entries()[i].any, item),
            None => forall|i: int, item: Arc<T>|
                0 <= i < self.entries().len() && self.entries()[i].type_id == type_id::<T>()
                    ==> !#[trigger] made_from(self.entries()[i].any, item),
        }
    }

    /// `plan` is what asking for the lifecycle order gives, and `after` is the
    /// registry that knows it.
    pub open spec fn plans(self, plan: Result<Seq<DynProvider<S>>>, after: Self) -> bool {
        &&& after.entries() == self.entries()
        &&& match self.known_order() {
            Some(types) => after == self && plan == Ok::<_, Error>(found(self.entries(), types)),
            None => exists|nodes: Seq<Node>| #[trigger]
                reads_nodes(self.entries(), nodes) && plan_of(
                    self.entries(),
                    nodes,
                    plan,
                    after.known_order(),
                ),
        }
    }

    /// An empty registry.
    pub fn new() -> (registry: Self)
        ensures
            registry.well_formed(),
            registry.entries() == Seq::<ProviderEntry<S>>::empty(),
            registry.known_order() is None,
    {
        Registry { entries: Vec::new(), lifecycle_order: None }
    }

    /// The place of the provider of type `id`.
    fn position_of(&self, id: &TypeId) -> (place: Option<usize>)
        ensures
            match place {
                Some(i) => i < self.entries().len() && self.entries()[i as int].type_id == *id,
                None => !registered(self.entries(), *id),
            },
    {
        let mut at: usize = 0;
        while at < self.entries.len()
            invariant
                at <= self.entries@.len(),
                forall|i: int| 0 <= i < at ==> (#[trigger] self.entries@[i]).type_id != *id,
            decreases self.entries@.len() - at,
        {
            if same_type(&self.entries[at].type_id, id) {
                return Some(at);
            }
            at = at + 1;
        }
        None
    }

    /// Registers a provider.
    ///
    /// If another service with the same concrete type is already registered,
    /// the new registration is skipped.
    ///
    /// Returns the registry to allow fluent chaining.
    pub fn insert<C: Provider<S>>(&mut self, item: Arc<C>) -> (registry: &mut Self)
        requires
            old(self).well_formed(),
        ensures
            old(self).registers(item, *registry),
            registry.well_formed(),
            *final(self) == *final(registry),
    {
        let type_id = type_id_of::<C>();
        if let Some(at) = self.position_of(&type_id) {
            assert(self.entries()[at as int].type_id == type_id);
            return self;
        }
        let any = forget_type(item.clone());
        let handle = handle_to::<S, C>(item);
        self.entries.push(ProviderEntry { type_id, any, handle });
        self.lifecycle_order = None;
        assert(self.entries().drop_last() == old(self).entries());
        self
    }

    /// Resolves a concrete service as an owned `Arc<T>` handle to the value that
    /// was registered.
    ///
    /// Returns `None` if the type is not registered.
    pub fn resolve<T: Provider<S>>(&self) -> (found: Option<Arc<T>>)
        requires
            self.well_formed(),
        ensures
            self.resolves(found),
    {
        let place = self.position_of(&type_id_of::<T>());
        match place {
            Some(at) => {
                assert forall|i: int|
                    0 <= i < self.entries().len() && (#[trigger] self.entries()[i]).type_id
                        == type_id::<T>() implies i == at by {}
                recall_type::<T>(&self.entries[at].any)
            },
            None => None,
        }
    }

    /// Runs `f` on the registered provider of type `T`, if there is one.
    pub fn with_typed<T: Provider<S>, R, F: FnOnce(&T) -> R>(&self, f: F) -> (result: Option<R>)
        requires
            self.well_formed(),
            forall|item: Arc<T>| #[trigger]
                self.resolves(Some(item)) ==> f.requires((&*item,)),
        ensures
            match result {
                Some(value) => exists|item: Arc<T>| #[trigger]
                    self.resolves(Some(item)) && f.ensures((&*item,), value),
                None => self.resolves(None::<Arc<T>>),
            },
    {
        let typed = self.resolve::<T>();
        match typed {
            Some(item) => {
                let value = f(&*item);
                assert(self.resolves(Some(item)) && f.ensures((&*item,), value));
                Some(value)
            },
            None => None,
        }
    }

    /// A snapshot of the registered providers.
    pub fn providers(&self) -> (providers: Vec<DynProvider<S>>)
        ensures
            providers@ == handles(self.entries()),
    {
        let mut providers: Vec<DynProvider<S>> = Vec::new();
        let mut at: usize = 0;
        while at < self.entries.len()
            invariant
                at <= self.entries@.len(),
                providers@ == handles(self.entries()).take(at as int),
            decreases self.entries@.len() - at,
        {
            providers.push(share(&self.entries[at].handle));
            assert(handles(self.entries()).take(at + 1) == handles(self.entries()).take(
                at as int,
            ).push(handles(self.entries())[at as int]));
            at = at + 1;
        }
        assert(handles(self.entries()).take(at as int) == handles(self.entries()));
        providers
    }

    /// Another registry with the same providers and the same known order, for
    /// calls of providers while this one stays open to others.
    pub fn snapshot(&self) -> (other: Self)
        requires
            self.well_formed(),
        ensures
            other.well_formed(),
            other.entries() == self.entries(),
            other.known_order() == self.known_order(),
    {
        let mut entries: Vec<ProviderEntry<S>> = Vec::new();
        let mut at: usize = 0;
        while at < self.entries.len()
            invariant
                at <= self.entries@.len(),
                entries@ == self.entries@.take(at as int),
            decreases self.entries@.len() - at,
        {
            let entry = &self.entries[at];
            entries.push(
                ProviderEntry {
                    type_id: entry.type_id,
                    any: share_any(&entry.any),
                    handle: share(&entry.handle),
                },
            );
            assert(self.entries@.take(at + 1) == self.entries@.take(at as int).push(
                self.entries@[at as int],
            ));
            at = at + 1;
        }
        assert(self.entries@.take(at as int) == self.entries@);
        let lifecycle_order = match &self.lifecycle_order {
            Some(types) => Some(copied(types)),
            None => None,
        };
        Registry { entries, lifecycle_order }
    }

    /// Takes over the order that was found on an earlier snapshot, unless there
    /// were registrations since. Where none was found, what is known stays.
    pub fn learn(&mut self, planned: Self)
        requires
            old(self).well_formed(),
            planned.well_formed(),
            planned.entries().is_prefix_of(old(self).entries()),
        ensures
            final(self).well_formed(),
            final(self).entries() == old(self).entries(),
            final(self).known_order() == if planned.known_order() is Some
                && planned.entries().len() == old(self).entries().len() {
                planned.known_order()
            } else {
                old(self).known_order()
            },
    {
        if planned.lifecycle_order.is_some() && planned.entries.len() == self.entries.len() {
            assert(planned.entries() == self.entries());
            self.lifecycle_order = planned.lifecycle_order;
        }
    }

    /// What the providers answer about their place in the lifecycle, in
    /// registration order.
    pub fn provider_entries_snapshot(&self) -> (nodes: Vec<Node>)
        ensures
            reads_nodes(self.entries(), nodes@),
    {
        let mut nodes: Vec<Node> = Vec::new();
        let mut at: usize = 0;
        while at < self.entries.len()
            invariant
                at <= self.entries@.len(),
                nodes@.len() == at,
                forall|i: int|
                    0 <= i < at ==> reads_node(self.entries@[i], #[trigger] nodes@[i]),
            decreases self.entries@.len() - at,
        {
            let entry = &self.entries[at];
            let order = order_of(&entry.handle);
            assert(answers_order(entry.handle, order));
            let (before, after) = order.into_types();
            let priority = lifecycle_priority(&entry.handle);
            let name = name_of(&entry.handle);
            nodes.push(Node { type_id: entry.type_id, priority, before, after, name });
            at = at + 1;
        }
        nodes
    }

    /// The providers of types `ids`, without those that are not registered.
    fn providers_from_type_ids(&self, ids: &Vec<TypeId>) -> (providers: Vec<DynProvider<S>>)
        requires
            self.well_formed(),
        ensures
            providers@ == found(self.entries(), ids@),
    {
        let mut providers: Vec<DynProvider<S>> = Vec::new();
        let mut at: usize = 0;
        assert(ids@.take(0) == Seq::<TypeId>::empty());
        while at < ids.len()
            invariant
                at <= ids@.len(),
                self.well_formed(),
                providers@ == found(self.entries(), ids@.take(at as int)),
            decreases ids@.len() - at,
        {
            assert(ids@.take(at + 1).drop_last() == ids@.take(at as int));
            if let Some(place) = self.position_of(&ids[at]) {
                assert(self.entries()[place as int].type_id == ids@[at as int]);
                providers.push(share(&self.entries[place].handle));
            }
            at = at + 1;
        }
        assert(ids@.take(at as int) == ids@);
        providers
    }

    /// The types of the entries that `order` names by place.
    fn types_at(&self, order: &Vec<usize>) -> (types: Vec<TypeId>)
        requires
            forall|k: int| 0 <= k < order@.len() ==> #[trigger] order@[k] < self.entries().len(),
        ensures
            types@ == arranged_types(self.entries(), order@),
    {
        let mut types: Vec<TypeId> = Vec::new();
        let mut at: usize = 0;
        while at < order.len()
            invariant
                at <= order@.len(),
                forall|k: int|
                    0 <= k < order@.len() ==> #[trigger] order@[k] < self.entries().len(),
                types@.len() == at,
                forall|k: int|
                    0 <= k < at ==> types@[k] == self.entries@[#[trigger] order@[k] as int].type_id,
            decreases order@.len() - at,
        {
            types.push(self.entries[order[at]].type_id);
            at = at + 1;
        }
        types
    }

    /// The handles of the entries that `order` names by place.
    fn handles_at(&self, order: &Vec<usize>) -> (providers: Vec<DynProvider<S>>)
        requires
            forall|k: int| 0 <= k < order@.len() ==> #[trigger] order@[k] < self.entries().len(),
        ensures
            providers@ == arranged(self.entries(), order@),
    {
        let mut providers: Vec<DynProvider<S>> = Vec::new();
        let mut at: usize = 0;
        while at < order.len()
            invariant
                at <= order@.len(),
                forall|k: int|
                    0 <= k < order@.len() ==> #[trigger] order@[k] < self.entries().len(),
                providers@.len() == at,
                forall|k: int|
                    0 <= k < at ==> providers@[k]
                        == self.entries@[#[trigger] order@[k] as int].handle,
            decreases order@.len() - at,
        {
            providers.push(share(&self.entries[order[at]].handle));
            at = at + 1;
        }
        providers
    }

    /// The lifecycle plan, built once and then kept until the next
    /// registration.
    ///
    /// All lifecycle phases use the same plan, so reload is a boot emulation
    /// over the same provider order.
    pub(crate) fn lifecycle_plan(&mut self) -> (plan: Result<Vec<DynProvider<S>>>)
        requires
            old(self).well_formed(),
        ensures
            final(self).well_formed(),
            old(self).plans(plan_view(plan), *final(self)),
    {
        if let Some(types) = &self.lifecycle_order {
            return Ok(self.providers_from_type_ids(types));
        }
        let nodes = self.provider_entries_snapshot();
        proof {
            assert forall|i: int, j: int| 0 <= i < j < nodes@.len() implies (
            #[trigger] nodes@[i]).type_id != (#[trigger] nodes@[j]).type_id by {
                assert(reads_node(self.entries()[i], nodes@[i]));
                assert(reads_node(self.entries()[j], nodes@[j]));
            }
        }
        match order_provider_entries(&nodes) {
            Err(e) => Err(e),
            Ok(order) => {
                proof {
                    lifecycle_order_places_each_once(nodes@, order@);
                }
                let types = self.types_at(&order);
                let providers = self.handles_at(&order);
                self.lifecycle_order = Some(types);
                proof {
                    assert(reads_nodes(self.entries(), nodes@));
                    assert(is_lifecycle_order(nodes@, order@));
                }
                Ok(providers)
            },
        }
    }

    /// The providers' display names, for diagnostics.
    pub fn list_names(&self) -> (names: Vec<&'static str>)
        ensures
            reads_names(handles(self.entries()), names@),
    {
        names_of(&self.providers())
    }

    /// The providers' display names in lifecycle order.
    pub fn lifecycle_names(&mut self) -> (result: Result<Vec<&'static str>>)
        requires
            old(self).well_formed(),
        ensures
            final(self).well_formed(),
            exists|plan: Result<Seq<DynProvider<S>>>| #[trigger]
                old(self).plans(plan, *final(self)) && match (plan, result) {
                    (Ok(providers), Ok(names)) => reads_names(providers, names@),
                    (Err(a), Err(b)) => a == b,
                    _ => false,
                },
    {
        let plan = self.lifecycle_plan();
        assert(old(self).plans(plan_view(plan), *self));
        match plan {
            Ok(providers) => Ok(names_of(&providers)),
            Err(e) => Err(e),
        }
    }

    /// Validates all registered providers in lifecycle order, up to the first
    /// that fails.
    pub fn validate_all(&mut self, state: &S) -> (outcome: Result<()>)
        requires
            old(self).well_formed(),
        ensures
            final(self).well_formed(),
            exists|plan: Result<Seq<DynProvider<S>>>| #[trigger]
                old(self).plans(plan, *final(self)) && match plan {
                    Ok(providers) => validation(providers, state, outcome),
                    Err(e) => outcome == Err::<(), Error>(e),
                },
    {
        let plan = self.lifecycle_plan();
        assert(old(self).plans(plan_view(plan), *self));
        match plan {
            Ok(providers) => validate_each(&providers, state),
            Err(e) => Err(e),
        }
    }
}

/// Validates the providers one after another, up to the first that fails.
fn validate_each<S: 'static>(providers: &Vec<DynProvider<S>>, state: &S) -> (outcome: Result<()>)
    ensures
        validation(providers@, state, outcome),
{
    let mut at: usize = 0;
    while at < providers.len()
        invariant
            accept(providers@, state, at as int),
        decreases providers@.len() - at,
    {
        let name = name_of(&providers[at]);
        let answer = validate_with(&providers[at], state);
        assert(answers_validation(providers@[at as int], state, answer));
        match answer {
            Ok(()) => {
                assert(accepts(providers@[at as int], state));
            },
            Err(failure) => {
                let e = failure.into_validate(name);
                assert(e == failure.validating(name));
                assert(rejects(providers@[at as int], state, e));
                return Err(e);
            },
        }
        at = at + 1;
    }
    Ok(())
}

impl<S: 'static> Default for Registry<S> {
    fn default() -> (registry: Self)
        ensures
            registry.well_formed(),
            registry.entries() == Seq::<ProviderEntry<S>>::empty(),
            registry.known_order() is None,
    {
        Registry::new()
    }
}

} // verus!
