//! What holds of a registry after any sequence of calls.
//!
//! A history is what happens to a registry from its making on: registrations, and
//! calls that ask for the lifecycle order. The other calls leave it as it is.
use std::sync::Arc;
use vstd::prelude::*;
use crate::registry::error::Result;
use crate::registry::handles;
use crate::registry::identity::made_from;
use crate::registry::identity::made_only_from;
use crate::registry::identity::type_id;
use crate::registry::laws::alike;
use crate::registry::laws::every_plan_is_a_lifecycle_order;
use crate::registry::laws::lemma_alike_register_the_same;
use crate::registry::laws::planning_depends_on_answers_alone;
use crate::registry::laws::steady;
use crate::registry::lifecycle::is_lifecycle_order;
use crate::registry::lifecycle::Node;
use crate::registry::provider::leads_to;
use crate::registry::provider::DynProvider;
use crate::registry::provider::Provider;
use crate::registry::reads_node;
use crate::registry::reads_nodes;
use crate::registry::registered;
use crate::registry::ProviderEntry;
use crate::registry::Registry;

verus! {

/// One call in a history.
#[verifier::reject_recursive_types(S)]
pub enum Step<S> {
    /// A registration, of this entry where its type is new.
    Registered(ProviderEntry<S>),
    /// A call that asks for the lifecycle order.
    Planned,
}

/// What a call makes of a registry.
pub open spec fn stepped<S: 'static>(
    before: Registry<S>,
    step: Step<S>,
    after: Registry<S>,
) -> bool {
    match step {
        Step::Registered(entry) => if registered(before.entries(), entry.type_id) {
            after == before
        } else {
            after.entries() == before.entries().push(entry) && after.known_order() is None
        },
        Step::Planned => exists|plan: Result<Seq<DynProvider<S>>>| #[trigger]
            before.plans(plan, after),
    }
}

/// `states` are a registry from its making on, one more after each step.
pub open spec fn is_history<S: 'static>(
    states: Seq<Registry<S>>,
    steps: Seq<Step<S>>,
) -> bool {
    &&& states.len() == steps.len() + 1
    &&& states[0].entries().len() == 0
    &&& states[0].known_order() is None
    &&& forall|k: int|
        0 <= k < steps.len() ==> stepped(states[k], #[trigger] steps[k], states[k + 1])
}

/// The entries that were registered, in order, repeated types too.
pub open spec fn offered<S>(steps: Seq<Step<S>>) -> Seq<ProviderEntry<S>>
    decreases steps.len(),
{
    if steps.len() == 0 {
        Seq::empty()
    } else {
        match steps.last() {
            Step::Registered(entry) => offered(steps.drop_last()).push(entry),
            Step::Planned => offered(steps.drop_last()),
        }
    }
}

/// Of the entries offered, the first of each type, in order.
pub open spec fn firsts<S>(items: Seq<ProviderEntry<S>>) -> Seq<ProviderEntry<S>>
    decreases items.len(),
{
    if items.len() == 0 {
        Seq::empty()
    } else if registered(firsts(items.drop_last()), items.last().type_id) {
        firsts(items.drop_last())
    } else {
        firsts(items.drop_last()).push(items.last())
    }
}

/// The entry at `i` is the first of its type.
pub open spec fn is_first<S>(items: Seq<ProviderEntry<S>>, i: int) -> bool {
    &&& 0 <= i < items.len()
    &&& forall|j: int| 0 <= j < i ==> (#[trigger] items[j]).type_id != items[i].type_id
}

/// A registration is a step: `item` is offered as an entry of its type, which the
/// registry takes where the type is new.
pub proof fn registration_is_a_step<S: 'static, C: Provider<S>>(
    before: Registry<S>,
    item: Arc<C>,
    after: Registry<S>,
) -> (entry: ProviderEntry<S>)
    requires
        before.registers(item, after),
    ensures
        stepped(before, Step::Registered(entry), after),
        entry.type_id == type_id::<C>(),
        !registered(before.entries(), type_id::<C>()) ==> made_from(entry.any, item) && leads_to(
            entry.handle,
            item,
        ),
{
    if registered(before.entries(), type_id::<C>()) {
        let i = choose|i: int|
            0 <= i < before.entries().len() && (#[trigger] before.entries()[i]).type_id
                == type_id::<C>();
        before.entries()[i]
    } else {
        let entry = after.entries().last();
        assert(after.entries() =~= after.entries().drop_last().push(entry));
        entry
    }
}

/// A history without its last step.
proof fn lemma_shorter_history<S: 'static>(states: Seq<Registry<S>>, steps: Seq<Step<S>>)
    requires
        is_history(states, steps),
        steps.len() > 0,
    ensures
        is_history(states.drop_last(), steps.drop_last()),
        stepped(states[states.len() - 2], steps.last(), states.last()),
{
    let shorter = states.drop_last();
    assert forall|k: int| 0 <= k < steps.drop_last().len() implies stepped(
        shorter[k],
        #[trigger] steps.drop_last()[k],
        shorter[k + 1],
    ) by {
        assert(steps.drop_last()[k] == steps[k]);
    }
    assert(stepped(states[steps.len() - 1], steps[steps.len() - 1], states[steps.len() - 1 + 1]));
}

/// After any history the registry is well formed, and holds the first entry of
/// each type that was offered, in the order in which they were offered.
pub proof fn history_keeps_the_first_of_each_type<S: 'static>(
    states: Seq<Registry<S>>,
    steps: Seq<Step<S>>,
)
    requires
        is_history(states, steps),
    ensures
        states.last().well_formed(),
        states.last().entries() == firsts(offered(steps)),
    decreases steps.len(),
{
    let last = states.last();
    if steps.len() == 0 {
        assert(last.entries() =~= firsts(offered(steps)));
    } else {
        lemma_shorter_history(states, steps);
        history_keeps_the_first_of_each_type(states.drop_last(), steps.drop_last());
        let before = states.drop_last().last();
        assert(before == states[states.len() - 2]);
        match steps.last() {
            Step::Registered(entry) => {
                assert(offered(steps).drop_last() =~= offered(steps.drop_last()));
                if !registered(before.entries(), entry.type_id) {
                    assert forall|i: int, j: int| 0 <= i < j < last.entries().len() implies (
                    #[trigger] last.entries()[i]).type_id != (
                    #[trigger] last.entries()[j]).type_id by {
                        assert(last.entries()[i] == before.entries()[i]);
                    }
                }
            },
            Step::Planned => {
                let plan = choose|plan: Result<Seq<DynProvider<S>>>| #[trigger]
                    before.plans(plan, last);
                lemma_planning_keeps_well_formed(before, plan, last);
            },
        }
    }
}

/// A registry that is well formed stays so when its order is asked for.
proof fn lemma_planning_keeps_well_formed<S: 'static>(
    before: Registry<S>,
    plan: Result<Seq<DynProvider<S>>>,
    after: Registry<S>,
)
    requires
        before.well_formed(),
        before.plans(plan, after),
    ensures
        after.well_formed(),
{
    if let Ok(providers) = plan {
        let (nodes, order) = every_plan_is_a_lifecycle_order(before, providers, after);
        assert(reads_nodes(after.entries(), nodes) && is_lifecycle_order(nodes, order));
    }
}

/// The first entries stand in the order in which they were offered: `places` says
/// where each of them was, and names every place at which a type came first.
pub proof fn firsts_stand_in_order<S>(items: Seq<ProviderEntry<S>>) -> (places: Seq<int>)
    ensures
        places.len() == firsts(items).len(),
        forall|k: int|
            0 <= k < places.len() ==> is_first(items, #[trigger] places[k]) && firsts(items)[k]
                == items[places[k]],
        forall|a: int, b: int|
            0 <= a < b < places.len() ==> #[trigger] places[a] < #[trigger] places[b],
        forall|i: int| #[trigger] is_first(items, i) ==> places.contains(i),
        forall|i: int|
            0 <= i < items.len() ==> registered(firsts(items), (#[trigger] items[i]).type_id),
    decreases items.len(),
{
    if items.len() == 0 {
        Seq::empty()
    } else {
        let shorter = items.drop_last();
        let last = items.len() - 1;
        let earlier = firsts_stand_in_order(shorter);
        assert forall|i: int| 0 <= i < last implies is_first(items, i) == is_first(shorter, i) by {
            assert(items[i] == shorter[i]);
            assert(forall|j: int| 0 <= j < i ==> items[j] == shorter[j]);
        }
        if registered(firsts(shorter), items.last().type_id) {
            let k = choose|k: int|
                0 <= k < firsts(shorter).len() && (#[trigger] firsts(shorter)[k]).type_id
                    == items.last().type_id;
            assert(is_first(shorter, earlier[k]));
            assert(items[earlier[k]].type_id == items[last].type_id);
            assert(!is_first(items, last));
            assert forall|i: int| #[trigger] is_first(items, i) implies earlier.contains(i) by {
                assert(is_first(shorter, i));
            }
            assert forall|i: int| 0 <= i < items.len() implies registered(
                firsts(items),
                (#[trigger] items[i]).type_id,
            ) by {
                if i < last {
                    assert(items[i] == shorter[i]);
                }
            }
            assert forall|k: int| 0 <= k < earlier.len() implies is_first(
                items,
                #[trigger] earlier[k],
            ) && firsts(items)[k] == items[earlier[k]] by {
                assert(is_first(shorter, earlier[k]));
            }
            earlier
        } else {
            let places = earlier.push(last);
            assert(is_first(items, last)) by {
                assert forall|j: int| 0 <= j < last implies (#[trigger] items[j]).type_id
                    != items[last].type_id by {
                    assert(shorter[j] == items[j]);
                    assert(registered(firsts(shorter), shorter[j].type_id));
                }
            }
            assert forall|k: int| 0 <= k < places.len() implies is_first(
                items,
                #[trigger] places[k],
            ) && firsts(items)[k] == items[places[k]] by {
                if k < earlier.len() {
                    assert(is_first(shorter, earlier[k]));
                }
            }
            assert forall|a: int, b: int| 0 <= a < b < places.len() implies #[trigger] places[a]
                < #[trigger] places[b] by {
                assert(is_first(shorter, earlier[a]));
            }
            assert forall|i: int| #[trigger] is_first(items, i) implies places.contains(i) by {
                if i < last {
                    assert(is_first(shorter, i));
                    let k = choose|k: int| 0 <= k < earlier.len() && earlier[k] == i;
                    assert(places[k] == i);
                } else {
                    assert(places[earlier.len() as int] == i);
                }
            }
            assert forall|i: int| 0 <= i < items.len() implies registered(
                firsts(items),
                (#[trigger] items[i]).type_id,
            ) by {
                if i < last {
                    assert(items[i] == shorter[i]);
                    let k = choose|k: int|
                        0 <= k < firsts(shorter).len() && (#[trigger] firsts(shorter)[k]).type_id
                            == shorter[i].type_id;
                    assert(firsts(items)[k] == firsts(shorter)[k]);
                } else {
                    assert(firsts(items)[firsts(shorter).len() as int] == items[last]);
                }
            }
            places
        }
    }
}

/// Entries of different types are all kept, each at its place, and the nodes that
/// the lifecycle order is worked out from stand in the same order.
pub proof fn different_types_stand_as_offered<S: 'static>(
    items: Seq<ProviderEntry<S>>,
    nodes: Seq<Node>,
)
    requires
        forall|i: int, j: int|
            0 <= i < j < items.len() ==> (#[trigger] items[i]).type_id != (
            #[trigger] items[j]).type_id,
        reads_nodes(firsts(items), nodes),
    ensures
        firsts(items) == items,
        nodes.len() == items.len(),
        forall|i: int|
            0 <= i < items.len() ==> reads_node(items[i], #[trigger] nodes[i]) && nodes[i].type_id
                == items[i].type_id,
{
    lemma_different_types(items);
}

proof fn lemma_different_types<S>(items: Seq<ProviderEntry<S>>)
    requires
        forall|i: int, j: int|
            0 <= i < j < items.len() ==> (#[trigger] items[i]).type_id != (
            #[trigger] items[j]).type_id,
    ensures
        firsts(items) == items,
    decreases items.len(),
{
    if items.len() > 0 {
        let shorter = items.drop_last();
        assert forall|i: int, j: int| 0 <= i < j < shorter.len() implies (
        #[trigger] shorter[i]).type_id != (#[trigger] shorter[j]).type_id by {
            assert(items[i].type_id != items[j].type_id);
        }
        lemma_different_types(shorter);
        assert(!registered(shorter, items.last().type_id)) by {
            if registered(shorter, items.last().type_id) {
                let i = choose|i: int|
                    0 <= i < shorter.len() && (#[trigger] shorter[i]).type_id
                        == items.last().type_id;
                assert(items[i].type_id != items[items.len() - 1].type_id);
            }
        }
        assert(shorter.push(items.last()) =~= items);
    } else {
        assert(firsts(items) =~= items);
    }
}

/// After any history a type resolves to the provider that was registered first
/// for it, and to none where none was.
pub proof fn type_resolves_to_its_first_registration<S: 'static, T: Provider<S>>(
    states: Seq<Registry<S>>,
    steps: Seq<Step<S>>,
    answer: Option<Arc<T>>,
)
    requires
        is_history(states, steps),
        states.last().resolves(answer),
    ensures
        !registered(offered(steps), type_id::<T>()) ==> answer is None,
        forall|i: int, item: Arc<T>|
            is_first(offered(steps), i) && offered(steps)[i].type_id == type_id::<T>()
                && #[trigger] made_from(offered(steps)[i].any, item) ==> answer == Some(item),
{
    let items = offered(steps);
    let entries = states.last().entries();
    history_keeps_the_first_of_each_type(states, steps);
    let places = firsts_stand_in_order(items);
    if answer is Some {
        let k = choose|k: int|
            0 <= k < entries.len() && (#[trigger] entries[k]).type_id == type_id::<T>();
        assert(is_first(items, places[k]));
        assert(items[places[k]].type_id == type_id::<T>());
    }
    assert forall|i: int, item: Arc<T>|
        is_first(items, i) && items[i].type_id == type_id::<T>() && #[trigger] made_from(
            items[i].any,
            item,
        ) implies answer == Some(item) by {
        assert(places.contains(i));
        let k = choose|k: int| 0 <= k < places.len() && places[k] == i;
        assert(entries[k] == items[i]);
        assert(made_from(entries[k].any, item));
    }
}

/// Resolving changes nothing: a type resolves to the same provider every time.
pub proof fn resolving_again_gives_the_same<S: 'static, T: Provider<S>>(
    registry: Registry<S>,
    first: Option<Arc<T>>,
    second: Option<Arc<T>>,
)
    requires
        registry.well_formed(),
        registry.resolves(first),
        registry.resolves(second),
    ensures
        first == second,
{
    let entries = registry.entries();
    if let Some(a) = first {
        let i = choose|i: int|
            0 <= i < entries.len() && (#[trigger] entries[i]).type_id == type_id::<T>()
                && made_only_from(entries[i].any, a);
        assert(made_from(entries[i].any, a));
        if let Some(b) = second {
            let j = choose|j: int|
                0 <= j < entries.len() && (#[trigger] entries[j]).type_id == type_id::<T>()
                    && made_only_from(entries[j].any, b);
            assert(made_from(entries[j].any, b));
        }
    } else if let Some(b) = second {
        let j = choose|j: int|
            0 <= j < entries.len() && (#[trigger] entries[j]).type_id == type_id::<T>()
                && made_only_from(entries[j].any, b);
        assert(made_from(entries[j].any, b));
    }
}

/// After any history there is one provider for each type that was offered, and a
/// plan, where there is one, holds as many.
pub proof fn one_provider_for_each_type<S: 'static>(
    states: Seq<Registry<S>>,
    steps: Seq<Step<S>>,
    plan: Result<Seq<DynProvider<S>>>,
    after: Registry<S>,
)
    requires
        is_history(states, steps),
        states.last().plans(plan, after),
    ensures
        forall|i: int|
            0 <= i < offered(steps).len() ==> registered(
                states.last().entries(),
                (#[trigger] offered(steps)[i]).type_id,
            ),
        forall|k: int|
            0 <= k < states.last().entries().len() ==> registered(
                offered(steps),
                (#[trigger] states.last().entries()[k]).type_id,
            ),
        forall|a: int, b: int|
            0 <= a < b < states.last().entries().len() ==> (
            #[trigger] states.last().entries()[a]).type_id != (
            #[trigger] states.last().entries()[b]).type_id,
        plan matches Ok(providers) ==> providers.len() == handles(states.last().entries()).len(),
{
    history_keeps_the_first_of_each_type(states, steps);
    let places = firsts_stand_in_order(offered(steps));
    let entries = states.last().entries();
    assert forall|k: int| 0 <= k < entries.len() implies registered(
        offered(steps),
        (#[trigger] entries[k]).type_id,
    ) by {
        assert(is_first(offered(steps), places[k]));
        assert(offered(steps)[places[k]].type_id == entries[k].type_id);
    }
    if let Ok(providers) = plan {
        let (nodes, order) = every_plan_is_a_lifecycle_order(states.last(), providers, after);
    }
}

/// Offers that are alike leave the same types and providers.
proof fn lemma_firsts_alike<S>(a: Seq<ProviderEntry<S>>, b: Seq<ProviderEntry<S>>)
    requires
        alike(a, b),
    ensures
        alike(firsts(a), firsts(b)),
    decreases a.len(),
{
    if a.len() > 0 {
        let last = a.len() - 1;
        assert(a[last].type_id == b[last].type_id);
        assert forall|i: int| 0 <= i < last implies a.drop_last()[i].type_id
            == b.drop_last()[i].type_id && a.drop_last()[i].handle == b.drop_last()[i].handle by {
            assert(a[i].handle == b[i].handle);
        }
        lemma_firsts_alike(a.drop_last(), b.drop_last());
        lemma_alike_register_the_same(
            firsts(a.drop_last()),
            firsts(b.drop_last()),
            a.last().type_id,
        );
    }
}

/// The nodes that the lifecycle order is worked out from stand in registration
/// order: one for each type that was offered, with what the provider answers that
/// was registered first for it.
pub proof fn snapshot_stands_in_registration_order<S: 'static>(
    states: Seq<Registry<S>>,
    steps: Seq<Step<S>>,
    nodes: Seq<Node>,
)
    requires
        is_history(states, steps),
        reads_nodes(states.last().entries(), nodes),
    ensures
        nodes.len() == firsts(offered(steps)).len(),
        forall|i: int|
            0 <= i < nodes.len() ==> (#[trigger] nodes[i]).type_id == firsts(
                offered(steps),
            )[i].type_id && reads_node(firsts(offered(steps))[i], nodes[i]),
{
    history_keeps_the_first_of_each_type(states, steps);
    assert forall|i: int| 0 <= i < nodes.len() implies (#[trigger] nodes[i]).type_id == firsts(
        offered(steps),
    )[i].type_id && reads_node(firsts(offered(steps))[i], nodes[i]) by {
        assert(reads_node(states.last().entries()[i], nodes[i]));
    }
}

/// Asking for the order in between makes no difference to the order in the end:
/// two registries that the same providers were offered to, in the same order, have
/// the same plan, where providers answer the same every time.
pub proof fn planning_in_between_makes_no_difference<S: 'static>(
    states1: Seq<Registry<S>>,
    steps1: Seq<Step<S>>,
    plan1: Result<Seq<DynProvider<S>>>,
    after1: Registry<S>,
    states2: Seq<Registry<S>>,
    steps2: Seq<Step<S>>,
    plan2: Result<Seq<DynProvider<S>>>,
    after2: Registry<S>,
)
    requires
        is_history(states1, steps1),
        is_history(states2, steps2),
        alike(offered(steps1), offered(steps2)),
        steady(states1.last().entries()),
        states1.last().plans(plan1, after1),
        states2.last().plans(plan2, after2),
    ensures
        match (plan1, plan2) {
            (Ok(a), Ok(b)) => a == b,
            (Err(a), Err(b)) => exists|text: Seq<char>| #[trigger] a.says(text) && b.says(text),
            _ => false,
        },
{
    history_keeps_the_first_of_each_type(states1, steps1);
    history_keeps_the_first_of_each_type(states2, steps2);
    lemma_firsts_alike(offered(steps1), offered(steps2));
    planning_depends_on_answers_alone(
        states1.last(),
        plan1,
        after1,
        states2.last(),
        plan2,
        after2,
    );
}

} // verus!
