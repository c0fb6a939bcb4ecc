//! What holds of the registry as a whole, over several of its operations.
use std::any::TypeId;
use std::sync::Arc;
use vstd::prelude::*;
use crate::registry::arranged;
use crate::registry::arranged_types;
use crate::registry::distinct_entries;
use crate::registry::entry_of;
use crate::registry::error::Error;
use crate::registry::error::Result;
use crate::registry::found;
use crate::registry::handles;
use crate::registry::identity::made_from;
use crate::registry::identity::made_only_from;
use crate::registry::identity::type_id;
use crate::registry::lifecycle::blocked_names;
use crate::registry::lifecycle::cycle_message;
use crate::registry::lifecycle::cycle_message_is_unique;
use crate::registry::lifecycle::edge;
use crate::registry::lifecycle::has_cycle;
use crate::registry::lifecycle::holds;
use crate::registry::lifecycle::is_lifecycle_order;
use crate::registry::lifecycle::is_over;
use crate::registry::lifecycle::is_path;
use crate::registry::lifecycle::is_run;
use crate::registry::lifecycle::lemma_distinct_indices;
use crate::registry::lifecycle::lifecycle_order_is_unique;
use crate::registry::lifecycle::lifecycle_order_places_each_once;
use crate::registry::lifecycle::next_up;
use crate::registry::lifecycle::Node;
use crate::registry::lifecycle::order_respects_edges;
use crate::registry::lifecycle::ordered_providers_have_no_cycle;
use crate::registry::lifecycle::preferred;
use crate::registry::lifecycle::ready;
use crate::registry::plan_of;
use crate::registry::provider::handles_to_one_provider_are_the_same;
use crate::registry::reads_node;
use crate::registry::provider::answers_name;
use crate::registry::provider::DynProvider;
use crate::registry::provider::Provider;
use crate::registry::ProviderEntry;
use crate::registry::reads_names;
use crate::registry::reads_nodes;
use crate::registry::registered;
use crate::registry::Registry;
use crate::registry::sweep::Sweep;
use crate::text::views;

verus! {

/// A provider that was registered is what its type resolves to.
pub proof fn resolve_gives_back_what_was_registered<S: 'static, C: Provider<S>>(
    before: Registry<S>,
    item: Arc<C>,
    after: Registry<S>,
    answer: Option<Arc<C>>,
)
    requires
        before.well_formed(),
        !registered(before.entries(), type_id::<C>()),
        before.registers(item, after),
        after.well_formed(),
        after.resolves(answer),
    ensures
        answer == Some(item),
{
    let last = after.entries().len() - 1;
    assert(after.entries()[last] == after.entries().last());
    assert(made_from(after.entries()[last].any, item));
    assert forall|i: int|
        0 <= i < after.entries().len() && (#[trigger] after.entries()[i]).type_id == type_id::<
            C,
        >() implies i == last by {
        if i < last {
            assert(after.entries()[i] == after.entries().drop_last()[i]);
            assert(before.entries()[i].type_id == type_id::<C>());
        }
    }
}

/// Registering another provider does not change what a type resolves to.
pub proof fn resolving_survives_registration<S: 'static, T: Provider<S>, C: Provider<S>>(
    before: Registry<S>,
    answer: Arc<T>,
    item: Arc<C>,
    after: Registry<S>,
)
    requires
        before.resolves(Some(answer)),
        before.registers(item, after),
    ensures
        after.resolves(Some(answer)),
{
    if !registered(before.entries(), type_id::<C>()) {
        let i = choose|i: int|
            0 <= i < before.entries().len() && (#[trigger] before.entries()[i]).type_id
                == type_id::<T>() && made_only_from(
                before.entries()[i].any,
                answer,
            );
        assert(after.entries().drop_last()[i] == after.entries()[i]);
    }
}

/// A type is registered once: registering it again changes nothing.
pub proof fn registering_again_changes_nothing<S: 'static, C: Provider<S>>(
    before: Registry<S>,
    first: Arc<C>,
    between: Registry<S>,
    second: Arc<C>,
    after: Registry<S>,
)
    requires
        before.registers(first, between),
        between.registers(second, after),
    ensures
        after == between,
{
    if !registered(before.entries(), type_id::<C>()) {
        let last = between.entries().len() - 1;
        assert(between.entries()[last] == between.entries().last());
        assert(registered(between.entries(), type_id::<C>()));
    }
}

/// Looking providers up by the types of an arrangement gives the arrangement.
proof fn lemma_found_is_arranged<S: 'static>(entries: Seq<ProviderEntry<S>>, order: Seq<usize>)
    requires
        distinct_entries(entries),
        forall|k: int| 0 <= k < order.len() ==> #[trigger] order[k] < entries.len(),
    ensures
        found(entries, arranged_types(entries, order)) == arranged(entries, order),
    decreases order.len(),
{
    let types = arranged_types(entries, order);
    if order.len() > 0 {
        let shorter = order.drop_last();
        assert forall|k: int| 0 <= k < shorter.len() implies #[trigger] shorter[k]
            < entries.len() by {
            assert(order[k] < entries.len());
        }
        lemma_found_is_arranged(entries, shorter);
        assert(types.drop_last() =~= arranged_types(entries, shorter));
        let at = order.last() as int;
        assert(order[order.len() - 1] < entries.len());
        assert(types.last() == entries[at].type_id);
        assert(registered(entries, types.last()));
        assert(entry_of(entries, types.last()) == entries[at]);
        assert(arranged(entries, order) =~= arranged(entries, shorter).push(entries[at].handle));
    } else {
        assert(found(entries, types) =~= arranged(entries, order));
    }
}

/// Every plan is a lifecycle order of what the registered providers answered, and
/// holds each of them exactly once.
pub proof fn every_plan_is_a_lifecycle_order<S: 'static>(
    registry: Registry<S>,
    providers: Seq<DynProvider<S>>,
    after: Registry<S>,
) -> (witness: (Seq<Node>, Seq<usize>))
    requires
        registry.well_formed(),
        registry.plans(Ok(providers), after),
    ensures
        reads_nodes(registry.entries(), witness.0),
        is_lifecycle_order(witness.0, witness.1),
        providers == arranged(registry.entries(), witness.1),
        after.known_order() == Some(arranged_types(registry.entries(), witness.1)),
        providers.len() == registry.entries().len(),
        witness.1.no_duplicates(),
        forall|k: int|
            0 <= k < witness.1.len() ==> #[trigger] witness.1[k] < registry.entries().len(),
        forall|i: int| 0 <= i < registry.entries().len() ==> #[trigger] holds(witness.1, i),
{
    let entries = registry.entries();
    let (nodes, order) = match registry.known_order() {
        Some(types) => choose|nodes: Seq<Node>, order: Seq<usize>|
            #![trigger reads_nodes(entries, nodes), is_lifecycle_order(nodes, order)]
            reads_nodes(entries, nodes) && is_lifecycle_order(nodes, order) && types
                == arranged_types(entries, order),
        None => {
            let nodes = choose|nodes: Seq<Node>| #[trigger]
                reads_nodes(entries, nodes) && plan_of(
                    entries,
                    nodes,
                    Ok(providers),
                    after.known_order(),
                );
            let order = choose|order: Seq<usize>| #[trigger]
                is_lifecycle_order(nodes, order) && providers == arranged(entries, order)
                    && after.known_order() == Some(arranged_types(entries, order));
            (nodes, order)
        },
    };
    lifecycle_order_places_each_once(nodes, order);
    lemma_found_is_arranged(entries, order);
    (nodes, order)
}

/// The plan is kept until the next registration: all lifecycle phases go by the
/// same one.
pub proof fn plan_is_kept<S: 'static>(
    registry: Registry<S>,
    providers: Seq<DynProvider<S>>,
    between: Registry<S>,
    again: Result<Seq<DynProvider<S>>>,
    after: Registry<S>,
)
    requires
        registry.well_formed(),
        registry.plans(Ok(providers), between),
        between.plans(again, after),
    ensures
        again == Ok::<_, Error>(providers),
        after == between,
{
    let (nodes, order) = every_plan_is_a_lifecycle_order(registry, providers, between);
    lemma_found_is_arranged(registry.entries(), order);
}

/// Planning fails only where a provider must, through others, come before itself,
/// and what was planned has no such provider.
pub proof fn planning_fails_only_on_cycles<S: 'static>(
    registry: Registry<S>,
    plan: Result<Seq<DynProvider<S>>>,
    after: Registry<S>,
)
    requires
        registry.well_formed(),
        registry.plans(plan, after),
    ensures
        exists|nodes: Seq<Node>| #[trigger]
            reads_nodes(registry.entries(), nodes) && (plan is Err <==> has_cycle(nodes)),
        plan is Err ==> after.known_order() is None,
{
    match plan {
        Ok(providers) => {
            let (nodes, order) = every_plan_is_a_lifecycle_order(registry, providers, after);
            ordered_providers_have_no_cycle(nodes, order);
            assert(reads_nodes(registry.entries(), nodes) && !has_cycle(nodes));
        },
        Err(e) => {
            let nodes = choose|nodes: Seq<Node>| #[trigger]
                reads_nodes(registry.entries(), nodes) && plan_of(
                    registry.entries(),
                    nodes,
                    plan,
                    after.known_order(),
                );
            assert(reads_nodes(registry.entries(), nodes) && has_cycle(nodes));
        },
    }
}

/// In a plan, a provider stands after every provider that either of the two named
/// to be first.
pub proof fn plans_respect_hints<S: 'static>(
    registry: Registry<S>,
    providers: Seq<DynProvider<S>>,
    after: Registry<S>,
)
    requires
        registry.well_formed(),
        registry.plans(Ok(providers), after),
    ensures
        exists|nodes: Seq<Node>, order: Seq<usize>|
            #![trigger reads_nodes(registry.entries(), nodes), arranged(registry.entries(), order)]
            reads_nodes(registry.entries(), nodes) && providers == arranged(
                registry.entries(),
                order,
            ) && forall|a: int, b: int|
                0 <= a < order.len() && 0 <= b < order.len() && #[trigger] edge(
                    nodes,
                    order[a] as int,
                    order[b] as int,
                ) ==> a < b,
{
    let (nodes, order) = every_plan_is_a_lifecycle_order(registry, providers, after);
    assert forall|a: int, b: int|
        0 <= a < order.len() && 0 <= b < order.len() && #[trigger] edge(
            nodes,
            order[a] as int,
            order[b] as int,
        ) implies a < b by {
        order_respects_edges(nodes, order, a, b);
    }
}

/// An empty registry plans to do nothing.
pub proof fn empty_registry_plans_nothing<S: 'static>(
    registry: Registry<S>,
    plan: Result<Seq<DynProvider<S>>>,
    after: Registry<S>,
)
    requires
        registry.well_formed(),
        registry.entries().len() == 0,
        registry.plans(plan, after),
    ensures
        plan == Ok::<_, Error>(Seq::<DynProvider<S>>::empty()),
{
    match plan {
        Ok(providers) => {
            let (nodes, order) = every_plan_is_a_lifecycle_order(registry, providers, after);
            assert(providers =~= Seq::<DynProvider<S>>::empty());
        },
        Err(e) => {
            planning_fails_only_on_cycles(registry, plan, after);
            let nodes = choose|nodes: Seq<Node>| #[trigger]
                reads_nodes(registry.entries(), nodes) && has_cycle(nodes);
            let path = choose|path: Seq<int>| #[trigger]
                is_path(nodes, path) && path.first() == path.last();
            assert(edge(nodes, path[0], path[0int + 1]));
        },
    }
}

/// A sweep whose providers settle one after another, whatever the outcomes, comes
/// to each of them in turn and is over after the last.
pub proof fn sweep_comes_to_every_provider<S: 'static>(steps: Seq<Sweep<S>>, k: int)
    requires
        0 <= k < steps.len() <= steps[0].rest().len() + 1,
        forall|i: int|
            0 <= i < steps.len() - 1 ==> #[trigger] steps[i + 1].rest()
                == steps[i].rest().drop_first(),
    ensures
        steps[k].rest() == steps[0].rest().skip(k),
        k < steps[0].rest().len() ==> steps[k].rest()[0] == steps[0].rest()[k],
        k == steps[0].rest().len() ==> steps[k].rest().len() == 0,
    decreases k,
{
    if k > 0 {
        sweep_comes_to_every_provider(steps, k - 1);
        assert(steps[k - 1 + 1].rest() == steps[k - 1].rest().drop_first());
        assert(steps[0].rest().skip(k - 1).drop_first() =~= steps[0].rest().skip(k));
    } else {
        assert(steps[0].rest().skip(0) =~= steps[0].rest());
    }
}

/// Once booting has started, reload goes through the same providers in the same
/// order and shutdown goes through them in the reverse order, until the next
/// registration.
pub proof fn phases_share_one_order<S: 'static>(
    registry: Registry<S>,
    boot: Sweep<S>,
    booted: Registry<S>,
    reload: Result<Sweep<S>>,
    reloaded: Registry<S>,
    shutdown: Result<Sweep<S>>,
    after: Registry<S>,
)
    requires
        registry.well_formed(),
        registry.sweeps(Ok(boot), booted),
        booted.sweeps(reload, reloaded),
        reloaded.sweeps_back(shutdown, after),
    ensures
        reload matches Ok(sweep) && sweep.rest() == boot.rest(),
        shutdown matches Ok(sweep) && sweep.rest() == boot.rest().reverse(),
        reloaded == booted,
        after == booted,
{
    let first = Ok::<_, Error>(boot.rest());
    assert(registry.plans(first, booted));
    let second = choose|plan: Result<Seq<DynProvider<S>>>| #[trigger]
        booted.plans(plan, reloaded) && match (plan, reload) {
            (Ok(providers), Ok(sweep)) => sweep.well_formed() && sweep.rest() == providers,
            (Err(a), Err(b)) => a == b,
            _ => false,
        };
    plan_is_kept(registry, boot.rest(), booted, second, reloaded);
    let third = choose|plan: Result<Seq<DynProvider<S>>>| #[trigger]
        reloaded.plans(plan, after) && match (plan, shutdown) {
            (Ok(providers), Ok(sweep)) => sweep.well_formed() && sweep.rest()
                == providers.reverse(),
            (Err(a), Err(b)) => a == b,
            _ => false,
        };
    plan_is_kept(registry, boot.rest(), booted, third, after);
}

/// Two readings of the providers' answers say the same.
pub open spec fn same_answers(a: Seq<Node>, b: Seq<Node>) -> bool {
    &&& a.len() == b.len()
    &&& forall|i: int|
        #![trigger a[i]]
        #![trigger b[i]]
        0 <= i < a.len() ==> a[i].type_id == b[i].type_id && a[i].priority == b[i].priority
            && a[i].before@ == b[i].before@ && a[i].after@ == b[i].after@ && a[i].name@
            == b[i].name@
}

/// Two lists of entries hold the same types and lead to the same providers.
pub open spec fn alike<S>(a: Seq<ProviderEntry<S>>, b: Seq<ProviderEntry<S>>) -> bool {
    &&& a.len() == b.len()
    &&& forall|i: int|
        #![trigger a[i]]
        #![trigger b[i]]
        0 <= i < a.len() ==> a[i].type_id == b[i].type_id && a[i].handle == b[i].handle
}

/// Registries that are alike register the same types.
pub proof fn lemma_alike_register_the_same<S>(
    a: Seq<ProviderEntry<S>>,
    b: Seq<ProviderEntry<S>>,
    id: TypeId,
)
    requires
        alike(a, b),
    ensures
        registered(a, id) == registered(b, id),
{
    if registered(a, id) {
        let i = choose|i: int| 0 <= i < a.len() && (#[trigger] a[i]).type_id == id;
        assert(b[i].type_id == id);
    }
    if registered(b, id) {
        let i = choose|i: int| 0 <= i < b.len() && (#[trigger] b[i]).type_id == id;
        assert(a[i].type_id == id);
    }
}

/// The same registration keeps two registries alike.
pub proof fn same_registration_keeps_registries_alike<S: 'static, C: Provider<S>>(
    one: Registry<S>,
    after1: Registry<S>,
    two: Registry<S>,
    after2: Registry<S>,
    item: Arc<C>,
)
    requires
        alike(one.entries(), two.entries()),
        one.registers(item, after1),
        two.registers(item, after2),
    ensures
        alike(after1.entries(), after2.entries()),
{
    lemma_alike_register_the_same(one.entries(), two.entries(), type_id::<C>());
    if !registered(one.entries(), type_id::<C>()) {
        let a = after1.entries();
        let b = after2.entries();
        handles_to_one_provider_are_the_same(a.last().handle, b.last().handle, item);
        assert forall|i: int| 0 <= i < a.len() implies a[i].type_id == b[i].type_id && a[i].handle
            == b[i].handle by {
            if i < a.len() - 1 {
                assert(a[i] == a.drop_last()[i] && b[i] == b.drop_last()[i]);
                assert(one.entries()[i].handle == two.entries()[i].handle);
            }
        }
    }
}

/// The providers answer the same about their place in the lifecycle every time.
pub open spec fn steady<S: 'static>(entries: Seq<ProviderEntry<S>>) -> bool {
    forall|a: Seq<Node>, b: Seq<Node>| #[trigger]
        reads_nodes(entries, a) && #[trigger] reads_nodes(entries, b) ==> same_answers(a, b)
}

/// Readings that say the same have the same runs, and these are over alike.
proof fn lemma_same_runs(a: Seq<Node>, b: Seq<Node>, order: Seq<usize>)
    requires
        same_answers(a, b),
    ensures
        is_run(a, order) ==> is_run(b, order),
        is_over(a, order) ==> is_over(b, order),
        cycle_message(a, order) == cycle_message(b, order),
{
    assert forall|i: int, j: int| #[trigger] edge(a, i, j) == edge(b, i, j) by {
        if 0 <= i < a.len() && 0 <= j < a.len() {
            assert(a[i].type_id == b[i].type_id && a[j].type_id == b[j].type_id);
        }
    }
    assert forall|placed: Seq<usize>, i: int| #[trigger]
        ready(a, placed, i) == ready(b, placed, i) by {
        if ready(a, placed, i) {
            assert forall|p: int| #[trigger] edge(b, p, i) implies holds(placed, p) by {
                assert(edge(a, p, i));
            }
        }
        if ready(b, placed, i) {
            assert forall|p: int| #[trigger] edge(a, p, i) implies holds(placed, p) by {
                assert(edge(b, p, i));
            }
        }
    }
    if is_run(a, order) {
        assert forall|k: int| 0 <= k < order.len() implies next_up(
            b,
            order.take(k),
            #[trigger] order[k] as int,
        ) by {
            let placed = order.take(k);
            let i = order[k] as int;
            assert(next_up(a, placed, i));
            assert(ready(a, placed, i));
            assert forall|j: int| #[trigger] ready(b, placed, j) && j != i implies preferred(
                b,
                i,
                j,
            ) by {
                assert(ready(a, placed, j));
                assert(preferred(a, i, j));
                assert(a[i].priority == b[i].priority && a[j].priority == b[j].priority);
            }
        }
    }
    if is_over(a, order) {
        assert forall|i: int| !#[trigger] ready(b, order, i) by {
            assert(!ready(a, order, i));
        }
    }
    lemma_same_blocked_names(a, b, order, a.len());
}

/// Readings that say the same leave the same names blocked.
proof fn lemma_same_blocked_names(a: Seq<Node>, b: Seq<Node>, order: Seq<usize>, n: nat)
    requires
        same_answers(a, b),
        n <= a.len(),
    ensures
        blocked_names(a, order, n) == blocked_names(b, order, n),
    decreases n,
{
    if n > 0 {
        lemma_same_blocked_names(a, b, order, (n - 1) as nat);
        assert(a[n - 1].name@ == b[n - 1].name@);
    }
}

/// What is planned depends on what the providers answer alone, not on whether the
/// order was asked for before: registries that are alike have the same plan, or
/// fail with the same words.
pub proof fn planning_depends_on_answers_alone<S: 'static>(
    one: Registry<S>,
    plan1: Result<Seq<DynProvider<S>>>,
    after1: Registry<S>,
    two: Registry<S>,
    plan2: Result<Seq<DynProvider<S>>>,
    after2: Registry<S>,
)
    requires
        one.well_formed(),
        two.well_formed(),
        alike(one.entries(), two.entries()),
        steady(one.entries()),
        one.plans(plan1, after1),
        two.plans(plan2, after2),
    ensures
        match (plan1, plan2) {
            (Ok(a), Ok(b)) => a == b,
            (Err(a), Err(b)) => exists|text: Seq<char>| #[trigger] a.says(text) && b.says(text),
            _ => false,
        },
{
    assert forall|nodes: Seq<Node>| #[trigger]
        reads_nodes(two.entries(), nodes) implies reads_nodes(one.entries(), nodes) by {
        assert forall|i: int| 0 <= i < nodes.len() implies reads_node(
            one.entries()[i],
            #[trigger] nodes[i],
        ) by {
            assert(reads_node(two.entries()[i], nodes[i]));
        }
    }
    match (plan1, plan2) {
        (Ok(p1), Ok(p2)) => {
            let (n1, o1) = every_plan_is_a_lifecycle_order(one, p1, after1);
            let (n2, o2) = every_plan_is_a_lifecycle_order(two, p2, after2);
            assert(same_answers(n2, n1));
            lemma_same_runs(n2, n1, o2);
            lifecycle_order_is_unique(n1, o1, o2);
            assert(p1 =~= p2) by {
                assert forall|k: int| 0 <= k < o1.len() implies p1[k] == p2[k] by {
                    assert(o1[k] < one.entries().len());
                    assert(one.entries()[o1[k] as int].handle == two.entries()[o1[k] as int].handle);
                }
            }
        },
        (Ok(p1), Err(e2)) => {
            let (n1, o1) = every_plan_is_a_lifecycle_order(one, p1, after1);
            let (n2, o2) = lemma_failed_plan(two, e2, after2);
            assert(same_answers(n1, n2));
            lemma_same_runs(n1, n2, o1);
            ordered_providers_have_no_cycle(n2, o1);
        },
        (Err(e1), Ok(p2)) => {
            let (n2, o2) = every_plan_is_a_lifecycle_order(two, p2, after2);
            let (n1, o1) = lemma_failed_plan(one, e1, after1);
            assert(same_answers(n2, n1));
            lemma_same_runs(n2, n1, o2);
            ordered_providers_have_no_cycle(n1, o2);
        },
        (Err(e1), Err(e2)) => {
            let (n1, o1) = lemma_failed_plan(one, e1, after1);
            let (n2, o2) = lemma_failed_plan(two, e2, after2);
            assert(same_answers(n2, n1));
            lemma_same_runs(n2, n1, o2);
            cycle_message_is_unique(n1, o1, o2);
            assert(e1.says(cycle_message(n1, o1)) && e2.says(cycle_message(n1, o1)));
        },
    }
}

/// What a failed plan rests on.
proof fn lemma_failed_plan<S: 'static>(registry: Registry<S>, e: Error, after: Registry<S>) -> (
    witness: (Seq<Node>, Seq<usize>))
    requires
        registry.plans(Err(e), after),
    ensures
        reads_nodes(registry.entries(), witness.0),
        has_cycle(witness.0),
        is_run(witness.0, witness.1),
        is_over(witness.0, witness.1),
        e.says(cycle_message(witness.0, witness.1)),
{
    let nodes = choose|nodes: Seq<Node>| #[trigger]
        reads_nodes(registry.entries(), nodes) && plan_of(
            registry.entries(),
            nodes,
            Err(e),
            after.known_order(),
        );
    let order = choose|order: Seq<usize>|
        is_run(nodes, order) && is_over(nodes, order) && e.says(
            #[trigger] cycle_message(nodes, order),
        );
    (nodes, order)
}

/// The entries of `s` that `order` names by place.
spec fn picked<A>(s: Seq<A>, order: Seq<usize>) -> Seq<A> {
    Seq::new(order.len(), |k: int| s[order[k] as int])
}

/// Naming every place once only rearranges a sequence.
proof fn lemma_picked_is_permutation<A>(s: Seq<A>, order: Seq<usize>)
    requires
        order.len() == s.len(),
        order.no_duplicates(),
        forall|k: int| 0 <= k < order.len() ==> #[trigger] order[k] < s.len(),
    ensures
        picked(s, order).to_multiset() == s.to_multiset(),
    decreases s.len(),
{
    if s.len() == 0 {
        assert(picked(s, order) =~= s);
    } else {
        let last = s.len() - 1;
        lemma_distinct_indices(order, s.len() as int);
        assert(holds(order, last));
        let p = choose|p: int| 0 <= p < order.len() && order[p] == last;
        let fewer = order.remove(p);
        let shorter = s.drop_last();
        assert forall|k: int| 0 <= k < fewer.len() implies #[trigger] fewer[k] < shorter.len() by {
            let k2 = if k < p { k } else { k + 1 };
            assert(fewer[k] == order[k2]);
            assert(order[k2] != order[p]);
        }
        assert forall|a: int, b: int| 0 <= a < b < fewer.len() implies fewer[a] != fewer[b] by {
            let a2 = if a < p { a } else { a + 1 };
            let b2 = if b < p { b } else { b + 1 };
            assert(fewer[a] == order[a2] && fewer[b] == order[b2]);
        }
        lemma_picked_is_permutation(shorter, fewer);
        assert(picked(s, order) =~= picked(shorter, fewer).insert(p, s.last())) by {
            assert forall|k: int| 0 <= k < order.len() implies picked(s, order)[k] == picked(
                shorter,
                fewer,
            ).insert(p, s.last())[k] by {
                if k < p {
                    assert(fewer[k] == order[k]);
                } else if k > p {
                    assert(fewer[k - 1] == order[k]);
                }
            }
        }
        vstd::seq_lib::to_multiset_insert(picked(shorter, fewer), p, s.last());
        vstd::seq_lib::to_multiset_build(shorter, s.last());
        assert(shorter.push(s.last()) =~= s);
    }
}

/// The providers answer the same name every time.
pub open spec fn steady_names<S: 'static>(providers: Seq<DynProvider<S>>) -> bool {
    forall|i: int, a: &'static str, b: &'static str|
        0 <= i < providers.len() && #[trigger] answers_name(providers[i], a)
            && #[trigger] answers_name(providers[i], b) ==> a@ == b@
}

/// The names in lifecycle order are the listed names, rearranged: each provider's
/// name is in both as often as there are providers of that name.
pub proof fn name_lists_are_permutations<S: 'static>(
    registry: Registry<S>,
    providers: Seq<DynProvider<S>>,
    after: Registry<S>,
    in_order: Seq<&'static str>,
    listed: Seq<&'static str>,
)
    requires
        registry.well_formed(),
        registry.plans(Ok(providers), after),
        reads_names(providers, in_order),
        reads_names(handles(registry.entries()), listed),
        steady_names(handles(registry.entries())),
    ensures
        listed.len() == registry.entries().len(),
        views(in_order).to_multiset() == views(listed).to_multiset(),
{
    let (nodes, order) = every_plan_is_a_lifecycle_order(registry, providers, after);
    let all = handles(registry.entries());
    assert(views(in_order) =~= picked(views(listed), order)) by {
        assert forall|k: int| 0 <= k < in_order.len() implies views(in_order)[k] == picked(
            views(listed),
            order,
        )[k] by {
            let i = order[k] as int;
            assert(order[k] < registry.entries().len());
            assert(providers[k] == all[i]);
            assert(answers_name(providers[k], in_order[k]));
            assert(answers_name(all[i], listed[i]));
        }
    }
    lemma_picked_is_permutation(views(listed), order);
}

} // verus!
