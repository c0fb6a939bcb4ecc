//! What callers of the registry may rely on, in terms of what they registered, what
//! their providers answered, and what came back.
//!
//! The statements here speak of entries, answers and positions directly. Where a
//! statement has to name what a call read or chose, the proof hands it out.
use std::sync::Arc;
use tokio_util::sync::ReusableBoxFuture;
use vstd::prelude::*;
use vstd::string::StringSliceAdditionalSpecFns;
use crate::registry::accept;
use crate::registry::accepts;
use crate::registry::error::Error;
use crate::registry::error::Result;
use crate::registry::handles;
use crate::registry::identity::made_from;
use crate::registry::identity::made_only_from;
use crate::registry::identity::type_id;
use crate::registry::laws::every_plan_is_a_lifecycle_order;
use crate::registry::lifecycle::blocked_names;
use crate::registry::lifecycle::cycle_message;
use crate::registry::lifecycle::edge;
use crate::registry::lifecycle::holds;
use crate::registry::lifecycle::is_over;
use crate::registry::lifecycle::is_path;
use crate::registry::lifecycle::is_run;
use crate::registry::lifecycle::lemma_distinct_indices;
use crate::registry::lifecycle::lemma_run;
use crate::registry::lifecycle::lower_priority_comes_first;
use crate::registry::lifecycle::order_respects_edges;
use crate::registry::lifecycle::ready;
use crate::registry::lifecycle::Node;
use crate::registry::plan_of;
use crate::registry::provider::answers_boot;
use crate::registry::provider::answers_boot_priority;
use crate::registry::provider::answers_name;
use crate::registry::provider::answers_order;
use crate::registry::provider::answers_reload_priority;
use crate::registry::provider::answers_reloadable;
use crate::registry::provider::answers_run_priority;
use crate::registry::provider::answers_runnable;
use crate::registry::provider::answers_shutdown;
use crate::registry::provider::answers_validation;
use crate::registry::provider::leads_to;
use crate::registry::provider::pointer_of;
use crate::registry::provider::reads_reload_priority;
use crate::registry::provider::DynProvider;
use crate::registry::provider::DynRunnable;
use crate::registry::provider::Handle;
use crate::registry::provider::Provider;
use crate::registry::provider::ProviderOrder;
use crate::registry::provider::Reloadable;
use crate::registry::reads_names;
use crate::registry::reads_node;
use crate::registry::reads_nodes;
use crate::registry::registered;
use crate::registry::rejects;
use crate::registry::start::is_start_order;
use crate::registry::start::key_le;
use crate::registry::start::reads_capabilities;
use crate::registry::start::reads_start_key;
use crate::registry::start::reads_start_keys;
use crate::registry::start::starts_before;
use crate::registry::start::tasks_of;
use crate::registry::start::RunTask;
use crate::registry::start::StartKey;
use crate::registry::sweep::boot_failure;
use crate::registry::sweep::first_named;
use crate::registry::sweep::fixed_message;
use crate::registry::sweep::named;
use crate::registry::sweep::named_otherwise;
use crate::registry::sweep::reads_reloadable;
use crate::registry::sweep::reload_failure;
use crate::registry::sweep::unknown_message;
use crate::registry::sweep::Sweep;
use crate::registry::validation;
use crate::registry::ProviderEntry;
use crate::registry::Registry;
use crate::text::bytes_stand_as_in_a_dictionary;
use crate::text::joined;

verus! {

/// The provider's place in the lifecycle is what it may answer as boot priority, else
/// what its reload capability may answer, else 100.
pub open spec fn ranks<S: 'static>(handle: DynProvider<S>, priority: u8) -> bool {
    ||| answers_boot_priority(handle, Some(priority))
    ||| answers_boot_priority(handle, None) && exists|capability: Option<&dyn Reloadable<S>>|
        #[trigger] answers_reloadable(handle, capability) && match capability {
            Some(reloadable) => {
                ||| answers_reload_priority::<S, dyn Reloadable<S>>(reloadable, Some(priority))
                ||| answers_reload_priority::<S, dyn Reloadable<S>>(reloadable, None) && priority
                    == 100
            },
            None => priority == 100,
        }
}

/// The provider's place among runnables is what it may answer as run priority, else
/// 100.
pub open spec fn starts_at<S: 'static>(handle: DynProvider<S>, priority: u8) -> bool {
    ||| answers_run_priority(handle, Some(priority))
    ||| answers_run_priority(handle, None) && priority == 100
}

/// Given what the providers answered as hints, the provider at `j` has to wait for
/// the one at `p`: it named that one's type among those to follow, or was named by
/// it among those to precede, at whatever place.
pub open spec fn waits_for<S>(
    entries: Seq<ProviderEntry<S>>,
    hints: Seq<ProviderOrder>,
    j: int,
    p: int,
) -> bool {
    &&& 0 <= p < entries.len()
    &&& 0 <= j < entries.len()
    &&& p != j
    &&& hints[j].followed().contains(entries[p].type_id) || hints[p].preceded().contains(
        entries[j].type_id,
    )
}

/// Asked to validate `state`, the provider may answer that all is fine.
pub open spec fn may_accept<S: 'static>(handle: DynProvider<S>, state: &S) -> bool {
    exists|answer: Result<()>| #[trigger]
        answers_validation(handle, state, answer) && answer is Ok
}

/// Asked to validate `state`, the provider may fail, and `e` is how that comes back:
/// under its name where the failure had no stage yet, else as it is.
pub open spec fn may_fail_as<S: 'static>(handle: DynProvider<S>, state: &S, e: Error) -> bool {
    exists|failure: Error, name: &'static str|
        #[trigger] answers_validation(handle, state, Err::<(), Error>(failure))
            && #[trigger] answers_name(handle, name) && match failure {
            Error::Other(source) => e == (Error::Validate { name, source }),
            _ => e == failure,
        }
}

/// Asked for its name, the provider may answer one that reads `name`.
pub open spec fn may_be_called<S: 'static>(handle: DynProvider<S>, name: Seq<char>) -> bool {
    exists|answer: &'static str| #[trigger] answers_name(handle, answer) && answer@ == name
}

/// Asked for its name, the provider may answer one that does not read `name`.
pub open spec fn may_be_called_otherwise<S: 'static>(
    handle: DynProvider<S>,
    name: Seq<char>,
) -> bool {
    exists|answer: &'static str| #[trigger] answers_name(handle, answer) && answer@ != name
}

/// Byte string `x` stands before `y`, or is the same, in a dictionary.
pub open spec fn stands_before(x: Seq<u8>, y: Seq<u8>) -> bool {
    ||| x.len() <= y.len() && x == y.take(x.len() as int)
    ||| exists|k: int|
        0 <= k < x.len() && k < y.len() && x.take(k) == #[trigger] y.take(k) && x[k] < y[k]
}

/// An answer is what the provider's own method may give, when it is called on the
/// provider behind the handle.
pub proof fn answers_come_from_the_methods<S: 'static, P: Provider<S> + ?Sized>(
    handle: Handle<Arc<P>>,
)
    ensures
        forall|name: &'static str| #[trigger]
            answers_name::<S, P>(handle, name) ==> call_ensures(
                <P as Provider<S>>::name,
                (&*handle.shared,),
                name,
            ),
        forall|priority: Option<u8>| #[trigger]
            answers_boot_priority::<S, P>(handle, priority) ==> call_ensures(
                <P as Provider<S>>::boot_priority,
                (&*handle.shared,),
                priority,
            ),
        forall|priority: Option<u8>| #[trigger]
            answers_run_priority::<S, P>(handle, priority) ==> call_ensures(
                <P as Provider<S>>::run_priority,
                (&*handle.shared,),
                priority,
            ),
        forall|order: ProviderOrder| #[trigger]
            answers_order::<S, P>(handle, order) ==> call_ensures(
                <P as Provider<S>>::order,
                (&*handle.shared,),
                order,
            ),
        forall|state: &S, outcome: Result<()>| #[trigger]
            answers_validation::<S, P>(handle, state, outcome) ==> call_ensures(
                <P as Provider<S>>::validate,
                (&*handle.shared, state),
                outcome,
            ),
        forall|capability: Option<&dyn Reloadable<S>>| #[trigger]
            answers_reloadable::<S, P>(handle, capability) ==> call_ensures(
                <P as Provider<S>>::as_reloadable,
                (&*handle.shared,),
                capability,
            ),
        forall|state: &S, work: ReusableBoxFuture<'_, Result<()>>| #[trigger]
            answers_boot::<S, P>(handle, state, work) ==> call_ensures(
                <P as Provider<S>>::boot,
                (&*handle.shared, state),
                work,
            ),
        forall|state: &S, work: ReusableBoxFuture<'_, Result<()>>| #[trigger]
            answers_shutdown::<S, P>(handle, state, work) ==> call_ensures(
                <P as Provider<S>>::shutdown,
                (&*handle.shared, state),
                work,
            ),
        forall|runnable: DynRunnable<S>| #[trigger]
            answers_runnable::<S, P>(handle, Some(runnable)) ==> call_ensures(
                <P as Provider<S>>::as_runnable,
                (handle.shared,),
                pointer_of(Some(runnable)),
            ),
        answers_runnable::<S, P>(handle, None) ==> call_ensures(
            <P as Provider<S>>::as_runnable,
            (handle.shared,),
            None,
        ),
        forall|runnable: DynRunnable<S>|
            (#[trigger] pointer_of(Some(runnable))) is Some && pointer_of(Some(runnable))->0
                == runnable.shared,
{
}

/// The priority that a reload capability answers comes from its own method.
pub proof fn reload_priorities_come_from_the_method<S: 'static, R: Reloadable<S> + ?Sized>(
    reloadable: &R,
    priority: Option<u8>,
)
    requires
        answers_reload_priority::<S, R>(reloadable, priority),
    ensures
        call_ensures(<R as Reloadable<S>>::priority, (reloadable,), priority),
{
}

/// Registering a provider of a new type puts it last, under its type, and has the
/// order worked out anew; the others stay as and where they are. Where the type is
/// there already, nothing changes.
pub proof fn registration_puts_new_types_last<S: 'static, C: Provider<S>>(
    before: Registry<S>,
    item: Arc<C>,
    after: Registry<S>,
)
    requires
        before.registers(item, after),
    ensures
        (exists|i: int|
            0 <= i < before.entries().len() && (#[trigger] before.entries()[i]).type_id == type_id::<
                C,
            >()) ==> after == before,
        (forall|i: int|
            0 <= i < before.entries().len() ==> (#[trigger] before.entries()[i]).type_id
                != type_id::<C>()) ==> {
            let n = before.entries().len();
            &&& after.entries().len() == n + 1
            &&& forall|i: int|
                0 <= i < n ==> #[trigger] after.entries()[i] == before.entries()[i]
            &&& after.entries()[n as int].type_id == type_id::<C>()
            &&& made_from(after.entries()[n as int].any, item)
            &&& leads_to(after.entries()[n as int].handle, item)
            &&& after.known_order() is None
        },
{
    if forall|i: int|
        0 <= i < before.entries().len() ==> (#[trigger] before.entries()[i]).type_id != type_id::<
            C,
        >() {
        assert(!registered(before.entries(), type_id::<C>()));
        let n = before.entries().len() as int;
        assert forall|i: int| 0 <= i < n implies #[trigger] after.entries()[i]
            == before.entries()[i] by {
            assert(after.entries().drop_last()[i] == after.entries()[i]);
        }
    }
}

/// What a type resolves to was registered under that type, and where something was
/// registered under it, that is what it resolves to.
pub proof fn types_resolve_to_what_is_registered<S: 'static, T: Provider<S>>(
    registry: Registry<S>,
    answer: Option<Arc<T>>,
)
    requires
        registry.well_formed(),
        registry.resolves(answer),
    ensures
        answer matches Some(item) ==> exists|i: int|
            0 <= i < registry.entries().len() && (#[trigger] registry.entries()[i]).type_id
                == type_id::<T>() && made_from(registry.entries()[i].any, item),
        forall|i: int, item: Arc<T>|
            0 <= i < registry.entries().len() && registry.entries()[i].type_id == type_id::<T>()
                && #[trigger] made_from(registry.entries()[i].any, item) ==> answer == Some(item),
{
    if let Some(item) = answer {
        let i = choose|i: int|
            0 <= i < registry.entries().len() && (#[trigger] registry.entries()[i]).type_id
                == type_id::<T>() && made_only_from(
                registry.entries()[i].any,
                item,
            );
        assert(made_from(registry.entries()[i].any, item));
    }
}

/// The providers stand in registration order, each behind its own handle, and each
/// name that is read is one that the provider at that place may answer.
pub proof fn names_are_read_in_place<S: 'static>(
    entries: Seq<ProviderEntry<S>>,
    providers: Seq<DynProvider<S>>,
    names: Seq<&'static str>,
)
    requires
        reads_names(providers, names),
    ensures
        handles(entries).len() == entries.len(),
        forall|i: int| 0 <= i < entries.len() ==> #[trigger] handles(entries)[i] == entries[i].handle,
        names.len() == providers.len(),
        forall|i: int| 0 <= i < names.len() ==> answers_name(providers[i], #[trigger] names[i]),
{
}

/// Every plan puts each registered provider at a place of its own, so that
///
/// - a provider stands after every registered type that it asked to follow, and
///   before every registered type that it asked to precede, at whatever place in
///   its hints the type is named;
/// - of two providers, the one that stands first, when the other had nothing left
///   to wait for, has the lower priority value, or the same and was registered
///   first.
///
/// A provider's priority is what it answers as boot priority, else what its reload
/// capability answers, else 100.
///
/// Handed out are the hints and the priority that each provider answered, and the
/// place of each in the plan.
pub proof fn plans_follow_hints_and_priorities<S: 'static>(
    registry: Registry<S>,
    providers: Seq<DynProvider<S>>,
    after: Registry<S>,
) -> (read: (Seq<ProviderOrder>, Seq<u8>, Seq<int>))
    requires
        registry.well_formed(),
        registry.plans(Ok(providers), after),
    ensures
        providers.len() == registry.entries().len(),
        read.0.len() == registry.entries().len(),
        read.1.len() == registry.entries().len(),
        read.2.len() == registry.entries().len(),
        forall|i: int|
            0 <= i < registry.entries().len() ==> answers_order(
                registry.entries()[i].handle,
                #[trigger] read.0[i],
            ),
        forall|i: int|
            0 <= i < registry.entries().len() ==> 0 <= #[trigger] read.2[i] < providers.len()
                && providers[read.2[i]] == registry.entries()[i].handle,
        forall|i: int, j: int|
            0 <= i < j < registry.entries().len() ==> #[trigger] read.2[i] != #[trigger] read.2[j],
        forall|i: int, j: int|
            #![trigger read.2[i], read.2[j]]
            0 <= i < registry.entries().len() && 0 <= j < registry.entries().len() && i != j
                && read.0[j].followed().contains(registry.entries()[i].type_id) ==> read.2[i]
                < read.2[j],
        forall|i: int, j: int|
            #![trigger read.2[i], read.2[j]]
            0 <= i < registry.entries().len() && 0 <= j < registry.entries().len() && i != j
                && read.0[i].preceded().contains(registry.entries()[j].type_id) ==> read.2[i]
                < read.2[j],
        forall|i: int|
            0 <= i < registry.entries().len() ==> ranks(
                registry.entries()[i].handle,
                #[trigger] read.1[i],
            ),
        forall|i: int, j: int|
            #![trigger read.2[i], read.2[j]]
            0 <= i < registry.entries().len() && 0 <= j < registry.entries().len() && read.2[i]
                < read.2[j] && (forall|p: int| #[trigger]
                waits_for(registry.entries(), read.0, j, p) ==> read.2[p] < read.2[i])
                ==> read.1[i] < read.1[j] || (read.1[i] == read.1[j] && i < j),
{
    let entries = registry.entries();
    let n = entries.len();
    let (nodes, order) = every_plan_is_a_lifecycle_order(registry, providers, after);
    let hints = Seq::new(
        n,
        |i: int|
            choose|hint: ProviderOrder| #[trigger]
                answers_order(entries[i].handle, hint) && nodes[i].before@ == hint.preceded()
                    && nodes[i].after@ == hint.followed(),
    );
    let priorities = Seq::new(n, |i: int| nodes[i].priority);
    let places = Seq::new(n, |i: int| choose|k: int| 0 <= k < order.len() && order[k] == i);
    assert forall|i: int| 0 <= i < n implies 0 <= #[trigger] places[i] < n && order[places[i]] == i
        by {
        assert(holds(order, i));
    }
    assert forall|i: int| 0 <= i < n implies nodes[i].type_id == entries[i].type_id
        && answers_order(entries[i].handle, #[trigger] hints[i]) && nodes[i].before@
        == hints[i].preceded() && nodes[i].after@ == hints[i].followed() by {
        assert(reads_node(entries[i], nodes[i]));
    }
    assert forall|i: int| 0 <= i < n implies 0 <= #[trigger] places[i] < providers.len()
        && providers[places[i]] == entries[i].handle by {}
    assert forall|i: int, j: int| 0 <= i < j < n implies #[trigger] places[i]
        != #[trigger] places[j] by {
        assert(order[places[i]] == i && order[places[j]] == j);
    }
    assert forall|i: int, j: int|
        #![trigger places[i], places[j]]
        0 <= i < n && 0 <= j < n && i != j && hints[j].followed().contains(
            entries[i].type_id,
        ) implies places[i] < places[j] by {
        assert(hints[i].preceded() == nodes[i].before@);
        assert(edge(nodes, i, j));
        order_respects_edges(nodes, order, places[i], places[j]);
    }
    assert forall|i: int, j: int|
        #![trigger places[i], places[j]]
        0 <= i < n && 0 <= j < n && i != j && hints[i].preceded().contains(
            entries[j].type_id,
        ) implies places[i] < places[j] by {
        assert(hints[j].followed() == nodes[j].after@);
        assert(edge(nodes, i, j));
        order_respects_edges(nodes, order, places[i], places[j]);
    }
    assert forall|i: int| 0 <= i < n implies ranks(entries[i].handle, #[trigger] priorities[i]) by {
        lemma_priority_read(entries[i], nodes[i]);
    }
    assert forall|i: int, j: int|
        #![trigger places[i], places[j]]
        0 <= i < n && 0 <= j < n && places[i] < places[j] && (forall|p: int| #[trigger]
            waits_for(entries, hints, j, p) ==> places[p] < places[i]) implies priorities[i]
        < priorities[j] || (priorities[i] == priorities[j] && i < j) by {
        let placed = order.take(places[i]);
        lemma_run(nodes, order);
        assert(!holds(placed, j)) by {
            if holds(placed, j) {
                let k = choose|k: int| 0 <= k < placed.len() && placed[k] == j;
                assert(order[k] == order[places[j]]);
            }
        }
        assert forall|p: int| #[trigger] edge(nodes, p, j) implies holds(placed, p) by {
            assert(hints[p].preceded() == nodes[p].before@);
            assert(hints[j].followed() == nodes[j].after@);
            assert(waits_for(entries, hints, j, p));
            assert(places[p] < places[i]);
            assert(placed[places[p]] == p);
        }
        assert(ready(nodes, placed, j));
        lower_priority_comes_first(nodes, order, places[i], places[j]);
    }
    (hints, priorities, places)
}

/// The priority in a node is what the provider answered.
proof fn lemma_priority_read<S: 'static>(entry: ProviderEntry<S>, node: Node)
    requires
        reads_node(entry, node),
    ensures
        ranks(entry.handle, node.priority),
{
    let boot = choose|boot: Option<u8>| #[trigger]
        answers_boot_priority(entry.handle, boot) && match boot {
            Some(given) => node.priority == given,
            None => exists|reload: Option<u8>| #[trigger]
                reads_reload_priority(entry.handle, reload) && node.priority == match reload {
                    Some(given) => given,
                    None => 100,
                },
        };
    if boot is None {
        let reload = choose|reload: Option<u8>| #[trigger]
            reads_reload_priority(entry.handle, reload) && node.priority == match reload {
                Some(given) => given,
                None => 100,
            };
        let capability = choose|capability: Option<&dyn Reloadable<S>>| #[trigger]
            answers_reloadable(entry.handle, capability) && match capability {
                Some(reloadable) => answers_reload_priority::<S, dyn Reloadable<S>>(
                    reloadable,
                    reload,
                ),
                None => reload is None,
            };
        assert(answers_reloadable(entry.handle, capability));
    }
}

/// Where there is no plan, some providers must, through each other, come before
/// themselves, and the error names exactly those that cannot be placed, in
/// registration order:
///
/// - each of them waits for another of them;
/// - the rest could be placed, each after all that it waits for;
/// - some of them stand in a circle, each to come before the next.
///
/// Handed out are the hints and the name that each provider answered, those that
/// cannot be placed, a place for each of the rest, and the circle.
pub proof fn failed_plans_name_the_stuck_providers<S: 'static>(
    registry: Registry<S>,
    e: Error,
    after: Registry<S>,
) -> (read: (Seq<ProviderOrder>, Seq<&'static str>, Seq<int>, Seq<int>, Seq<int>))
    requires
        registry.plans(Err(e), after),
    ensures
        after.entries() == registry.entries(),
        after.known_order() is None,
        read.0.len() == registry.entries().len(),
        read.1.len() == registry.entries().len(),
        read.3.len() == registry.entries().len(),
        forall|i: int|
            0 <= i < registry.entries().len() ==> answers_order(
                registry.entries()[i].handle,
                #[trigger] read.0[i],
            ) && answers_name(registry.entries()[i].handle, read.1[i]),
        // Those that cannot be placed, in registration order.
        forall|k: int| 0 <= k < read.2.len() ==> 0 <= #[trigger] read.2[k] < read.0.len(),
        forall|a: int, b: int|
            0 <= a < b < read.2.len() ==> #[trigger] read.2[a] < #[trigger] read.2[b],
        forall|i: int| #[trigger]
            read.2.contains(i) ==> exists|p: int| #[trigger]
                waits_for(registry.entries(), read.0, i, p) && read.2.contains(p),
        // The rest wait for none of them, and each for what has an earlier place.
        forall|i: int, p: int| #[trigger]
            waits_for(registry.entries(), read.0, i, p) && !read.2.contains(i)
                ==> !read.2.contains(p) && read.3[p] < read.3[i],
        // The circle.
        read.4.len() >= 2,
        read.4.first() == read.4.last(),
        forall|k: int|
            0 <= k < read.4.len() - 1 ==> waits_for(
                registry.entries(),
                read.0,
                read.4[k + 1],
                #[trigger] read.4[k],
            ),
        // What the error says.
        e.says(
            "provider lifecycle order cycle detected: "@ + joined(
                Seq::new(read.2.len(), |k: int| read.1[read.2[k]]@),
                ", "@,
            ),
        ),
{
    let entries = registry.entries();
    let n = entries.len();
    let nodes = choose|nodes: Seq<Node>| #[trigger]
        reads_nodes(entries, nodes) && plan_of(entries, nodes, Err(e), after.known_order());
    let order = choose|order: Seq<usize>|
        is_run(nodes, order) && is_over(nodes, order) && e.says(
            #[trigger] cycle_message(nodes, order),
        );
    let hints = Seq::new(
        n,
        |i: int|
            choose|hint: ProviderOrder| #[trigger]
                answers_order(entries[i].handle, hint) && nodes[i].before@ == hint.preceded()
                    && nodes[i].after@ == hint.followed(),
    );
    let names = Seq::new(n, |i: int| nodes[i].name);
    let stuck = stuck_below(order, n);
    let places = Seq::new(n, |i: int| choose|k: int| 0 <= k < order.len() && order[k] == i);
    let path = choose|path: Seq<int>| #[trigger]
        is_path(nodes, path) && path.first() == path.last();
    assert forall|i: int| 0 <= i < n implies nodes[i].type_id == entries[i].type_id
        && answers_order(entries[i].handle, #[trigger] hints[i]) && answers_name(
        entries[i].handle,
        names[i],
    ) && nodes[i].before@ == hints[i].preceded() && nodes[i].after@ == hints[i].followed() by {
        assert(reads_node(entries[i], nodes[i]));
    }
    lemma_stuck_below(order, n);
    lemma_run(nodes, order);
    assert forall|p: int, j: int| #[trigger] edge(nodes, p, j) == waits_for(entries, hints, j, p) by {
        if 0 <= p < n && 0 <= j < n {
            assert(hints[p].preceded() == nodes[p].before@);
            assert(hints[j].followed() == nodes[j].after@);
        }
    }
    assert forall|i: int| #[trigger] stuck.contains(i) implies exists|p: int| #[trigger]
        waits_for(entries, hints, i, p) && stuck.contains(p) by {
        let k = choose|k: int| 0 <= k < stuck.len() && stuck[k] == i;
        assert(0 <= stuck[k] < n && !holds(order, stuck[k]));
        assert(!ready(nodes, order, i));
        let p = choose|p: int| #[trigger] edge(nodes, p, i) && !holds(order, p);
        assert(waits_for(entries, hints, i, p));
        assert(stuck.contains(p));
    }
    assert forall|i: int, p: int| #[trigger]
        waits_for(entries, hints, i, p) && !stuck.contains(i) implies !stuck.contains(p)
        && places[p] < places[i] by {
        assert(edge(nodes, p, i));
        assert(stuck.contains(i) == !holds(order, i));
        assert(stuck.contains(p) == !holds(order, p));
        assert(order[places[i]] == i && order[places[p]] == p);
        order_respects_edges(nodes, order, places[p], places[i]);
    }
    assert forall|k: int| 0 <= k < path.len() - 1 implies waits_for(
        entries,
        hints,
        path[k + 1],
        #[trigger] path[k],
    ) by {
        assert(edge(nodes, path[k], path[k + 1]));
    }
    lemma_stuck_names(nodes, order, n);
    assert(Seq::new(stuck.len(), |k: int| names[stuck[k]]@) =~= blocked_names(nodes, order, n));
    (hints, names, stuck, places, path)
}

/// The indices below `n` that `order` does not hold, in order.
spec fn stuck_below(order: Seq<usize>, n: nat) -> Seq<int>
    decreases n,
{
    if n == 0 {
        Seq::empty()
    } else if holds(order, n - 1) {
        stuck_below(order, (n - 1) as nat)
    } else {
        stuck_below(order, (n - 1) as nat).push(n - 1)
    }
}

proof fn lemma_stuck_below(order: Seq<usize>, n: nat)
    ensures
        forall|k: int|
            0 <= k < stuck_below(order, n).len() ==> 0 <= #[trigger] stuck_below(order, n)[k] < n
                && !holds(order, stuck_below(order, n)[k]),
        forall|a: int, b: int|
            0 <= a < b < stuck_below(order, n).len() ==> #[trigger] stuck_below(order, n)[a]
                < #[trigger] stuck_below(order, n)[b],
        forall|i: int|
            0 <= i < n ==> #[trigger] stuck_below(order, n).contains(i) == !holds(order, i),
    decreases n,
{
    if n > 0 {
        lemma_stuck_below(order, (n - 1) as nat);
        let fewer = stuck_below(order, (n - 1) as nat);
        let all = stuck_below(order, n);
        assert forall|i: int| 0 <= i < n implies #[trigger] all.contains(i) == !holds(order, i) by {
            if i < n - 1 {
                assert(fewer.contains(i) == !holds(order, i));
                if fewer.contains(i) {
                    let k = choose|k: int| 0 <= k < fewer.len() && fewer[k] == i;
                    assert(all[k] == i);
                }
                if all.contains(i) {
                    let k = choose|k: int| 0 <= k < all.len() && all[k] == i;
                    assert(fewer[k] == i);
                }
            } else if holds(order, i) {
                if all.contains(i) {
                    let k = choose|k: int| 0 <= k < all.len() && all[k] == i;
                    assert(fewer[k] == i);
                }
            } else {
                assert(all[fewer.len() as int] == i);
            }
        }
    }
}

proof fn lemma_stuck_names(nodes: Seq<Node>, order: Seq<usize>, n: nat)
    requires
        n <= nodes.len(),
    ensures
        blocked_names(nodes, order, n).len() == stuck_below(order, n).len(),
        forall|k: int|
            0 <= k < stuck_below(order, n).len() ==> #[trigger] blocked_names(nodes, order, n)[k]
                == nodes[stuck_below(order, n)[k]].name@,
    decreases n,
{
    if n > 0 {
        lemma_stuck_names(nodes, order, (n - 1) as nat);
    }
}

/// Validation passes only where every registered provider, the last as well as the
/// first, may answer that it is fine.
///
/// It fails either where there is no plan, with the error of that, or with the
/// failure of one provider, as a validation failure under the provider's name where
/// it had no stage yet; all that stand before it in the plan may answer that they
/// are fine.
pub proof fn validation_passes_only_where_all_accept<S: 'static>(
    registry: Registry<S>,
    state: &S,
    plan: Result<Seq<DynProvider<S>>>,
    after: Registry<S>,
    outcome: Result<()>,
)
    requires
        registry.well_formed(),
        registry.plans(plan, after),
        match plan {
            Ok(providers) => validation(providers, state, outcome),
            Err(e) => outcome == Err::<(), Error>(e),
        },
    ensures
        outcome is Ok ==> plan is Ok && forall|i: int|
            0 <= i < registry.entries().len() ==> may_accept(
                (#[trigger] registry.entries()[i]).handle,
                state,
            ),
        plan matches Err(e) ==> outcome == Err::<(), Error>(e),
        match (plan, outcome) {
            (Ok(providers), Err(e)) => exists|n: int|
                0 <= n < providers.len() && may_fail_as(#[trigger] providers[n], state, e)
                    && forall|k: int| 0 <= k < n ==> may_accept(#[trigger] providers[k], state),
            _ => true,
        },
{
    match (plan, outcome) {
        (Ok(providers), Ok(_)) => {
            let (hints, priorities, places) = plans_follow_hints_and_priorities(
                registry,
                providers,
                after,
            );
            assert forall|i: int| 0 <= i < registry.entries().len() implies may_accept(
                (#[trigger] registry.entries()[i]).handle,
                state,
            ) by {
                assert(providers[places[i]] == registry.entries()[i].handle);
                assert(accepts(providers[places[i]], state));
            }
        },
        (Ok(providers), Err(e)) => {
            let n = choose|n: int|
                n < providers.len() && #[trigger] accept(providers, state, n) && rejects(
                    providers[n],
                    state,
                    e,
                );
            let (failure, name) = choose|failure: Error, name: &'static str|
                answers_validation(providers[n], state, Err::<(), Error>(failure))
                    && answers_name(providers[n], name) && e == #[trigger] failure.validating(name);
            assert(answers_validation(providers[n], state, Err::<(), Error>(failure)));
            assert(may_fail_as(providers[n], state, e));
            assert forall|k: int| 0 <= k < n implies may_accept(#[trigger] providers[k], state) by {
                assert(accepts(providers[k], state));
            }
        },
        _ => {},
    }
}

/// A sweep goes through the plan from its first provider to its last, or backwards,
/// and fails only with the error that there is no plan.
pub proof fn sweeps_go_through_the_plan<S: 'static>(
    registry: Registry<S>,
    forward: Result<Sweep<S>>,
    after1: Registry<S>,
    back: Result<Sweep<S>>,
    after2: Registry<S>,
)
    requires
        registry.sweeps(forward, after1),
        registry.sweeps_back(back, after2),
    ensures
        forward matches Ok(sweep) ==> registry.plans(Ok(sweep.rest()), after1),
        forward matches Err(e) ==> registry.plans(Err(e), after1),
        back matches Ok(sweep) ==> exists|plan: Seq<DynProvider<S>>| #[trigger]
            registry.plans(Ok(plan), after2) && plan.len() == sweep.rest().len() && forall|k: int|
                0 <= k < plan.len() ==> #[trigger] sweep.rest()[k] == plan[plan.len() - 1 - k],
        back matches Err(e) ==> registry.plans(Err(e), after2),
{
    let plan = choose|plan: Result<Seq<DynProvider<S>>>| #[trigger]
        registry.plans(plan, after2) && match (plan, back) {
            (Ok(providers), Ok(sweep)) => sweep.well_formed() && sweep.rest()
                == providers.reverse(),
            (Err(a), Err(b)) => a == b,
            _ => false,
        };
    if let Ok(providers) = plan {
        assert(registry.plans(Ok(providers), after2));
    }
}

/// A provider is reloadable where it may answer a reload capability, and not where
/// it may answer that it has none.
pub proof fn reloadable_means_having_the_capability<S: 'static>(
    handle: DynProvider<S>,
    reloadable: bool,
)
    requires
        reads_reloadable(handle, reloadable),
    ensures
        exists|capability: Option<&dyn Reloadable<S>>| #[trigger]
            answers_reloadable(handle, capability) && (capability is Some) == reloadable,
{
}

/// The provider that a name picks is the first in registration order that may
/// answer it: all before it may answer another name. The messages say what was
/// asked for.
pub proof fn names_pick_the_first_provider<S: 'static>(
    entries: Seq<ProviderEntry<S>>,
    name: Seq<char>,
    at: int,
)
    requires
        first_named(handles(entries), name, at),
    ensures
        0 <= at <= entries.len(),
        forall|i: int|
            0 <= i < at ==> may_be_called_otherwise((#[trigger] entries[i]).handle, name),
        at < entries.len() ==> may_be_called(entries[at].handle, name),
        unknown_message(name) == "reload_by_name: no provider registered with name '"@ + name
            + "'"@,
        fixed_message(name) == "reload_by_name: provider '"@ + name + "' is not reloadable"@,
{
    assert forall|i: int| 0 <= i < at implies may_be_called_otherwise(
        (#[trigger] entries[i]).handle,
        name,
    ) by {
        assert(handles(entries)[i] == entries[i].handle);
        assert(named_otherwise(handles(entries)[i], name));
    }
    if at < entries.len() {
        assert(handles(entries)[at] == entries[at].handle);
        assert(named(handles(entries)[at], name));
    }
}

/// A failure to boot or to reload comes back under the provider's name where it had
/// no stage yet, and as it is where it had one.
pub proof fn failures_come_back_under_the_providers_name<S: 'static>(
    handle: DynProvider<S>,
    failure: Error,
    booting: Error,
    reloading: Error,
)
    requires
        boot_failure(handle, failure, booting),
        reload_failure(handle, failure, reloading),
    ensures
        match failure {
            Error::Other(source) => (exists|name: &'static str| #[trigger]
                answers_name(handle, name) && booting == (Error::Boot { name, source })) && (exists|
                name: &'static str,
            | #[trigger]
                answers_name(handle, name) && reloading == (Error::Reload { name, source })),
            _ => booting == failure && reloading == failure,
        },
{
}

/// In every start order each provider stands once, lower run priorities first,
/// equal ones by the bytes of their names, and equal names by registration.
pub proof fn start_order_goes_by_priority_then_name(
    keys: Seq<StartKey>,
    order: Seq<usize>,
    a: int,
    b: int,
)
    requires
        is_start_order(keys, order),
        0 <= a < b < order.len(),
    ensures
        order.len() == keys.len(),
        order[a] != order[b],
        order[a] < keys.len() && order[b] < keys.len(),
        keys[order[a] as int].priority <= keys[order[b] as int].priority,
        keys[order[a] as int].priority == keys[order[b] as int].priority ==> stands_before(
            keys[order[a] as int].name.spec_bytes(),
            keys[order[b] as int].name.spec_bytes(),
        ),
        keys[order[a] as int].priority == keys[order[b] as int].priority
            && keys[order[a] as int].name.spec_bytes() == keys[order[b] as int].name.spec_bytes()
            ==> order[a] < order[b],
{
    let x = keys[order[a] as int];
    let y = keys[order[b] as int];
    assert(starts_before(keys, order[a] as int, order[b] as int));
    assert(key_le(x, y));
    bytes_stand_as_in_a_dictionary(x.name.spec_bytes(), y.name.spec_bytes());
    bytes_stand_as_in_a_dictionary(y.name.spec_bytes(), x.name.spec_bytes());
    if x.name.spec_bytes() == y.name.spec_bytes() {
        let bytes = x.name.spec_bytes();
        assert(bytes == bytes.take(bytes.len() as int));
    }
}

/// The tasks stand in the order of their providers, and leave out only those that
/// are not runnable. Handed out is where each task came from.
pub proof fn tasks_stand_in_start_order<S>(
    keys: Seq<StartKey>,
    order: Seq<usize>,
    capabilities: Seq<Option<DynRunnable<S>>>,
) -> (places: Seq<int>)
    ensures
        places.len() == tasks_of(keys, order, capabilities).len(),
        forall|t: int|
            0 <= t < places.len() ==> 0 <= #[trigger] places[t] < capabilities.len()
                && capabilities[places[t]] == Some(tasks_of(keys, order, capabilities)[t].runnable)
                && tasks_of(keys, order, capabilities)[t].name
                == keys[order[places[t]] as int].name,
        forall|s: int, t: int|
            0 <= s < t < places.len() ==> #[trigger] places[s] < #[trigger] places[t],
        forall|k: int|
            0 <= k < capabilities.len() && !#[trigger] places.contains(k) ==> capabilities[k]
                is None,
    decreases capabilities.len(),
{
    if capabilities.len() == 0 {
        Seq::empty()
    } else {
        let fewer = capabilities.drop_last();
        let last = capabilities.len() - 1;
        let earlier = tasks_stand_in_start_order(keys, order, fewer);
        let tasks = tasks_of(keys, order, capabilities);
        let rest = tasks_of(keys, order, fewer);
        let places = if capabilities.last() is Some {
            earlier.push(last)
        } else {
            earlier
        };
        assert forall|t: int| 0 <= t < places.len() implies 0 <= #[trigger] places[t]
            < capabilities.len() && capabilities[places[t]] == Some(tasks[t].runnable)
            && tasks[t].name == keys[order[places[t]] as int].name by {
            if t < earlier.len() {
                assert(places[t] == earlier[t]);
                assert(fewer[earlier[t]] == Some(rest[t].runnable));
                assert(tasks[t] == rest[t]);
            }
        }
        assert forall|s: int, t: int| 0 <= s < t < places.len() implies #[trigger] places[s]
            < #[trigger] places[t] by {
            assert(places[s] == earlier[s]);
            if t < earlier.len() {
                assert(places[t] == earlier[t]);
            }
        }
        assert forall|k: int|
            0 <= k < capabilities.len() && !#[trigger] places.contains(
                k,
            ) implies capabilities[k] is None by {
            if k < last {
                if earlier.contains(k) {
                    let t = choose|t: int| 0 <= t < earlier.len() && earlier[t] == k;
                    assert(places[t] == k);
                }
                assert(!earlier.contains(k));
                assert(fewer[k] is None);
            } else if capabilities.last() is Some {
                assert(places[earlier.len() as int] == k);
            }
        }
        places
    }
}

/// Every provider that may answer a run capability is started, except where it may
/// also answer that it has none. Tasks start by the run priority that their
/// providers answer, 100 where they answer none, then by the bytes of their names,
/// then by registration.
///
/// Handed out are which provider each task belongs to, and its priority.
pub proof fn runnables_start_by_priority_and_name<S: 'static>(
    registry: Registry<S>,
    keys: Seq<StartKey>,
    order: Seq<usize>,
    capabilities: Seq<Option<DynRunnable<S>>>,
    tasks: Seq<RunTask<S>>,
) -> (read: (Seq<int>, Seq<u8>))
    requires
        reads_start_keys(handles(registry.entries()), keys),
        is_start_order(keys, order),
        reads_capabilities(handles(registry.entries()), order, capabilities),
        tasks == tasks_of(keys, order, capabilities),
    ensures
        read.0.len() == tasks.len(),
        read.1.len() == tasks.len(),
        forall|t: int|
            0 <= t < tasks.len() ==> 0 <= #[trigger] read.0[t] < registry.entries().len()
                && answers_name(registry.entries()[read.0[t]].handle, tasks[t].name)
                && answers_runnable(
                registry.entries()[read.0[t]].handle,
                Some(tasks[t].runnable),
            ),
        forall|t: int|
            0 <= t < tasks.len() ==> starts_at(
                registry.entries()[#[trigger] read.0[t]].handle,
                read.1[t],
            ),
        forall|a: int, b: int|
            0 <= a < b < tasks.len() ==> #[trigger] read.0[a] != #[trigger] read.0[b] && read.1[a]
                <= read.1[b],
        forall|a: int, b: int|
            #![trigger read.1[a], read.1[b]]
            0 <= a < b < tasks.len() && read.1[a] == read.1[b] ==> stands_before(
                tasks[a].name.spec_bytes(),
                tasks[b].name.spec_bytes(),
            ),
        forall|a: int, b: int|
            #![trigger read.0[a], read.0[b]]
            0 <= a < b < tasks.len() && read.1[a] == read.1[b] && tasks[a].name.spec_bytes()
                == tasks[b].name.spec_bytes() ==> read.0[a] < read.0[b],
        forall|i: int|
            0 <= i < registry.entries().len() && !#[trigger] read.0.contains(i)
                ==> answers_runnable(registry.entries()[i].handle, None),
{
    let entries = registry.entries();
    let all = handles(entries);
    let places = tasks_stand_in_start_order(keys, order, capabilities);
    let who = Seq::new(tasks.len(), |t: int| order[places[t]] as int);
    let priorities = Seq::new(tasks.len(), |t: int| keys[order[places[t]] as int].priority);
    assert forall|t: int| 0 <= t < tasks.len() implies 0 <= #[trigger] who[t] < entries.len()
        && answers_name(entries[who[t]].handle, tasks[t].name) && answers_runnable(
        entries[who[t]].handle,
        Some(tasks[t].runnable),
    ) by {
        let k = places[t];
        assert(order[k] < keys.len());
        assert(all[who[t]] == entries[who[t]].handle);
        assert(reads_start_key(all[who[t]], keys[who[t]]));
        assert(answers_runnable(all[order[k] as int], capabilities[k]));
    }
    assert forall|t: int| 0 <= t < tasks.len() implies starts_at(
        entries[#[trigger] who[t]].handle,
        priorities[t],
    ) by {
        let k = places[t];
        assert(order[k] < keys.len());
        assert(all[who[t]] == entries[who[t]].handle);
        assert(reads_start_key(all[who[t]], keys[who[t]]));
    }
    assert forall|a: int, b: int| 0 <= a < b < tasks.len() implies #[trigger] who[a]
        != #[trigger] who[b] && priorities[a] <= priorities[b] by {
        start_order_goes_by_priority_then_name(keys, order, places[a], places[b]);
    }
    assert forall|a: int, b: int|
        #![trigger priorities[a], priorities[b]]
        0 <= a < b < tasks.len() && priorities[a] == priorities[b] implies stands_before(
        tasks[a].name.spec_bytes(),
        tasks[b].name.spec_bytes(),
    ) by {
        assert(places[a] < places[b]);
        start_order_goes_by_priority_then_name(keys, order, places[a], places[b]);
    }
    assert forall|a: int, b: int|
        #![trigger who[a], who[b]]
        0 <= a < b < tasks.len() && priorities[a] == priorities[b] && tasks[a].name.spec_bytes()
            == tasks[b].name.spec_bytes() implies who[a] < who[b] by {
        assert(places[a] < places[b]);
        start_order_goes_by_priority_then_name(keys, order, places[a], places[b]);
    }
    assert forall|i: int|
        0 <= i < entries.len() && !#[trigger] who.contains(i) implies answers_runnable(
        entries[i].handle,
        None,
    ) by {
        lemma_distinct_indices(order, keys.len() as int);
        assert(holds(order, i));
        let k = choose|k: int| 0 <= k < order.len() && order[k] == i;
        if places.contains(k) {
            let t = choose|t: int| 0 <= t < places.len() && places[t] == k;
            assert(who[t] == i);
        }
        assert(capabilities[k] is None);
        assert(all[i] == entries[i].handle);
        assert(answers_runnable(all[order[k] as int], capabilities[k]));
    }
    (who, priorities)
}

} // verus!
