//! The order in which runnable providers start: by run priority, then by name,
//! then by registration.
use vstd::prelude::*;
use vstd::string::StringSliceAdditionalSpecFns;
use crate::registry::priority::NORMAL;
use crate::registry::provider::answers_name;
use crate::registry::provider::answers_run_priority;
use crate::registry::provider::answers_runnable;
use crate::registry::provider::name_of;
use crate::registry::provider::run_priority_of;
use crate::registry::provider::runnable_of;
use crate::registry::provider::DynProvider;
use crate::registry::provider::DynRunnable;
use crate::registry::lifecycle::holds;
use crate::registry::lifecycle::lemma_distinct_indices;
use crate::registry::handles;
use crate::registry::Registry;
use crate::text::at_most;
use crate::text::lemma_bytes_le_total;
use crate::text::lemma_bytes_le_transitive;
use crate::text::name_le;

verus! {

/// What the start order depends on, for one provider. Keys stand in registration
/// order.
pub struct StartKey {
    pub priority: u8,
    pub name: &'static str,
}

/// A task to start: the runnable and the name of its provider.
#[verifier::reject_recursive_types(S)]
pub struct RunTask<S> {
    pub name: &'static str,
    pub runnable: DynRunnable<S>,
}

/// Key `a` is at most key `b`.
pub open spec fn key_le(a: StartKey, b: StartKey) -> bool {
    a.priority < b.priority || (a.priority == b.priority && name_le(a.name, b.name))
}

/// Provider `i` starts before `j`.
pub open spec fn starts_before(keys: Seq<StartKey>, i: int, j: int) -> bool {
    key_le(keys[i], keys[j]) && (key_le(keys[j], keys[i]) ==> i < j)
}

/// `order` lists all providers, each before those that it starts before.
pub open spec fn is_start_order(keys: Seq<StartKey>, order: Seq<usize>) -> bool {
    &&& order.len() == keys.len()
    &&& order.no_duplicates()
    &&& forall|k: int| 0 <= k < order.len() ==> #[trigger] order[k] < keys.len()
    &&& forall|a: int, b: int|
        0 <= a < b < order.len() ==> starts_before(
            keys,
            #[trigger] order[a] as int,
            #[trigger] order[b] as int,
        )
}

/// `key` holds what the provider answers about its start.
pub open spec fn reads_start_key<S: 'static>(handle: DynProvider<S>, key: StartKey) -> bool {
    &&& answers_name(handle, key.name)
    &&& exists|priority: Option<u8>| #[trigger]
        answers_run_priority(handle, priority) && key.priority == match priority {
            Some(given) => given,
            None => NORMAL,
        }
}

/// `keys` holds what the providers answer, one key for each.
pub open spec fn reads_start_keys<S: 'static>(
    providers: Seq<DynProvider<S>>,
    keys: Seq<StartKey>,
) -> bool {
    &&& keys.len() == providers.len()
    &&& forall|i: int| 0 <= i < keys.len() ==> reads_start_key(providers[i], #[trigger] keys[i])
}

/// `capabilities` holds what the providers answer about being runnable, in the
/// order given.
pub open spec fn reads_capabilities<S: 'static>(
    providers: Seq<DynProvider<S>>,
    order: Seq<usize>,
    capabilities: Seq<Option<DynRunnable<S>>>,
) -> bool {
    &&& capabilities.len() == order.len()
    &&& forall|k: int|
        0 <= k < order.len() ==> answers_runnable(
            providers[order[k] as int],
            #[trigger] capabilities[k],
        )
}

/// The tasks of the providers that are runnable, in the order given.
pub open spec fn tasks_of<S>(
    keys: Seq<StartKey>,
    order: Seq<usize>,
    capabilities: Seq<Option<DynRunnable<S>>>,
) -> Seq<RunTask<S>>
    decreases capabilities.len(),
{
    if capabilities.len() == 0 {
        Seq::empty()
    } else {
        let rest = tasks_of(keys, order, capabilities.drop_last());
        match capabilities.last() {
            Some(runnable) => rest.push(
                RunTask { name: keys[order[capabilities.len() - 1] as int].name, runnable },
            ),
            None => rest,
        }
    }
}

/// The order of keys is total and transitive.
proof fn lemma_key_le(a: StartKey, b: StartKey, c: StartKey)
    ensures
        key_le(a, b) || key_le(b, a),
        key_le(a, b) && key_le(b, c) ==> key_le(a, c),
{
    lemma_bytes_le_total(a.name.spec_bytes(), b.name.spec_bytes());
    if key_le(a, b) && key_le(b, c) && a.priority == b.priority && b.priority == c.priority {
        lemma_bytes_le_transitive(a.name.spec_bytes(), b.name.spec_bytes(), c.name.spec_bytes());
    }
}

/// Sorts the providers by their start keys. Providers with equal keys stay in
/// registration order.
pub fn start_order(keys: &Vec<StartKey>) -> (order: Vec<usize>)
    ensures
        is_start_order(keys@, order@),
{
    let mut order: Vec<usize> = Vec::new();
    let mut idx: usize = 0;
    while idx < keys.len()
        invariant
            idx <= keys@.len(),
            order@.len() == idx,
            order@.no_duplicates(),
            forall|k: int| 0 <= k < order@.len() ==> #[trigger] order@[k] < idx,
            forall|a: int, b: int|
                0 <= a < b < order@.len() ==> starts_before(
                    keys@,
                    #[trigger] order@[a] as int,
                    #[trigger] order@[b] as int,
                ),
        decreases keys@.len() - idx,
    {
        let mut at: usize = order.len();
        while at > 0 && !key_at_most(&keys[order[at - 1]], &keys[idx])
            invariant
                at <= order@.len(),
                idx < keys@.len(),
                forall|k: int| 0 <= k < order@.len() ==> #[trigger] order@[k] < idx,
                forall|k: int|
                    at <= k < order@.len() ==> !key_le(
                        keys@[#[trigger] order@[k] as int],
                        keys@[idx as int],
                    ),
            decreases at,
        {
            at = at - 1;
        }
        let ghost shorter = order@;
        order.insert(at, idx);
        proof {
            assert forall|a: int, b: int| 0 <= a < b < order@.len() implies order@[a] != order@[b]
                && starts_before(
                keys@,
                #[trigger] order@[a] as int,
                #[trigger] order@[b] as int,
            ) by {
                let a2 = if a < at { a } else { a - 1 };
                let b2 = if b < at { b } else { b - 1 };
                if a != at {
                    assert(order@[a] == shorter[a2]);
                }
                if b != at {
                    assert(order@[b] == shorter[b2]);
                }
                if b == at {
                    // The provider at `at - 1` is at most the new one, and so are
                    // those before it.
                    let near = keys@[shorter[at - 1] as int];
                    lemma_key_le(keys@[shorter[a] as int], near, keys@[idx as int]);
                    if a < at - 1 {
                        assert(starts_before(
                            keys@,
                            shorter[a] as int,
                            shorter[at - 1] as int,
                        ));
                    }
                } else if a == at {
                    lemma_key_le(
                        keys@[idx as int],
                        keys@[shorter[b2] as int],
                        keys@[idx as int],
                    );
                }
            }
            assert forall|k: int| 0 <= k < order@.len() implies #[trigger] order@[k] < idx + 1 by {
                let k2 = if k < at { k } else { k - 1 };
                if k != at {
                    assert(order@[k] == shorter[k2]);
                }
            }
        }
        idx = idx + 1;
    }
    order
}

/// Compares two start keys.
fn key_at_most(a: &StartKey, b: &StartKey) -> (r: bool)
    ensures
        r == key_le(*a, *b),
{
    a.priority < b.priority || (a.priority == b.priority && at_most(a.name, b.name))
}

/// Asks the providers for what the start order depends on.
fn start_keys<S: 'static>(providers: &Vec<DynProvider<S>>) -> (keys: Vec<StartKey>)
    ensures
        reads_start_keys(providers@, keys@),
{
    let mut keys: Vec<StartKey> = Vec::new();
    let mut at: usize = 0;
    while at < providers.len()
        invariant
            at <= providers@.len(),
            keys@.len() == at,
            forall|i: int|
                0 <= i < at ==> reads_start_key(providers@[i], #[trigger] keys@[i]),
        decreases providers@.len() - at,
    {
        let given = run_priority_of(&providers[at]);
        assert(answers_run_priority(providers@[at as int], given));
        let priority = match given {
            Some(priority) => priority,
            None => NORMAL,
        };
        let name = name_of(&providers[at]);
        keys.push(StartKey { priority, name });
        at = at + 1;
    }
    keys
}

impl<S: 'static> Registry<S> {
    /// The tasks of all runnable providers, in the order in which they start.
    pub fn run_all(&self) -> (tasks: Vec<RunTask<S>>)
        ensures
            exists|
                keys: Seq<StartKey>,
                order: Seq<usize>,
                capabilities: Seq<Option<DynRunnable<S>>>,
            |
                reads_start_keys(handles(self.entries()), keys) && is_start_order(keys, order)
                    && reads_capabilities(handles(self.entries()), order, capabilities) && tasks@
                    == #[trigger] tasks_of(keys, order, capabilities),
    {
        let providers = self.providers();
        let keys = start_keys(&providers);
        let order = start_order(&keys);
        let mut tasks: Vec<RunTask<S>> = Vec::new();
        let ghost mut capabilities: Seq<Option<DynRunnable<S>>> = Seq::empty();
        let mut at: usize = 0;
        while at < order.len()
            invariant
                at <= order@.len(),
                is_start_order(keys@, order@),
                providers@.len() == keys@.len(),
                capabilities.len() == at,
                forall|k: int|
                    0 <= k < at ==> answers_runnable(
                        providers@[order@[k] as int],
                        #[trigger] capabilities[k],
                    ),
                tasks@ == tasks_of(keys@, order@, capabilities),
            decreases order@.len() - at,
        {
            let idx = order[at];
            let capability = runnable_of(&providers[idx]);
            proof {
                assert(capabilities.push(capability).drop_last() == capabilities);
                capabilities = capabilities.push(capability);
            }
            if let Some(runnable) = capability {
                tasks.push(RunTask { name: keys[idx].name, runnable });
            }
            at = at + 1;
        }
        proof {
            assert(reads_capabilities(handles(self.entries()), order@, capabilities));
        }
        tasks
    }
}

/// Two start orders agree on the first `n` places.
proof fn lemma_start_orders_agree(keys: Seq<StartKey>, a: Seq<usize>, b: Seq<usize>, n: int)
    requires
        is_start_order(keys, a),
        is_start_order(keys, b),
        0 <= n <= keys.len(),
    ensures
        a.take(n) == b.take(n),
    decreases n,
{
    if n > 0 {
        lemma_start_orders_agree(keys, a, b, n - 1);
        lemma_distinct_indices(a, keys.len() as int);
        lemma_distinct_indices(b, keys.len() as int);
        assert(holds(a, b[n - 1] as int) && holds(b, a[n - 1] as int));
        let p = choose|p: int| 0 <= p < a.len() && a[p] == b[n - 1];
        let q = choose|q: int| 0 <= q < b.len() && b[q] == a[n - 1];
        if p < n - 1 {
            assert(a.take(n - 1)[p] == b.take(n - 1)[p]);
            assert(b[p] == b[n - 1]);
        }
        if q < n - 1 {
            assert(a.take(n - 1)[q] == b.take(n - 1)[q]);
            assert(a[q] == a[n - 1]);
        }
        if p > n - 1 && q > n - 1 {
            assert(starts_before(keys, a[n - 1] as int, a[p] as int));
            assert(starts_before(keys, b[n - 1] as int, b[q] as int));
        }
        assert(a[n - 1] == b[n - 1]);
        assert forall|k: int| 0 <= k < n implies a.take(n)[k] == b.take(n)[k] by {
            if k < n - 1 {
                assert(a.take(n - 1)[k] == b.take(n - 1)[k]);
            }
        }
    }
}

/// The start order is deterministic: the same providers in the same registration
/// order have one start order.
pub proof fn start_order_is_unique(keys: Seq<StartKey>, a: Seq<usize>, b: Seq<usize>)
    requires
        is_start_order(keys, a),
        is_start_order(keys, b),
    ensures
        a == b,
{
    lemma_start_orders_agree(keys, a, b, keys.len() as int);
    assert(a.take(keys.len() as int) == a);
    assert(b.take(keys.len() as int) == b);
}

/// `task` is the task of the provider that stands at `k` in the order given,
/// which is runnable.
pub open spec fn is_task_at<S>(
    keys: Seq<StartKey>,
    order: Seq<usize>,
    capabilities: Seq<Option<DynRunnable<S>>>,
    k: int,
    task: RunTask<S>,
) -> bool {
    &&& 0 <= k < capabilities.len()
    &&& capabilities[k] == Some(task.runnable)
    &&& task.name == keys[order[k] as int].name
}

/// Every runnable provider is started, under its own name, and there are no other
/// tasks than those of runnable providers.
pub proof fn runnables_are_started<S>(
    keys: Seq<StartKey>,
    order: Seq<usize>,
    capabilities: Seq<Option<DynRunnable<S>>>,
)
    ensures
        forall|k: int, task: RunTask<S>| #[trigger]
            is_task_at(keys, order, capabilities, k, task) ==> tasks_of(
                keys,
                order,
                capabilities,
            ).contains(task),
        forall|task: RunTask<S>| #[trigger]
            tasks_of(keys, order, capabilities).contains(task) ==> exists|k: int|
                is_task_at(keys, order, capabilities, k, task),
    decreases capabilities.len(),
{
    let tasks = tasks_of(keys, order, capabilities);
    if capabilities.len() > 0 {
        let shorter = capabilities.drop_last();
        runnables_are_started(keys, order, shorter);
        let rest = tasks_of(keys, order, shorter);
        assert forall|k: int, task: RunTask<S>| #[trigger]
            is_task_at(keys, order, capabilities, k, task) implies tasks.contains(task) by {
            if k < shorter.len() {
                assert(is_task_at(keys, order, shorter, k, task));
                let t = choose|t: int| 0 <= t < rest.len() && rest[t] == task;
                assert(tasks[t] == task);
            } else {
                assert(tasks[tasks.len() - 1] == task);
            }
        }
        assert forall|task: RunTask<S>| #[trigger] tasks.contains(task) implies exists|k: int|
            is_task_at(keys, order, capabilities, k, task) by {
            let t = choose|t: int| 0 <= t < tasks.len() && tasks[t] == task;
            if t < rest.len() {
                assert(rest[t] == task);
                assert(rest.contains(task));
                let k = choose|k: int| is_task_at(keys, order, shorter, k, task);
                assert(is_task_at(keys, order, capabilities, k, task));
            } else {
                assert(is_task_at(keys, order, capabilities, capabilities.len() - 1, task));
            }
        }
    }
}

} // verus!
