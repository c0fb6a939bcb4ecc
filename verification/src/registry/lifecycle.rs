//! The lifecycle order: dependencies first, then priority, then registration.
//!
//! Each provider is a [`Node`]. A provider that names another type in `before`
//! or `after` puts an edge between the two. The order places one provider at a
//! time: of those whose predecessors are all placed, the one with the lowest
//! priority value, and among equals the one registered first.
use std::any::TypeId;
use vstd::prelude::*;
use crate::text::joined;

verus! {

/// What the lifecycle order depends on, for one provider. Nodes stand in
/// registration order.
pub struct Node {
    pub type_id: TypeId,
    pub priority: u8,
    pub before: Vec<TypeId>,
    pub after: Vec<TypeId>,
    pub name: &'static str,
}

/// No type is registered twice.
pub open spec fn distinct_types(nodes: Seq<Node>) -> bool {
    forall|i: int, j: int|
        0 <= i < j < nodes.len() ==> (#[trigger] nodes[i]).type_id != (#[trigger] nodes[j]).type_id
}

/// Provider `i` must come before provider `j`.
pub open spec fn edge(nodes: Seq<Node>, i: int, j: int) -> bool {
    &&& 0 <= i < nodes.len()
    &&& 0 <= j < nodes.len()
    &&& i != j
    &&& nodes[i].before@.contains(nodes[j].type_id) || nodes[j].after@.contains(nodes[i].type_id)
}

/// `x` is one of the entries of `s`.
pub open spec fn holds(s: Seq<usize>, x: int) -> bool {
    exists|k: int| 0 <= k < s.len() && #[trigger] s[k] == x
}

/// Provider `i` can be placed next, after those in `placed`.
pub open spec fn ready(nodes: Seq<Node>, placed: Seq<usize>, i: int) -> bool {
    &&& 0 <= i < nodes.len()
    &&& !holds(placed, i)
    &&& forall|p: int| #[trigger] edge(nodes, p, i) ==> holds(placed, p)
}

/// Provider `i` is preferred to `j` when both are ready.
pub open spec fn preferred(nodes: Seq<Node>, i: int, j: int) -> bool {
    nodes[i].priority < nodes[j].priority || (nodes[i].priority == nodes[j].priority && i < j)
}

/// Provider `i` is the one to place next, after those in `placed`.
pub open spec fn next_up(nodes: Seq<Node>, placed: Seq<usize>, i: int) -> bool {
    &&& ready(nodes, placed, i)
    &&& forall|j: int| #[trigger] ready(nodes, placed, j) && j != i ==> preferred(nodes, i, j)
}

/// Each provider in `order` was the one to place next when it was placed.
pub open spec fn is_run(nodes: Seq<Node>, order: Seq<usize>) -> bool {
    forall|k: int|
        0 <= k < order.len() ==> next_up(nodes, order.take(k), #[trigger] order[k] as int)
}

/// Nothing can be placed after `order`.
pub open spec fn is_over(nodes: Seq<Node>, order: Seq<usize>) -> bool {
    forall|i: int| !#[trigger] ready(nodes, order, i)
}

/// `order` is the lifecycle order of `nodes`: a run that places every provider.
pub open spec fn is_lifecycle_order(nodes: Seq<Node>, order: Seq<usize>) -> bool {
    is_run(nodes, order) && order.len() == nodes.len()
}

/// Each provider in `path` must come before the one that follows it.
pub open spec fn is_path(nodes: Seq<Node>, path: Seq<int>) -> bool {
    &&& path.len() >= 2
    &&& forall|k: int| 0 <= k < path.len() - 1 ==> edge(nodes, #[trigger] path[k], path[k + 1])
}

/// Some provider must, through others, come before itself.
pub open spec fn has_cycle(nodes: Seq<Node>) -> bool {
    exists|path: Seq<int>| #[trigger] is_path(nodes, path) && path.first() == path.last()
}

/// The names of the first `n` providers that `order` does not place.
pub open spec fn blocked_names(nodes: Seq<Node>, order: Seq<usize>, n: nat) -> Seq<Seq<char>>
    decreases n,
{
    if n == 0 {
        Seq::empty()
    } else {
        let rest = blocked_names(nodes, order, (n - 1) as nat);
        if holds(order, n - 1) {
            rest
        } else {
            rest.push(nodes[n - 1].name@)
        }
    }
}

/// The message for providers that cannot be ordered, where `order` is as far as
/// placing them got.
pub open spec fn cycle_message(nodes: Seq<Node>, order: Seq<usize>) -> Seq<char> {
    "provider lifecycle order cycle detected: "@ + joined(
        blocked_names(nodes, order, nodes.len()),
        ", "@,
    )
}

/// Distinct indices below `n` are at most `n` many, exactly `n` of them are all,
/// and fewer leave one out.
pub proof fn lemma_distinct_indices(s: Seq<usize>, n: int)
    requires
        0 <= n,
        s.no_duplicates(),
        forall|k: int| 0 <= k < s.len() ==> s[k] < n,
    ensures
        s.len() <= n,
        s.len() == n ==> forall|i: int| 0 <= i < n ==> #[trigger] holds(s, i),
        s.len() < n ==> exists|i: int| 0 <= i < n && !#[trigger] holds(s, i),
{
    let ints = s.map_values(|x: usize| x as int);
    let range = vstd::set_lib::set_int_range(0, n);
    assert(ints.no_duplicates());
    ints.unique_seq_to_set();
    vstd::set_lib::lemma_int_range(0, n);
    assert(ints.to_set().subset_of(range)) by {
        assert forall|x: int| ints.to_set().contains(x) implies range.contains(x) by {
            let k = choose|k: int| 0 <= k < ints.len() && ints[k] == x;
            assert(s[k] < n);
        }
    }
    vstd::set_lib::lemma_len_subset(ints.to_set(), range);
    assert forall|i: int| 0 <= i < n && !#[trigger] holds(s, i) implies s.len() < n by {
        assert(ints.to_set().subset_of(range.remove(i))) by {
            assert forall|x: int| ints.to_set().contains(x) implies range.remove(i).contains(x) by {
                let k = choose|k: int| 0 <= k < ints.len() && ints[k] == x;
                assert(s[k] == x);
            }
        }
        vstd::set_lib::lemma_len_subset(ints.to_set(), range.remove(i));
    }
    if forall|i: int| 0 <= i < n ==> #[trigger] holds(s, i) {
        assert(range.subset_of(ints.to_set())) by {
            assert forall|x: int| range.contains(x) implies ints.to_set().contains(x) by {
                assert(holds(s, x));
                let k = choose|k: int| 0 <= k < s.len() && s[k] == x;
                assert(ints[k] == x);
            }
        }
        vstd::set_lib::lemma_len_subset(range, ints.to_set());
    }
}

/// A run places no provider twice, and all that must come before a placed
/// provider are placed.
pub proof fn lemma_run(nodes: Seq<Node>, order: Seq<usize>)
    requires
        is_run(nodes, order),
    ensures
        order.no_duplicates(),
        forall|k: int| 0 <= k < order.len() ==> #[trigger] order[k] < nodes.len(),
        forall|i: int, j: int| #[trigger]
            edge(nodes, i, j) && holds(order, j) ==> holds(order, i),
        order.len() <= nodes.len(),
{
    assert forall|a: int, b: int| 0 <= a < b < order.len() implies order[a] != order[b] by {
        assert(next_up(nodes, order.take(b), order[b] as int));
        assert(order.take(b)[a] == order[a]);
    }
    assert forall|i: int, j: int| #[trigger] edge(nodes, i, j) && holds(order, j) implies holds(
        order,
        i,
    ) by {
        let k = choose|k: int| 0 <= k < order.len() && order[k] == j;
        assert(next_up(nodes, order.take(k), order[k] as int));
        assert(holds(order.take(k), i));
        let m = choose|m: int| 0 <= m < order.take(k).len() && order.take(k)[m] == i;
        assert(order[m] == i);
    }
    lemma_distinct_indices(order, nodes.len() as int);
}

/// In a run, a provider stands after all that must come before it.
pub proof fn order_respects_edges(nodes: Seq<Node>, order: Seq<usize>, i: int, j: int)
    requires
        is_run(nodes, order),
        0 <= i < order.len(),
        0 <= j < order.len(),
        edge(nodes, order[i] as int, order[j] as int),
    ensures
        i < j,
{
    assert(next_up(nodes, order.take(j), order[j] as int));
    assert(holds(order.take(j), order[i] as int));
    let m = choose|m: int| 0 <= m < order.take(j).len() && order.take(j)[m] == order[i];
    assert(order[m] == order[i]);
    lemma_run(nodes, order);
}

/// The lifecycle order places each provider exactly once.
pub proof fn lifecycle_order_places_each_once(nodes: Seq<Node>, order: Seq<usize>)
    requires
        is_lifecycle_order(nodes, order),
    ensures
        order.no_duplicates(),
        forall|k: int| 0 <= k < order.len() ==> #[trigger] order[k] < nodes.len(),
        forall|i: int| 0 <= i < nodes.len() ==> #[trigger] holds(order, i),
{
    lemma_run(nodes, order);
    lemma_distinct_indices(order, nodes.len() as int);
}

/// The place of provider `i` in `order`.
spec fn place_of(order: Seq<usize>, i: int) -> int {
    choose|k: int| 0 <= k < order.len() && order[k] == i
}

/// Along a path the places in a complete order grow.
proof fn lemma_path_grows(nodes: Seq<Node>, order: Seq<usize>, path: Seq<int>, k: int)
    requires
        is_lifecycle_order(nodes, order),
        is_path(nodes, path),
        1 <= k < path.len(),
    ensures
        place_of(order, path[0]) < place_of(order, path[k]),
    decreases k,
{
    lemma_run(nodes, order);
    lemma_distinct_indices(order, nodes.len() as int);
    assert(edge(nodes, path[k - 1], path[k - 1 + 1]));
    let a = place_of(order, path[k - 1]);
    let b = place_of(order, path[k]);
    assert(holds(order, path[k - 1]) && holds(order, path[k]));
    assert(order[a] == path[k - 1] && order[b] == path[k]);
    order_respects_edges(nodes, order, a, b);
    if k > 1 {
        lemma_path_grows(nodes, order, path, k - 1);
    }
}

/// Providers that can all be placed have no cycle.
pub proof fn ordered_providers_have_no_cycle(nodes: Seq<Node>, order: Seq<usize>)
    requires
        is_lifecycle_order(nodes, order),
    ensures
        !has_cycle(nodes),
{
    if has_cycle(nodes) {
        let path = choose|path: Seq<int>| #[trigger]
            is_path(nodes, path) && path.first() == path.last();
        lemma_path_grows(nodes, order, path, path.len() - 1);
    }
}

/// A provider that must come before `i` and is not placed.
spec fn blocker(nodes: Seq<Node>, order: Seq<usize>, i: int) -> int {
    choose|p: int| edge(nodes, p, i) && !holds(order, p)
}

/// `start`, then what blocks it, then what blocks that, and so on.
spec fn blocking_walk(nodes: Seq<Node>, order: Seq<usize>, start: int, n: nat) -> Seq<int>
    decreases n,
{
    if n == 0 {
        seq![start]
    } else {
        let walk = blocking_walk(nodes, order, start, (n - 1) as nat);
        walk.push(blocker(nodes, order, walk.last()))
    }
}

/// Where placing is over, each step of a blocking walk is an edge between
/// providers that are not placed.
proof fn lemma_blocking_walk(nodes: Seq<Node>, order: Seq<usize>, start: int, n: nat)
    requires
        is_over(nodes, order),
        0 <= start < nodes.len(),
        !holds(order, start),
    ensures
        blocking_walk(nodes, order, start, n).len() == n + 1,
        forall|k: int|
            0 <= k <= n ==> 0 <= #[trigger] blocking_walk(nodes, order, start, n)[k] < nodes.len()
                && !holds(order, blocking_walk(nodes, order, start, n)[k]),
        forall|k: int|
            0 <= k < n ==> edge(
                nodes,
                blocking_walk(nodes, order, start, n)[k + 1],
                #[trigger] blocking_walk(nodes, order, start, n)[k],
            ),
    decreases n,
{
    if n > 0 {
        lemma_blocking_walk(nodes, order, start, (n - 1) as nat);
        let shorter = blocking_walk(nodes, order, start, (n - 1) as nat);
        let walk = blocking_walk(nodes, order, start, n);
        let last = shorter.last();
        assert(last == shorter[n - 1]);
        assert(!ready(nodes, order, last));
        assert(exists|p: int| edge(nodes, p, last) && !holds(order, p));
        assert forall|k: int| 0 <= k < n implies edge(nodes, walk[k + 1], #[trigger] walk[k]) by {
            if k < n - 1 {
                assert(edge(nodes, shorter[k + 1], shorter[k]));
            }
        }
        assert forall|k: int| 0 <= k <= n implies 0 <= #[trigger] walk[k] < nodes.len() && !holds(
            order,
            walk[k],
        ) by {
            if k < n {
                assert(walk[k] == shorter[k]);
            }
        }
    }
}

/// More than `n` numbers below `n` are not all different.
proof fn lemma_repeat(s: Seq<int>, n: int)
    requires
        0 <= n < s.len(),
        forall|k: int| 0 <= k < s.len() ==> 0 <= #[trigger] s[k] < n,
    ensures
        exists|a: int, b: int| 0 <= a < b < s.len() && #[trigger] s[a] == #[trigger] s[b],
{
    if forall|a: int, b: int| 0 <= a < b < s.len() ==> #[trigger] s[a] != #[trigger] s[b] {
        assert(s.no_duplicates());
        s.unique_seq_to_set();
        let range = vstd::set_lib::set_int_range(0, n);
        vstd::set_lib::lemma_int_range(0, n);
        assert(s.to_set().subset_of(range));
        vstd::set_lib::lemma_len_subset(s.to_set(), range);
    }
}

/// Where placing is over with a provider left out, there is a cycle.
pub proof fn left_out_providers_have_a_cycle(nodes: Seq<Node>, order: Seq<usize>, start: int)
    requires
        is_over(nodes, order),
        0 <= start < nodes.len(),
        !holds(order, start),
    ensures
        has_cycle(nodes),
{
    let n = nodes.len();
    let walk = blocking_walk(nodes, order, start, n);
    lemma_blocking_walk(nodes, order, start, n);
    lemma_repeat(walk, n as int);
    let (a, b) = choose|a: int, b: int| 0 <= a < b < walk.len() && #[trigger] walk[a]
        == #[trigger] walk[b];
    let path = Seq::new((b - a + 1) as nat, |k: int| walk[b - k]);
    assert forall|k: int| 0 <= k < path.len() - 1 implies edge(
        nodes,
        #[trigger] path[k],
        path[k + 1],
    ) by {
        assert(edge(nodes, walk[b - k - 1 + 1], walk[b - k - 1]));
    }
    assert(is_path(nodes, path) && path.first() == path.last());
}

/// At most one provider is the one to place next.
proof fn lemma_one_next_up(nodes: Seq<Node>, placed: Seq<usize>, i: int, j: int)
    requires
        next_up(nodes, placed, i),
        next_up(nodes, placed, j),
    ensures
        i == j,
{
    if i != j {
        assert(ready(nodes, placed, i) && ready(nodes, placed, j));
        assert(preferred(nodes, i, j) && preferred(nodes, j, i));
    }
}

/// Two runs agree on the first `n` places.
proof fn lemma_runs_agree(nodes: Seq<Node>, a: Seq<usize>, b: Seq<usize>, n: int)
    requires
        is_run(nodes, a),
        is_run(nodes, b),
        0 <= n <= a.len(),
        n <= b.len(),
    ensures
        a.take(n) == b.take(n),
    decreases n,
{
    if n > 0 {
        lemma_runs_agree(nodes, a, b, n - 1);
        assert(next_up(nodes, a.take(n - 1), a[n - 1] as int));
        assert(next_up(nodes, b.take(n - 1), b[n - 1] as int));
        lemma_one_next_up(nodes, a.take(n - 1), a[n - 1] as int, b[n - 1] as int);
        assert forall|k: int| 0 <= k < n implies a.take(n)[k] == b.take(n)[k] by {
            if k < n - 1 {
                assert(a.take(n - 1)[k] == b.take(n - 1)[k]);
            }
        }
    }
}

/// The lifecycle order is deterministic: the same providers in the same
/// registration order have one lifecycle order.
pub proof fn lifecycle_order_is_unique(nodes: Seq<Node>, a: Seq<usize>, b: Seq<usize>)
    requires
        is_lifecycle_order(nodes, a),
        is_lifecycle_order(nodes, b),
    ensures
        a == b,
{
    lemma_runs_agree(nodes, a, b, nodes.len() as int);
    assert(a.take(nodes.len() as int) == a);
    assert(b.take(nodes.len() as int) == b);
}

/// Where providers cannot be ordered, how far placing them gets is deterministic
/// too, and so is the message.
pub proof fn cycle_message_is_unique(nodes: Seq<Node>, a: Seq<usize>, b: Seq<usize>)
    requires
        is_run(nodes, a),
        is_over(nodes, a),
        is_run(nodes, b),
        is_over(nodes, b),
    ensures
        a == b,
        cycle_message(nodes, a) == cycle_message(nodes, b),
{
    let n = if a.len() <= b.len() { a.len() as int } else { b.len() as int };
    lemma_runs_agree(nodes, a, b, n);
    if a.len() < b.len() {
        assert(a.take(n) == a);
        assert(next_up(nodes, b.take(n), b[n] as int));
        assert(ready(nodes, a, b[n] as int));
    } else if b.len() < a.len() {
        assert(b.take(n) == b);
        assert(next_up(nodes, a.take(n), a[n] as int));
        assert(ready(nodes, b, a[n] as int));
    }
    assert(a.take(n) == a);
    assert(b.take(n) == b);
}

/// A provider that was ready when another was placed, and comes later, has a
/// higher priority value, or the same and was registered later.
pub proof fn lower_priority_comes_first(nodes: Seq<Node>, order: Seq<usize>, a: int, b: int)
    requires
        is_run(nodes, order),
        0 <= a < b < order.len(),
        ready(nodes, order.take(a), order[b] as int),
    ensures
        preferred(nodes, order[a] as int, order[b] as int),
{
    lemma_run(nodes, order);
    assert(next_up(nodes, order.take(a), order[a] as int));
}

/// Without ordering hints between them, providers stand by priority, and among
/// equals by registration.
pub proof fn without_hints_priority_decides(
    nodes: Seq<Node>,
    order: Seq<usize>,
    a: int,
    b: int,
)
    requires
        forall|i: int, j: int| !#[trigger] edge(nodes, i, j),
        is_lifecycle_order(nodes, order),
        0 <= a < b < order.len(),
    ensures
        preferred(nodes, order[a] as int, order[b] as int),
{
    lemma_run(nodes, order);
    assert(!holds(order.take(a), order[b] as int)) by {
        if holds(order.take(a), order[b] as int) {
            let k = choose|k: int| 0 <= k < order.take(a).len() && order.take(a)[k] == order[b];
            assert(order[k] == order[b]);
        }
    }
    assert(ready(nodes, order.take(a), order[b] as int));
    lower_priority_comes_first(nodes, order, a, b);
}

} // verus!
