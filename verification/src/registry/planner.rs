//! Working out the lifecycle order: the edges are collected once, then the
//! providers that no open edge leads to are placed one by one.
use std::any::TypeId;
use vstd::prelude::*;
use vstd::string::StringExecFns;
use crate::count::count;
use crate::count::lemma_count_bound;
use crate::count::lemma_count_one_more;
use crate::count::lemma_count_same;
use crate::count::lemma_count_zero;
use crate::registry::error::Error;
use crate::registry::identity::same_type;
use crate::registry::lifecycle::blocked_names;
use crate::registry::lifecycle::cycle_message;
use crate::registry::lifecycle::distinct_types;
use crate::registry::lifecycle::edge;
use crate::registry::lifecycle::has_cycle;
use crate::registry::lifecycle::holds;
use crate::registry::lifecycle::is_lifecycle_order;
use crate::registry::lifecycle::is_over;
use crate::registry::lifecycle::is_run;
use crate::registry::lifecycle::left_out_providers_have_a_cycle;
use crate::registry::lifecycle::lemma_distinct_indices;
use crate::registry::lifecycle::lemma_run;
use crate::registry::lifecycle::next_up;
use crate::registry::lifecycle::ordered_providers_have_no_cycle;
use crate::registry::lifecycle::preferred;
use crate::registry::lifecycle::ready;
use crate::registry::lifecycle::Node;
use crate::text::join;
use crate::text::views;

verus! {

/// Looks for `x` in a list of indices.
fn listed(list: &Vec<usize>, x: usize) -> (found: bool)
    ensures
        found == holds(list@, x as int),
{
    let mut at: usize = 0;
    while at < list.len()
        invariant
            at <= list@.len(),
            forall|k: int| 0 <= k < at ==> list@[k] != x,
        decreases list@.len() - at,
    {
        if list[at] == x {
            assert(list@[at as int] == x as int);
            return true;
        }
        at = at + 1;
    }
    false
}

/// The dependencies as an adjacency list, with the number of incoming edges.
struct Graph {
    outgoing: Vec<Vec<usize>>,
    indegree: Vec<usize>,
}

impl Graph {
    /// There is an edge from `i` to `j`.
    spec fn arc(self, i: int, j: int) -> bool {
        &&& 0 <= i < self.outgoing@.len()
        &&& holds(self.outgoing@[i]@, j)
    }

    /// The lists hold each target once, all targets are below the number of
    /// providers.
    spec fn shaped(self) -> bool {
        &&& self.outgoing@.len() == self.indegree@.len()
        &&& forall|i: int|
            #![trigger self.outgoing@[i]]
            0 <= i < self.outgoing@.len() ==> self.outgoing@[i]@.no_duplicates()
        &&& forall|i: int, k: int|
            #![trigger self.outgoing@[i]@[k]]
            0 <= i < self.outgoing@.len() && 0 <= k < self.outgoing@[i]@.len()
                ==> self.outgoing@[i]@[k] < self.outgoing@.len()
    }

    /// Each in-degree is the number of edges that lead to the provider.
    spec fn counted(self) -> bool {
        forall|j: int|
            #![trigger self.indegree@[j]]
            0 <= j < self.indegree@.len() ==> self.indegree@[j] == count(
                |i: int| self.arc(i, j),
                self.outgoing@.len(),
            )
    }

    fn with_size(size: usize) -> (graph: Self)
        ensures
            graph.outgoing@.len() == size,
            graph.shaped(),
            graph.counted(),
            forall|i: int, j: int| !graph.arc(i, j),
    {
        let mut outgoing: Vec<Vec<usize>> = Vec::new();
        let mut indegree: Vec<usize> = Vec::new();
        let mut at: usize = 0;
        while at < size
            invariant
                at <= size,
                outgoing@.len() == at,
                indegree@.len() == at,
                forall|i: int|
                    #![trigger outgoing@[i]]
                    0 <= i < at ==> outgoing@[i]@.len() == 0,
                forall|i: int| 0 <= i < at ==> indegree@[i] == 0,
            decreases size - at,
        {
            outgoing.push(Vec::new());
            indegree.push(0);
            at = at + 1;
        }
        let graph = Graph { outgoing, indegree };
        proof {
            assert forall|j: int| 0 <= j < graph.indegree@.len() implies #[trigger] graph.indegree@[j]
                == count(|i: int| graph.arc(i, j), graph.outgoing@.len()) by {
                lemma_count_zero(|i: int| graph.arc(i, j), graph.outgoing@.len());
            }
        }
        graph
    }

    /// Adds the edge unless it is there already or leads from a provider to
    /// itself.
    fn add_edge(&mut self, from: usize, to: usize)
        requires
            old(self).shaped(),
            old(self).counted(),
            from < old(self).outgoing@.len(),
            to < old(self).outgoing@.len(),
        ensures
            final(self).shaped(),
            final(self).counted(),
            final(self).outgoing@.len() == old(self).outgoing@.len(),
            forall|i: int, j: int|
                #[trigger] final(self).arc(i, j) == (old(self).arc(i, j) || (i == from && j == to
                    && from != to)),
    {
        if from == to {
            return ;
        }
        if listed(&self.outgoing[from], to) {
            assert(self.arc(from as int, to as int));
            return ;
        }
        let ghost n = self.outgoing@.len();
        let ghost start = *self;
        let size = self.outgoing.len();
        proof {
            // With `from` not yet among them, fewer than `n` edges lead to `to`.
            let leads = |i: int| start.arc(i, to as int);
            let after = |i: int| start.arc(i, to as int) || i == from;
            lemma_count_one_more(leads, after, n, from as int);
            lemma_count_bound(after, n);
            assert(start.indegree@[to as int] == count(leads, n));
        }
        self.outgoing[from].push(to);
        let degree = self.indegree[to];
        self.indegree[to] = degree + 1;
        proof {
            assert(self.outgoing@ == start.outgoing@.update(
                from as int,
                self.outgoing@[from as int],
            ));
            assert(self.outgoing@[from as int]@ == start.outgoing@[from as int]@.push(to));
            assert forall|i: int, j: int| #[trigger]
                self.arc(i, j) == (start.arc(i, j) || (i == from && j == to)) by {
                if i == from {
                    let row = start.outgoing@[from as int]@;
                    if start.arc(i, j) {
                        let k = choose|k: int| 0 <= k < row.len() && #[trigger] row[k] == j;
                        assert(row.push(to)[k] == j);
                    }
                    if j == to {
                        assert(row.push(to)[row.len() as int] == j);
                    }
                    if self.arc(i, j) && j != to {
                        let k = choose|k: int|
                            0 <= k < row.push(to).len() && #[trigger] row.push(to)[k] == j;
                        assert(row[k] == j);
                    }
                }
            }
            assert forall|j: int| 0 <= j < n implies #[trigger] self.indegree@[j] == count(
                |i: int| self.arc(i, j),
                n,
            ) by {
                assert(start.indegree@[j] == count(|i: int| start.arc(i, j), n));
                if j == to {
                    lemma_count_one_more(
                        |i: int| start.arc(i, j),
                        |i: int| self.arc(i, j),
                        n,
                        from as int,
                    );
                } else {
                    lemma_count_same(|i: int| start.arc(i, j), |i: int| self.arc(i, j), n);
                }
            }
        }
    }
}

/// Provider `i` names the type of `j` among the first `n` it wants to precede.
spec fn asks_before(nodes: Seq<Node>, i: int, j: int, n: int) -> bool {
    &&& 0 <= i < nodes.len()
    &&& 0 <= j < nodes.len()
    &&& i != j
    &&& nodes[i].before@.take(n).contains(nodes[j].type_id)
}

/// Provider `j` names the type of `i` among the first `n` it wants to follow.
spec fn asks_after(nodes: Seq<Node>, i: int, j: int, n: int) -> bool {
    &&& 0 <= i < nodes.len()
    &&& 0 <= j < nodes.len()
    &&& i != j
    &&& nodes[j].after@.take(n).contains(nodes[i].type_id)
}

/// The edges that the first `n` providers ask for.
spec fn asked_by(nodes: Seq<Node>, i: int, j: int, n: int) -> bool {
    ||| i < n && asks_before(nodes, i, j, nodes[i].before@.len() as int)
    ||| j < n && asks_after(nodes, i, j, nodes[j].after@.len() as int)
}

/// One more entry of a sequence adds that entry to what its prefix holds.
proof fn lemma_longer_prefix<A>(s: Seq<A>, n: int, x: A)
    requires
        0 <= n < s.len(),
    ensures
        s.take(n + 1).contains(x) == (s.take(n).contains(x) || s[n] == x),
{
    assert(s.take(n + 1) == s.take(n).push(s[n]));
    if s.take(n).contains(x) {
        let k = choose|k: int| 0 <= k < n && s.take(n)[k] == x;
        assert(s.take(n).push(s[n])[k] == x);
    }
    if s[n] == x {
        assert(s.take(n).push(s[n])[n] == x);
    }
    if s.take(n).push(s[n]).contains(x) && s[n] != x {
        let k = choose|k: int| 0 <= k < n + 1 && s.take(n).push(s[n])[k] == x;
        assert(s.take(n)[k] == x);
    }
}

/// The place of the provider of type `id`.
fn position_of(nodes: &Vec<Node>, id: &TypeId) -> (place: Option<usize>)
    ensures
        match place {
            Some(i) => i < nodes@.len() && nodes@[i as int].type_id == *id,
            None => forall|i: int| 0 <= i < nodes@.len() ==> (#[trigger] nodes@[i]).type_id != *id,
        },
{
    let mut at: usize = 0;
    while at < nodes.len()
        invariant
            at <= nodes@.len(),
            forall|i: int| 0 <= i < at ==> (#[trigger] nodes@[i]).type_id != *id,
        decreases nodes@.len() - at,
    {
        if same_type(&nodes[at].type_id, id) {
            return Some(at);
        }
        at = at + 1;
    }
    None
}

/// Collects the edges that the providers ask for.
fn build_graph(nodes: &Vec<Node>) -> (graph: Graph)
    requires
        distinct_types(nodes@),
    ensures
        graph.shaped(),
        graph.counted(),
        graph.outgoing@.len() == nodes@.len(),
        forall|i: int, j: int| #[trigger] graph.arc(i, j) == edge(nodes@, i, j),
{
    let mut graph = Graph::with_size(nodes.len());
    let mut idx: usize = 0;
    while idx < nodes.len()
        invariant
            idx <= nodes@.len(),
            distinct_types(nodes@),
            graph.shaped(),
            graph.counted(),
            graph.outgoing@.len() == nodes@.len(),
            forall|i: int, j: int| #[trigger]
                graph.arc(i, j) == asked_by(nodes@, i, j, idx as int),
        decreases nodes@.len() - idx,
    {
        let node = &nodes[idx];
        let mut at: usize = 0;
        while at < node.before.len()
            invariant
                idx < nodes@.len(),
                *node == nodes@[idx as int],
                at <= node.before@.len(),
                distinct_types(nodes@),
                graph.shaped(),
                graph.counted(),
                graph.outgoing@.len() == nodes@.len(),
                forall|i: int, j: int| #[trigger]
                    graph.arc(i, j) == (asked_by(nodes@, i, j, idx as int) || (i == idx
                        && asks_before(nodes@, i, j, at as int))),
            decreases node.before@.len() - at,
        {
            let ghost start = graph;
            let place = position_of(nodes, &node.before[at]);
            if let Some(target) = place {
                graph.add_edge(idx, target);
            }
            proof {
                assert forall|i: int, j: int| #[trigger]
                    graph.arc(i, j) == (asked_by(nodes@, i, j, idx as int) || (i == idx
                        && asks_before(nodes@, i, j, at + 1))) by {
                    if i == idx && 0 <= j < nodes@.len() {
                        lemma_longer_prefix(node.before@, at as int, nodes@[j].type_id);
                        assert(start.arc(i, j) == (asked_by(nodes@, i, j, idx as int)
                            || asks_before(nodes@, i, j, at as int)));
                    }
                }
            }
            at = at + 1;
        }
        let mut at: usize = 0;
        while at < node.after.len()
            invariant
                idx < nodes@.len(),
                *node == nodes@[idx as int],
                at <= node.after@.len(),
                distinct_types(nodes@),
                graph.shaped(),
                graph.counted(),
                graph.outgoing@.len() == nodes@.len(),
                forall|i: int, j: int| #[trigger]
                    graph.arc(i, j) == (asked_by(nodes@, i, j, idx as int) || (i == idx
                        && asks_before(nodes@, i, j, node.before@.len() as int)) || (j == idx
                        && asks_after(nodes@, i, j, at as int))),
            decreases node.after@.len() - at,
        {
            let ghost start = graph;
            let place = position_of(nodes, &node.after[at]);
            if let Some(target) = place {
                graph.add_edge(target, idx);
            }
            proof {
                assert forall|i: int, j: int| #[trigger]
                    graph.arc(i, j) == (asked_by(nodes@, i, j, idx as int) || (i == idx
                        && asks_before(nodes@, i, j, node.before@.len() as int)) || (j == idx
                        && asks_after(nodes@, i, j, at + 1))) by {
                    if j == idx && 0 <= i < nodes@.len() {
                        lemma_longer_prefix(node.after@, at as int, nodes@[i].type_id);
                        assert(start.arc(i, j) == (asked_by(nodes@, i, j, idx as int) || (i == idx
                            && asks_before(nodes@, i, j, node.before@.len() as int))
                            || asks_after(nodes@, i, j, at as int)));
                    }
                }
            }
            at = at + 1;
        }
        idx = idx + 1;
    }
    proof {
        assert forall|i: int, j: int| #[trigger] graph.arc(i, j) == edge(nodes@, i, j) by {
            if 0 <= i < nodes@.len() && 0 <= j < nodes@.len() {
                assert(nodes@[i].before@.take(nodes@[i].before@.len() as int)
                    == nodes@[i].before@);
                assert(nodes@[j].after@.take(nodes@[j].after@.len() as int) == nodes@[j].after@);
            }
        }
    }
    graph
}

/// A run goes on with the provider that is next up.
proof fn lemma_longer_run(nodes: Seq<Node>, order: Seq<usize>, i: usize)
    requires
        is_run(nodes, order),
        next_up(nodes, order, i as int),
    ensures
        is_run(nodes, order.push(i)),
{
    assert forall|k: int| 0 <= k < order.push(i).len() implies next_up(
        nodes,
        order.push(i).take(k),
        #[trigger] order.push(i)[k] as int,
    ) by {
        if k < order.len() {
            assert(order.push(i).take(k) == order.take(k));
            assert(order[k] == order.push(i)[k]);
        } else {
            assert(order.push(i).take(k) == order);
        }
    }
}

/// Pushing onto a list adds that entry to what it holds.
proof fn lemma_holds_push(s: Seq<usize>, x: usize)
    ensures
        forall|y: int| #[trigger] holds(s.push(x), y) == (holds(s, y) || y == x),
{
    assert forall|y: int| #[trigger] holds(s.push(x), y) == (holds(s, y) || y == x) by {
        if holds(s, y) {
            let k = choose|k: int| 0 <= k < s.len() && s[k] == y;
            assert(s.push(x)[k] == y);
        }
        if y == x {
            assert(s.push(x)[s.len() as int] == y);
        }
        if holds(s.push(x), y) && y != x {
            let k = choose|k: int| 0 <= k < s.push(x).len() && s.push(x)[k] == y;
            assert(s[k] == y);
        }
    }
}

/// Removing an entry from a list without duplicates takes just it away.
proof fn lemma_holds_remove(s: Seq<usize>, at: int)
    requires
        0 <= at < s.len(),
        s.no_duplicates(),
    ensures
        s.remove(at).no_duplicates(),
        forall|y: int| #[trigger] holds(s.remove(at), y) == (holds(s, y) && y != s[at]),
{
    let r = s.remove(at);
    assert forall|a: int, b: int| 0 <= a < b < r.len() implies r[a] != r[b] by {
        let a2 = if a < at { a } else { a + 1 };
        let b2 = if b < at { b } else { b + 1 };
        assert(r[a] == s[a2] && r[b] == s[b2]);
    }
    assert forall|y: int| #[trigger] holds(r, y) == (holds(s, y) && y != s[at]) by {
        if holds(r, y) {
            let k = choose|k: int| 0 <= k < r.len() && r[k] == y;
            let k2 = if k < at { k } else { k + 1 };
            assert(s[k2] == y);
        }
        if holds(s, y) && y != s[at] {
            let k = choose|k: int| 0 <= k < s.len() && s[k] == y;
            let k2 = if k < at { k } else { k - 1 };
            assert(r[k2] == y);
        }
    }
}

/// The place in `waiting` of the provider to place next.
fn foremost(nodes: &Vec<Node>, waiting: &Vec<usize>) -> (place: usize)
    requires
        waiting@.len() > 0,
        waiting@.no_duplicates(),
        forall|k: int| 0 <= k < waiting@.len() ==> #[trigger] waiting@[k] < nodes@.len(),
    ensures
        place < waiting@.len(),
        forall|k: int|
            0 <= k < waiting@.len() && k != place ==> preferred(
                nodes@,
                waiting@[place as int] as int,
                #[trigger] waiting@[k] as int,
            ),
{
    let mut place: usize = 0;
    let mut at: usize = 1;
    while at < waiting.len()
        invariant
            place < at <= waiting@.len(),
            waiting@.no_duplicates(),
            forall|k: int| 0 <= k < waiting@.len() ==> #[trigger] waiting@[k] < nodes@.len(),
            forall|k: int|
                0 <= k < at && k != place ==> preferred(
                    nodes@,
                    waiting@[place as int] as int,
                    #[trigger] waiting@[k] as int,
                ),
        decreases waiting@.len() - at,
    {
        let best = waiting[place];
        let other = waiting[at];
        if nodes[other].priority < nodes[best].priority || (nodes[other].priority
            == nodes[best].priority && other < best) {
            place = at;
        }
        at = at + 1;
    }
    place
}

/// Takes one incoming edge off each of `targets`, and adds those that have none
/// left to `waiting`.
fn release(targets: &Vec<usize>, indegree: &mut Vec<usize>, waiting: &mut Vec<usize>)
    requires
        targets@.no_duplicates(),
        forall|k: int| 0 <= k < targets@.len() ==> #[trigger] targets@[k] < old(indegree)@.len(),
        forall|k: int|
            0 <= k < targets@.len() ==> old(indegree)@[#[trigger] targets@[k] as int] > 0,
        old(waiting)@.no_duplicates(),
        forall|x: int| #[trigger] holds(old(waiting)@, x) ==> !holds(targets@, x),
    ensures
        final(indegree)@.len() == old(indegree)@.len(),
        forall|j: int|
            0 <= j < old(indegree)@.len() ==> #[trigger] final(indegree)@[j] == old(indegree)@[j]
                - if holds(targets@, j) {
                1int
            } else {
                0int
            },
        final(waiting)@.no_duplicates(),
        forall|x: int| #[trigger]
            holds(final(waiting)@, x) == (holds(old(waiting)@, x) || (holds(targets@, x)
                && final(indegree)@[x] == 0)),
{
    let mut at: usize = 0;
    assert(targets@.take(0) == Seq::<usize>::empty());
    while at < targets.len()
        invariant
            at <= targets@.len(),
            targets@.no_duplicates(),
            forall|k: int|
                0 <= k < targets@.len() ==> #[trigger] targets@[k] < old(indegree)@.len(),
            forall|k: int|
                0 <= k < targets@.len() ==> old(indegree)@[#[trigger] targets@[k] as int] > 0,
            forall|x: int| #[trigger] holds(old(waiting)@, x) ==> !holds(targets@, x),
            indegree@.len() == old(indegree)@.len(),
            forall|j: int|
                0 <= j < old(indegree)@.len() ==> #[trigger] indegree@[j] == old(indegree)@[j]
                    - if holds(targets@.take(at as int), j) {
                    1int
                } else {
                    0int
                },
            waiting@.no_duplicates(),
            forall|x: int| #[trigger]
                holds(waiting@, x) == (holds(old(waiting)@, x) || (holds(
                    targets@.take(at as int),
                    x,
                ) && indegree@[x] == 0)),
        decreases targets@.len() - at,
    {
        let target = targets[at];
        let ghost done = targets@.take(at as int);
        proof {
            assert(targets@.take(at + 1) == done.push(target));
            lemma_holds_push(done, target);
            lemma_holds_push(waiting@, target);
            assert(!holds(done, target as int)) by {
                if holds(done, target as int) {
                    let k = choose|k: int| 0 <= k < done.len() && done[k] == target as int;
                    assert(targets@[k] == targets@[at as int]);
                }
            }
            assert(holds(targets@, target as int)) by {
                assert(targets@[at as int] == target as int);
            }
            assert(!holds(waiting@, target as int));
            assert(indegree@[target as int] == old(indegree)@[target as int]);
        }
        let ghost queue = waiting@;
        let degree = indegree[target] - 1;
        indegree[target] = degree;
        if degree == 0 {
            proof {
                assert(queue.push(target).no_duplicates()) by {
                    assert forall|a: int, b: int|
                        0 <= a < b < queue.push(target).len() implies queue.push(target)[a]
                        != queue.push(target)[b] by {
                        if b == queue.len() && queue[a] == target {
                            assert(holds(queue, target as int));
                        }
                    }
                }
            }
            waiting.push(target);
        }
        at = at + 1;
    }
    assert(targets@.take(at as int) == targets@);
}

/// The edges that lead to `j` from providers that are not placed.
spec fn open_edges(nodes: Seq<Node>, order: Seq<usize>, j: int) -> nat {
    count(|i: int| edge(nodes, i, j) && !holds(order, i), nodes.len())
}

/// A provider that is not placed is ready exactly when no open edge leads to it.
proof fn lemma_ready_is_no_open_edge(nodes: Seq<Node>, order: Seq<usize>, j: int)
    requires
        0 <= j < nodes.len(),
    ensures
        ready(nodes, order, j) == (!holds(order, j) && open_edges(nodes, order, j) == 0),
        is_run(nodes, order) && holds(order, j) ==> open_edges(nodes, order, j) == 0,
{
    let open = |i: int| edge(nodes, i, j) && !holds(order, i);
    lemma_count_zero(open, nodes.len());
    if open_edges(nodes, order, j) == 0 {
        assert forall|p: int| #[trigger] edge(nodes, p, j) implies holds(order, p) by {
            assert(!open(p));
        }
    } else {
        let p = choose|p: int| 0 <= p < nodes.len() && #[trigger] open(p);
        assert(edge(nodes, p, j) && !holds(order, p));
        if is_run(nodes, order) && holds(order, j) {
            lemma_run(nodes, order);
        }
    }
}

/// Placing `idx` closes the edge from it.
proof fn lemma_placing_closes_edges(nodes: Seq<Node>, order: Seq<usize>, idx: usize, j: int)
    requires
        0 <= j < nodes.len(),
        idx < nodes.len(),
        !holds(order, idx as int),
    ensures
        open_edges(nodes, order, j) == open_edges(nodes, order.push(idx), j) + if edge(
            nodes,
            idx as int,
            j,
        ) {
            1nat
        } else {
            0nat
        },
{
    lemma_holds_push(order, idx);
    let open = |i: int| edge(nodes, i, j) && !holds(order, i);
    let still = |i: int| edge(nodes, i, j) && !holds(order.push(idx), i);
    if edge(nodes, idx as int, j) {
        lemma_count_one_more(still, open, nodes.len(), idx as int);
    } else {
        lemma_count_same(still, open, nodes.len());
    }
}

/// The providers that nothing blocks.
fn unblocked(indegree: &Vec<usize>) -> (waiting: Vec<usize>)
    ensures
        waiting@.no_duplicates(),
        forall|x: int| #[trigger]
            holds(waiting@, x) == (0 <= x < indegree@.len() && indegree@[x] == 0),
{
    let mut waiting: Vec<usize> = Vec::new();
    let mut at: usize = 0;
    while at < indegree.len()
        invariant
            at <= indegree@.len(),
            waiting@.no_duplicates(),
            forall|x: int| #[trigger] holds(waiting@, x) == (0 <= x < at && indegree@[x] == 0),
        decreases indegree@.len() - at,
    {
        proof {
            lemma_holds_push(waiting@, at);
        }
        if indegree[at] == 0 {
            let ghost earlier = waiting@;
            waiting.push(at);
            proof {
                assert forall|a: int, b: int| 0 <= a < b < waiting@.len() implies waiting@[a]
                    != waiting@[b] by {
                    if b == earlier.len() && earlier[a] == at {
                        assert(holds(earlier, at as int));
                    }
                }
            }
        }
        at = at + 1;
    }
    waiting
}

/// The names of the providers that an incoming edge still blocks.
fn names_of_blocked(
    nodes: &Vec<Node>,
    indegree: &Vec<usize>,
    Ghost(order): Ghost<Seq<usize>>,
) -> (names: Vec<&'static str>)
    requires
        indegree@.len() == nodes@.len(),
        forall|j: int|
            0 <= j < nodes@.len() ==> (#[trigger] indegree@[j] > 0) == !holds(order, j),
    ensures
        views(names@) == blocked_names(nodes@, order, nodes@.len()),
{
    let mut names: Vec<&'static str> = Vec::new();
    let mut at: usize = 0;
    assert(views(names@) == Seq::<Seq<char>>::empty());
    while at < nodes.len()
        invariant
            at <= nodes@.len(),
            indegree@.len() == nodes@.len(),
            forall|j: int|
                0 <= j < nodes@.len() ==> (#[trigger] indegree@[j] > 0) == !holds(order, j),
            views(names@) == blocked_names(nodes@, order, at as nat),
        decreases nodes@.len() - at,
    {
        if indegree[at] > 0 {
            let ghost earlier = names@;
            names.push(nodes[at].name);
            assert(views(names@) == views(earlier).push(nodes@[at as int].name@));
        }
        at = at + 1;
    }
    names
}

/// Arranges the providers in lifecycle order, or says which of them a cycle
/// keeps from being placed.
pub fn order_provider_entries(nodes: &Vec<Node>) -> (result: Result<Vec<usize>, Error>)
    requires
        distinct_types(nodes@),
    ensures
        result is Err <==> has_cycle(nodes@),
        match result {
            Ok(order) => is_lifecycle_order(nodes@, order@),
            Err(e) => exists|order: Seq<usize>|
                is_run(nodes@, order) && is_over(nodes@, order) && e.says(
                    #[trigger] cycle_message(nodes@, order),
                ),
        },
{
    let graph = build_graph(nodes);
    let Graph { outgoing, indegree } = graph;
    let mut indegree = indegree;
    let mut waiting = unblocked(&indegree);
    let mut ordered: Vec<usize> = Vec::new();
    let ghost n = nodes@.len();
    proof {
        assert forall|j: int| 0 <= j < n implies #[trigger] indegree@[j] == open_edges(
            nodes@,
            ordered@,
            j,
        ) by {
            let open = |i: int| edge(nodes@, i, j) && !holds(ordered@, i);
            assert(graph.indegree@[j] == count(|i: int| graph.arc(i, j), n));
            lemma_count_same(|i: int| graph.arc(i, j), open, n);
        }
        assert forall|x: int| #[trigger] holds(waiting@, x) == ready(nodes@, ordered@, x) by {
            if 0 <= x < n {
                lemma_ready_is_no_open_edge(nodes@, ordered@, x);
                assert(indegree@[x] == open_edges(nodes@, ordered@, x));
            }
        }
    }
    while waiting.len() > 0
        invariant
            n == nodes@.len(),
            outgoing@ == graph.outgoing@,
            outgoing@.len() == n,
            graph.shaped(),
            forall|i: int, j: int| #[trigger] graph.arc(i, j) == edge(nodes@, i, j),
            indegree@.len() == n,
            forall|j: int|
                0 <= j < n ==> #[trigger] indegree@[j] == open_edges(nodes@, ordered@, j),
            is_run(nodes@, ordered@),
            waiting@.no_duplicates(),
            forall|x: int| #[trigger] holds(waiting@, x) == ready(nodes@, ordered@, x),
        decreases n - ordered@.len(),
    {
        let ghost queue = waiting@;
        let ghost placed = ordered@;
        let ghost degrees = indegree@;
        proof {
            assert forall|k: int| 0 <= k < queue.len() implies #[trigger] queue[k] < n by {
                assert(holds(queue, queue[k] as int));
            }
        }
        let place = foremost(nodes, &waiting);
        let idx = waiting.remove(place);
        proof {
            assert(holds(queue, idx as int)) by {
                assert(queue[place as int] == idx as int);
            }
            assert(next_up(nodes@, placed, idx as int)) by {
                assert forall|j: int| #[trigger]
                    ready(nodes@, placed, j) && j != idx implies preferred(
                    nodes@,
                    idx as int,
                    j,
                ) by {
                    assert(holds(queue, j));
                    let k = choose|k: int| 0 <= k < queue.len() && queue[k] == j;
                    assert(preferred(nodes@, queue[place as int] as int, queue[k] as int));
                }
            }
            lemma_longer_run(nodes@, placed, idx);
            lemma_run(nodes@, placed.push(idx));
            lemma_holds_remove(queue, place as int);
            lemma_holds_push(placed, idx);
            // The edges from `idx` lead to providers that it still blocks.
            assert forall|x: int| #[trigger] edge(nodes@, idx as int, x) implies degrees[x] > 0
                && holds(outgoing@[idx as int]@, x) by {
                assert(graph.arc(idx as int, x));
                lemma_placing_closes_edges(nodes@, placed, idx, x);
                assert(degrees[x] == open_edges(nodes@, placed, x));
            }
            assert forall|x: int| #[trigger] holds(outgoing@[idx as int]@, x) implies edge(
                nodes@,
                idx as int,
                x,
            ) by {
                assert(graph.arc(idx as int, x));
            }
            let row = outgoing@[idx as int]@;
            assert(row == graph.outgoing@[idx as int]@);
            assert forall|k: int| 0 <= k < row.len() implies #[trigger] row[k] < n
                && degrees[row[k] as int] > 0 by {
                assert(holds(row, row[k] as int));
            }
            assert forall|x: int| #[trigger] holds(waiting@, x) implies !holds(row, x) by {
                assert(holds(queue, x));
                lemma_ready_is_no_open_edge(nodes@, placed, x);
                assert(degrees[x] == open_edges(nodes@, placed, x));
            }
        }
        ordered.push(idx);
        release(&outgoing[idx], &mut indegree, &mut waiting);
        proof {
            let row = outgoing@[idx as int]@;
            assert forall|j: int| 0 <= j < n implies #[trigger] indegree@[j] == open_edges(
                nodes@,
                ordered@,
                j,
            ) by {
                lemma_placing_closes_edges(nodes@, placed, idx, j);
                assert(degrees[j] == open_edges(nodes@, placed, j));
                assert(holds(row, j) == edge(nodes@, idx as int, j));
            }
            assert forall|x: int| #[trigger] holds(waiting@, x) == ready(nodes@, ordered@, x) by {
                if 0 <= x < n {
                    lemma_ready_is_no_open_edge(nodes@, placed, x);
                    lemma_ready_is_no_open_edge(nodes@, ordered@, x);
                    lemma_placing_closes_edges(nodes@, placed, idx, x);
                    assert(degrees[x] == open_edges(nodes@, placed, x));
                    assert(indegree@[x] == open_edges(nodes@, ordered@, x));
                    assert(holds(row, x) == edge(nodes@, idx as int, x));
                    assert(holds(queue, x) == ready(nodes@, placed, x));
                    assert(holds(queue.remove(place as int), x) == (holds(queue, x) && x != idx));
                    assert(holds(ordered@, x) == (holds(placed, x) || x == idx));
                } else {
                    assert(!ready(nodes@, placed, x));
                    assert(!holds(queue, x));
                    assert(!holds(queue.remove(place as int), x));
                    assert(!edge(nodes@, idx as int, x));
                    assert(!holds(row, x));
                }
            }
        }
    }
    proof {
        assert forall|i: int| !#[trigger] ready(nodes@, ordered@, i) by {
            assert(!holds(waiting@, i));
        }
        lemma_run(nodes@, ordered@);
        lemma_distinct_indices(ordered@, n as int);
    }
    if ordered.len() != nodes.len() {
        proof {
            let start = choose|i: int| 0 <= i < n && !#[trigger] holds(ordered@, i);
            left_out_providers_have_a_cycle(nodes@, ordered@, start);
            assert forall|j: int| 0 <= j < n implies (#[trigger] indegree@[j] > 0) == !holds(
                ordered@,
                j,
            ) by {
                lemma_ready_is_no_open_edge(nodes@, ordered@, j);
                assert(!ready(nodes@, ordered@, j));
            }
        }
        let names = names_of_blocked(nodes, &indegree, Ghost(ordered@));
        let mut message = String::from("provider lifecycle order cycle detected: ");
        message.append(join(&names, ", ").as_str());
        assert(message@ == cycle_message(nodes@, ordered@));
        return Err(Error::msg(message.as_str()));
    }
    proof {
        ordered_providers_have_no_cycle(nodes@, ordered@);
    }
    Ok(ordered)
}

} // verus!
