//! Counting how many indices below a bound satisfy a predicate.
use vstd::prelude::*;

verus! {

/// How many of the indices `0 <= i < n` satisfy `p`.
pub open spec fn count(p: spec_fn(int) -> bool, n: nat) -> nat
    decreases n,
{
    if n == 0 {
        0
    } else {
        count(p, (n - 1) as nat) + if p(n - 1) {
            1nat
        } else {
            0nat
        }
    }
}

/// Predicates that agree below the bound have the same count.
pub proof fn lemma_count_same(p: spec_fn(int) -> bool, q: spec_fn(int) -> bool, n: nat)
    requires
        forall|i: int| 0 <= i < n ==> #[trigger] p(i) == #[trigger] q(i),
    ensures
        count(p, n) == count(q, n),
    decreases n,
{
    if n > 0 {
        lemma_count_same(p, q, (n - 1) as nat);
    }
}

/// Adding one index to a predicate raises the count by one.
pub proof fn lemma_count_one_more(
    p: spec_fn(int) -> bool,
    q: spec_fn(int) -> bool,
    n: nat,
    at: int,
)
    requires
        0 <= at < n,
        !p(at),
        q(at),
        forall|i: int| 0 <= i < n && i != at ==> #[trigger] p(i) == #[trigger] q(i),
    ensures
        count(q, n) == count(p, n) + 1,
    decreases n,
{
    if at == n - 1 {
        lemma_count_same(p, q, (n - 1) as nat);
    } else {
        lemma_count_one_more(p, q, (n - 1) as nat, at);
    }
}

/// A count is zero exactly when no index satisfies the predicate.
pub proof fn lemma_count_zero(p: spec_fn(int) -> bool, n: nat)
    ensures
        count(p, n) == 0 <==> forall|i: int| 0 <= i < n ==> !(#[trigger] p(i)),
    decreases n,
{
    if n > 0 {
        lemma_count_zero(p, (n - 1) as nat);
        if count(p, n) == 0 {
            assert forall|i: int| 0 <= i < n implies !(#[trigger] p(i)) by {
                if i < n - 1 {
                    assert(!p(i));
                }
            }
        } else if p(n - 1) {
            assert(exists|i: int| 0 <= i < n && #[trigger] p(i));
        } else {
            let i = choose|i: int| 0 <= i < n - 1 && #[trigger] p(i);
            assert(0 <= i < n && p(i));
        }
    }
}

/// A count never exceeds its bound.
pub proof fn lemma_count_bound(p: spec_fn(int) -> bool, n: nat)
    ensures
        count(p, n) <= n,
    decreases n,
{
    if n > 0 {
        lemma_count_bound(p, (n - 1) as nat);
    }
}

} // verus!
