//! Lists that are made by walking over the numbers below a limit and keeping
//! an item for some of them.

use vstd::prelude::*;

verus! {

/// The items of the numbers below `n` that are kept, in ascending order of
/// the numbers.
pub open spec fn kept_items<T>(n: nat, keep: spec_fn(int) -> bool, item: spec_fn(int) -> T) -> Seq<T>
    decreases n,
{
    if n == 0 {
        Seq::empty()
    } else if keep(n - 1) {
        kept_items((n - 1) as nat, keep, item).push(item(n - 1))
    } else {
        kept_items((n - 1) as nat, keep, item)
    }
}

/// There are at most as many items as numbers, and the list only grows with
/// the limit.
pub proof fn lemma_kept_len<T>(m: nat, n: nat, keep: spec_fn(int) -> bool, item: spec_fn(int) -> T)
    requires
        m <= n,
    ensures
        kept_items(n, keep, item).len() <= n,
        kept_items(m, keep, item).len() <= kept_items(n, keep, item).len(),
    decreases n,
{
    if n > 0 {
        if m < n {
            lemma_kept_len(m, (n - 1) as nat, keep, item);
        } else {
            lemma_kept_len((m - 1) as nat, (n - 1) as nat, keep, item);
        }
    }
}

/// Where no number is kept, the list does not grow.
pub proof fn lemma_kept_skip<T>(m: nat, n: nat, keep: spec_fn(int) -> bool, item: spec_fn(int) -> T)
    requires
        m <= n,
        forall|p: int| m <= p < n ==> !#[trigger] keep(p),
    ensures
        kept_items(n, keep, item) == kept_items(m, keep, item),
    decreases n - m,
{
    if m < n {
        lemma_kept_skip(m, (n - 1) as nat, keep, item);
    }
}

/// The item of a kept number `t` stands in the list, at the place that is the
/// number of items kept before `t`.
pub proof fn lemma_kept_at<T>(n: nat, keep: spec_fn(int) -> bool, item: spec_fn(int) -> T, t: int)
    requires
        0 <= t < n,
        keep(t),
    ensures
        kept_items(t as nat, keep, item).len() < kept_items(n, keep, item).len(),
        kept_items(n, keep, item)[kept_items(t as nat, keep, item).len() as int] == item(t),
    decreases n,
{
    if t < n - 1 {
        lemma_kept_at((n - 1) as nat, keep, item, t);
    }
}

/// Every item of the list is the item of a kept number: the proof hands out
/// the number for the item at place `k`.
pub proof fn lemma_kept_source<T>(
    n: nat,
    keep: spec_fn(int) -> bool,
    item: spec_fn(int) -> T,
    k: int,
) -> (t: int)
    requires
        0 <= k < kept_items(n, keep, item).len(),
    ensures
        0 <= t < n,
        keep(t),
        kept_items(n, keep, item)[k] == item(t),
        kept_items(t as nat, keep, item).len() == k,
    decreases n,
{
    if keep(n - 1) && k == kept_items((n - 1) as nat, keep, item).len() {
        n - 1
    } else {
        lemma_kept_source((n - 1) as nat, keep, item, k)
    }
}

} // verus!
