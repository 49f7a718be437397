//! Ascending listings of the indices that satisfy a predicate.

use vstd::prelude::*;

verus! {

/// The indices below `n` at which `keep` holds, in ascending order.
pub open spec fn indices_where(n: nat, keep: spec_fn(int) -> bool) -> Seq<usize>
    decreases n,
{
    if n == 0 {
        Seq::empty()
    } else {
        let rest = indices_where((n - 1) as nat, keep);
        if keep(n - 1) {
            rest.push((n - 1) as usize)
        } else {
            rest
        }
    }
}

/// A listing holds exactly the kept indices, each below `n`, and never more
/// than `n` of them.
pub proof fn lemma_indices_where_members(n: nat, keep: spec_fn(int) -> bool)
    requires
        n <= usize::MAX,
    ensures
        indices_where(n, keep).len() <= n,
        forall|k: int|
            0 <= k < indices_where(n, keep).len() ==> {
                &&& (#[trigger] indices_where(n, keep)[k]) < n
                &&& keep(indices_where(n, keep)[k] as int)
            },
        forall|m: usize| #[trigger]
            indices_where(n, keep).contains(m) <==> m < n && keep(m as int),
    decreases n,
{
    if n > 0 {
        let rest = indices_where((n - 1) as nat, keep);
        let all = indices_where(n, keep);
        lemma_indices_where_members((n - 1) as nat, keep);
        if keep(n - 1) {
            // `all` is `rest` with `n - 1` at its end
            assert forall|m: usize| #[trigger] all.contains(m) <==> m < n && keep(m as int) by {
                if all.contains(m) {
                    let k = choose|k: int| 0 <= k < all.len() && all[k] == m;
                    assert(k < rest.len() ==> rest[k] == m);
                }
                if rest.contains(m) {
                    let k = choose|k: int| 0 <= k < rest.len() && rest[k] == m;
                    assert(all[k] == m);
                }
                assert(all[rest.len() as int] == n - 1);
            }
        }
    }
}

/// The entries of a listing strictly increase.
pub proof fn lemma_indices_where_ascending(n: nat, keep: spec_fn(int) -> bool)
    requires
        n <= usize::MAX,
    ensures
        forall|a: int, b: int|
            0 <= a < b < indices_where(n, keep).len() ==> (#[trigger] indices_where(n, keep)[a])
                < (#[trigger] indices_where(n, keep)[b]),
    decreases n,
{
    if n > 0 {
        lemma_indices_where_ascending((n - 1) as nat, keep);
        lemma_indices_where_members((n - 1) as nat, keep);
    }
}

/// Two predicates that agree below `n` give the same listing.
pub proof fn lemma_indices_where_agree(
    n: nat,
    keep: spec_fn(int) -> bool,
    other: spec_fn(int) -> bool,
)
    requires
        forall|k: int| 0 <= k < n ==> #[trigger] keep(k) == other(k),
    ensures
        indices_where(n, keep) == indices_where(n, other),
    decreases n,
{
    if n > 0 {
        lemma_indices_where_agree((n - 1) as nat, keep, other);
    }
}

/// Dropping one kept index, and nothing else, shortens the listing by one.
pub proof fn lemma_indices_where_drop_one(
    n: nat,
    keep: spec_fn(int) -> bool,
    fewer: spec_fn(int) -> bool,
    gone: int,
)
    requires
        0 <= gone < n,
        keep(gone),
        !fewer(gone),
        forall|k: int| 0 <= k < n && k != gone ==> #[trigger] keep(k) == fewer(k),
    ensures
        indices_where(n, fewer).len() + 1 == indices_where(n, keep).len(),
    decreases n,
{
    if gone == n - 1 {
        lemma_indices_where_agree((n - 1) as nat, keep, fewer);
    } else {
        lemma_indices_where_drop_one((n - 1) as nat, keep, fewer, gone);
    }
}

} // verus!
