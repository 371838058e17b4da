//! Lists without repetitions, as child lists are.

use vstd::prelude::*;

verus! {

/// No item stands twice in the list.
#[verifier::opaque]
pub open spec fn distinct(k: Seq<int>) -> bool {
    k.no_duplicates()
}

/// The empty list repeats nothing.
pub proof fn lemma_distinct_empty()
    ensures
        distinct(Seq::<int>::empty()),
{
    reveal(distinct);
}

/// Two places of a list without repetitions hold two items.
pub proof fn lemma_distinct_at(k: Seq<int>, i: int, j: int)
    requires
        distinct(k),
        0 <= i < k.len(),
        0 <= j < k.len(),
        i != j,
    ensures
        k[i] != k[j],
{
    reveal(distinct);
}

/// In a list without repetitions an item is found where it stands.
pub proof fn lemma_distinct_index(k: Seq<int>, i: int)
    requires
        distinct(k),
        0 <= i < k.len(),
    ensures
        k.index_of(k[i]) == i,
{
    reveal(distinct);
    let j = k.index_of(k[i]);
    assert(0 <= j < k.len() && k[j] == k[i]);
}

/// What a list without repetitions becomes when a new item is put in.
pub proof fn lemma_distinct_insert(k: Seq<int>, at: int, q: int)
    requires
        distinct(k),
        0 <= at <= k.len(),
        !k.contains(q),
    ensures
        k.insert(at, q).len() == k.len() + 1,
        distinct(k.insert(at, q)),
        k.insert(at, q)[at] == q,
        k.insert(at, q).contains(q),
        forall|i: int| 0 <= i < at ==> #[trigger] k.insert(at, q)[i] == k[i],
        forall|i: int| at < i <= k.len() ==> #[trigger] k.insert(at, q)[i] == k[i - 1],
        forall|x: int| k.contains(x) ==> #[trigger] k.insert(at, q).contains(x),
{
    reveal(distinct);
    let k2 = k.insert(at, q);
    assert(k2[at] == q);
    assert forall|x: int| k.contains(x) implies #[trigger] k2.contains(x) by {
        let i = k.index_of(x);
        if i < at {
            assert(k2[i] == x);
        } else {
            assert(k2[i + 1] == x);
        }
    }
    assert forall|i: int, j: int| 0 <= i < k2.len() && 0 <= j < k2.len() && i != j implies k2[i]
        != k2[j] by {
        let a = if i < at { i } else { i - 1 };
        let b = if j < at { j } else { j - 1 };
        if i != at {
            assert(k2[i] == k[a]);
        }
        if j != at {
            assert(k2[j] == k[b]);
        }
    }
}

/// What is left of a list without repetitions when one item is taken out.
pub proof fn lemma_distinct_remove(k: Seq<int>, r: int)
    requires
        distinct(k),
        0 <= r < k.len(),
    ensures
        k.remove(r).len() == k.len() - 1,
        distinct(k.remove(r)),
        !k.remove(r).contains(k[r]),
        forall|i: int| 0 <= i < r ==> #[trigger] k.remove(r)[i] == k[i],
        forall|i: int| r <= i < k.len() - 1 ==> #[trigger] k.remove(r)[i] == k[i + 1],
        forall|x: int| k.contains(x) && x != k[r] ==> #[trigger] k.remove(r).contains(x),
{
    reveal(distinct);
    let k2 = k.remove(r);
    assert forall|x: int| k.contains(x) && x != k[r] implies #[trigger] k2.contains(x) by {
        let i = k.index_of(x);
        if i < r {
            assert(k2[i] == x);
        } else {
            assert(k2[i - 1] == x);
        }
    }
}

} // verus!
