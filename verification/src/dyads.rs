use vstd::prelude::*;
use vstd::seq_lib::{to_multiset_contains, to_multiset_len};

verus! {

/// The pair of node numbers `(i, j)`.
pub open spec fn pair(i: int, j: int) -> (usize, usize) {
    (i as usize, j as usize)
}

/// `d` is an unordered pair of two distinct nodes among `n`, the smaller
/// first.
pub open spec fn is_dyad(n: int, d: (usize, usize)) -> bool {
    d.0 < d.1 < n
}

/// `list` holds every dyad of `n` nodes exactly once, in some order.
pub open spec fn is_dyad_list(list: Seq<(usize, usize)>, n: int) -> bool {
    &&& forall|k: int| 0 <= k < list.len() ==> is_dyad(n, #[trigger] list[k])
    &&& forall|i: int, j: int| 0 <= i < j < n ==> list.contains(#[trigger] pair(i, j))
    &&& list.no_duplicates()
    &&& 2 * list.len() == n * (n - 1)
}

/// A list that holds the same pairs as a list of all dyads, each as often, is
/// a list of all dyads too.
pub proof fn lemma_permuted_dyad_list(before: Seq<(usize, usize)>, after: Seq<(usize, usize)>, n: int)
    requires
        is_dyad_list(before, n),
        before.to_multiset() == after.to_multiset(),
    ensures
        is_dyad_list(after, n),
{
    assert forall|k: int| 0 <= k < after.len() implies is_dyad(n, #[trigger] after[k]) by {
        let d = after[k];
        assert(after.contains(d));
        to_multiset_contains(after, d);
        to_multiset_contains(before, d);
        let w = choose|w: int| 0 <= w < before.len() && before[w] == d;
        assert(is_dyad(n, before[w]));
    }
    assert forall|i: int, j: int| 0 <= i < j < n implies after.contains(#[trigger] pair(i, j)) by {
        let d = pair(i, j);
        assert(before.contains(d));
        to_multiset_contains(before, d);
        to_multiset_contains(after, d);
    }
    before.lemma_multiset_has_no_duplicates();
    after.lemma_multiset_has_no_duplicates_conv();
    to_multiset_len(before);
    to_multiset_len(after);
}

/// The number of dyads of at most 1024 nodes is below 2^19.
pub proof fn lemma_dyad_list_length(list: Seq<(usize, usize)>, n: int)
    requires
        is_dyad_list(list, n),
        0 <= n <= 1024,
    ensures
        list.len() <= 523776,
{
    assert(n * (n - 1) <= 1024 * 1023) by (nonlinear_arith)
        requires
            0 <= n <= 1024,
    ;
}

/// Every dyad of `n` nodes, in rising order.
pub fn all_dyads(n: usize) -> (list: Vec<(usize, usize)>)
    ensures
        is_dyad_list(list@, n as int),
{
    let mut list: Vec<(usize, usize)> = Vec::new();
    let mut i: usize = 0;
    assert(0 == i * (2 * n - i - 1)) by (nonlinear_arith)
        requires
            i == 0,
    ;
    while i < n
        invariant
            i <= n,
            forall|k: int| 0 <= k < list@.len() ==> is_dyad(n as int, #[trigger] list@[k]),
            forall|k: int| 0 <= k < list@.len() ==> (#[trigger] list@[k]).0 < i,
            forall|a: int, b: int| 0 <= a < b < n && a < i ==> list@.contains(#[trigger] pair(a, b)),
            list@.no_duplicates(),
            2 * list@.len() == i * (2 * n - i - 1),
        decreases n - i,
    {
        let mut j: usize = i + 1;
        while j < n
            invariant
                i < j <= n,
                forall|k: int| 0 <= k < list@.len() ==> is_dyad(n as int, #[trigger] list@[k]),
                forall|k: int|
                    0 <= k < list@.len() ==> (#[trigger] list@[k]).0 < i || (list@[k].0 == i
                        && list@[k].1 < j),
                forall|a: int, b: int|
                    0 <= a < b < n && (a < i || (a == i && b < j)) ==> list@.contains(
                        #[trigger] pair(a, b),
                    ),
                list@.no_duplicates(),
                2 * list@.len() == i * (2 * n - i - 1) + 2 * (j - i - 1),
            decreases n - j,
        {
            let ghost before = list@;
            list.push((i, j));
            proof {
                assert(list@[before.len() as int] == pair(i as int, j as int));
                assert forall|a: int, b: int|
                    0 <= a < b < n && (a < i || (a == i && b < j + 1)) implies list@.contains(
                    #[trigger] pair(a, b),
                ) by {
                    if a == i && b == j {
                    } else {
                        assert(before.contains(pair(a, b)));
                        let w = choose|w: int| 0 <= w < before.len() && before[w] == pair(a, b);
                        assert(list@[w] == pair(a, b));
                    }
                }
            }
            j += 1;
        }
        proof {
            assert(i * (2 * n - i - 1) + 2 * (n - i - 1) == (i + 1) * (2 * n - (i + 1) - 1))
                by (nonlinear_arith);
        }
        i += 1;
    }
    proof {
        assert(n * (2 * n - n - 1) == n * (n - 1)) by (nonlinear_arith);
    }
    list
}

} // verus!
