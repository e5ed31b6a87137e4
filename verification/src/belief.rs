use crate::params::MAX_ELEMENTS;
use crate::relation::grid;
use crate::sums::{lemma_sum_bounds, lemma_sum_full, sum_to};
use vstd::prelude::*;

verus! {

/// `bits` has `bundles` rows of `elements` cells each.
pub open spec fn has_shape(bits: Seq<Seq<bool>>, bundles: int, elements: int) -> bool {
    bits.len() == bundles && forall|b: int| 0 <= b < bundles ==> (#[trigger] bits[b]).len() == elements
}

/// The beliefs of all agents, each a matrix of bundles by elements.
pub open spec fn cube(beliefs: &Vec<Vec<Vec<bool>>>) -> Seq<Seq<Seq<bool>>> {
    Seq::new(beliefs@.len(), |a: int| grid(&beliefs@[a]))
}

/// One for each bundle in which `belief` matches `reality` in every element.
pub open spec fn match_term(belief: Seq<Seq<bool>>, reality: Seq<Seq<bool>>) -> spec_fn(int) -> int {
    |b: int| if belief[b] == reality[b] { 1int } else { 0int }
}

/// The number of bundles in which `belief` matches `reality` in every
/// element.
pub open spec fn matching_bundles(belief: Seq<Seq<bool>>, reality: Seq<Seq<bool>>) -> int {
    sum_to(match_term(belief, reality), reality.len() as int)
}

/// The score of `belief` against `reality`: the size of a bundle for each
/// bundle that matches exactly.
pub open spec fn performance(belief: Seq<Seq<bool>>, reality: Seq<Seq<bool>>, m_in_bundle: int) -> int {
    m_in_bundle * matching_bundles(belief, reality)
}

/// A score lies between zero and the number of elements, and is the number
/// of elements just when the belief equals reality.
pub proof fn law_performance_bound(
    belief: Seq<Seq<bool>>,
    reality: Seq<Seq<bool>>,
    m_of_bundle: int,
    m_in_bundle: int,
)
    requires
        0 <= m_of_bundle,
        0 <= m_in_bundle,
        has_shape(belief, m_of_bundle, m_in_bundle),
        has_shape(reality, m_of_bundle, m_in_bundle),
    ensures
        0 <= performance(belief, reality, m_in_bundle) <= m_of_bundle * m_in_bundle,
        performance(belief, reality, m_in_bundle) == m_of_bundle * m_in_bundle <==> belief == reality,
{
    let f = match_term(belief, reality);
    assert forall|b: int| 0 <= b < m_of_bundle implies 0 <= #[trigger] f(b) <= 1 by {}
    lemma_sum_bounds(f, m_of_bundle, 0, 1);
    lemma_sum_full(f, m_of_bundle);
    let k = matching_bundles(belief, reality);
    assert(0 <= m_in_bundle * k <= m_of_bundle * m_in_bundle) by (nonlinear_arith)
        requires
            0 <= k <= m_of_bundle,
            0 <= m_in_bundle,
    ;
    if belief == reality {
        assert forall|b: int| 0 <= b < m_of_bundle implies #[trigger] f(b) == 1 by {}
        assert(k == m_of_bundle);
        assert(m_in_bundle * k == m_of_bundle * m_in_bundle) by (nonlinear_arith)
            requires
                k == m_of_bundle,
        ;
    }
    if performance(belief, reality, m_in_bundle) == m_of_bundle * m_in_bundle {
        if m_in_bundle > 0 {
            assert(k == m_of_bundle) by (nonlinear_arith)
                requires
                    m_in_bundle * k == m_of_bundle * m_in_bundle,
                    m_in_bundle > 0,
            ;
            assert forall|b: int| 0 <= b < m_of_bundle implies belief[b] == reality[b] by {
                assert(f(b) == 1);
            }
        } else {
            assert forall|b: int| 0 <= b < m_of_bundle implies belief[b] == reality[b] by {
                assert(belief[b].len() == 0);
                assert(reality[b].len() == 0);
                assert(belief[b] =~= reality[b]);
            }
        }
        assert(belief =~= reality);
    }
}

/// Whether two rows of the same length hold the same bits.
pub fn rows_equal(a: &Vec<bool>, b: &Vec<bool>) -> (same: bool)
    requires
        a@.len() == b@.len(),
    ensures
        same == (a@ == b@),
{
    let n = a.len();
    let mut i: usize = 0;
    while i < n
        invariant
            i <= n,
            n == a@.len(),
            n == b@.len(),
            forall|k: int| 0 <= k < i ==> a@[k] == b@[k],
        decreases n - i,
    {
        if a[i] != b[i] {
            return false;
        }
        i += 1;
    }
    assert(a@ =~= b@);
    true
}

/// The score of `belief` against `reality`.
pub fn score(belief: &Vec<Vec<bool>>, reality: &Vec<Vec<bool>>, m_in_bundle: usize) -> (points: usize)
    requires
        reality@.len() * m_in_bundle <= MAX_ELEMENTS,
        has_shape(grid(belief), reality@.len() as int, m_in_bundle as int),
        has_shape(grid(reality), reality@.len() as int, m_in_bundle as int),
    ensures
        points == performance(grid(belief), grid(reality), m_in_bundle as int),
        points <= reality@.len() * m_in_bundle,
{
    let m = reality.len();
    let ghost f = match_term(grid(belief), grid(reality));
    let mut matched: usize = 0;
    let mut b: usize = 0;
    while b < m
        invariant
            b <= m,
            m == reality@.len(),
            m * m_in_bundle <= MAX_ELEMENTS,
            has_shape(grid(belief), m as int, m_in_bundle as int),
            has_shape(grid(reality), m as int, m_in_bundle as int),
            f == match_term(grid(belief), grid(reality)),
            matched == sum_to(f, b as int),
            matched <= b,
        decreases m - b,
    {
        assert(grid(belief)[b as int].len() == m_in_bundle);
        assert(grid(reality)[b as int].len() == m_in_bundle);
        if rows_equal(&belief[b], &reality[b]) {
            matched = matched + 1;
        }
        b += 1;
    }
    assert(m_in_bundle * matched <= m * m_in_bundle) by (nonlinear_arith)
        requires
            matched <= m,
    ;
    m_in_bundle * matched
}

/// What the bit of a better performer adds to the tally of a learner: one
/// for and one against where the two bits differ, nothing where they agree.
pub open spec fn vote(own: bool, other: bool) -> int {
    if own == other {
        0
    } else if other {
        1
    } else {
        -1
    }
}

/// A table of tallies with `bundles` rows of `elements` entries each.
pub open spec fn tally_shape(tally: Seq<Vec<i64>>, bundles: int, elements: int) -> bool {
    tally.len() == bundles && forall|b: int| 0 <= b < bundles ==> (#[trigger] tally[b])@.len() == elements
}

/// A table of `bundles` rows of `elements` tallies, each zero.
pub fn zero_tally(bundles: usize, elements: usize) -> (tally: Vec<Vec<i64>>)
    ensures
        tally_shape(tally@, bundles as int, elements as int),
        forall|b: int, e: int| 0 <= b < bundles && 0 <= e < elements ==> #[trigger] tally@[b]@[e] == 0,
{
    let mut tally: Vec<Vec<i64>> = Vec::new();
    let mut b: usize = 0;
    while b < bundles
        invariant
            b <= bundles,
            tally@.len() == b,
            forall|k: int| 0 <= k < b ==> (#[trigger] tally@[k])@.len() == elements,
            forall|k: int, e: int| 0 <= k < b && 0 <= e < elements ==> #[trigger] tally@[k]@[e] == 0,
        decreases bundles - b,
    {
        let mut row: Vec<i64> = Vec::new();
        let mut e: usize = 0;
        while e < elements
            invariant
                e <= elements,
                row@.len() == e,
                forall|k: int| 0 <= k < e ==> #[trigger] row@[k] == 0,
            decreases elements - e,
        {
            row.push(0);
            e += 1;
        }
        tally.push(row);
        b += 1;
    }
    tally
}

/// Adds to every tally of the learner the vote of the better performer's bit.
pub fn add_votes(tally: &mut Vec<Vec<i64>>, own: &Vec<Vec<bool>>, other: &Vec<Vec<bool>>)
    requires
        tally_shape(old(tally)@, own@.len() as int, (if own@.len() > 0 { own@[0]@.len() } else { 0 }) as int),
        forall|b: int| 0 <= b < own@.len() ==> (#[trigger] own@[b])@.len() == own@[0]@.len(),
        other@.len() == own@.len(),
        forall|b: int| 0 <= b < own@.len() ==> (#[trigger] other@[b])@.len() == own@[0]@.len(),
        forall|b: int, e: int|
            0 <= b < own@.len() && 0 <= e < own@[0]@.len() ==> i64::MIN < #[trigger] old(tally)@[b]@[e]
                < i64::MAX,
    ensures
        tally_shape(final(tally)@, own@.len() as int, (if own@.len() > 0 { own@[0]@.len() } else { 0 }) as int),
        forall|b: int, e: int|
            0 <= b < own@.len() && 0 <= e < own@[0]@.len() ==> #[trigger] final(tally)@[b]@[e] == old(tally)@[b]@[e] + vote(own@[b]@[e], other@[b]@[e]),
{
    let bundles = own.len();
    if bundles == 0 {
        return ;
    }
    let elements = own[0].len();
    let mut b: usize = 0;
    while b < bundles
        invariant
            b <= bundles,
            bundles == own@.len(),
            bundles > 0,
            elements == own@[0]@.len(),
            other@.len() == bundles,
            tally@.len() == bundles,
            forall|k: int| 0 <= k < bundles ==> (#[trigger] own@[k])@.len() == elements,
            forall|k: int| 0 <= k < bundles ==> (#[trigger] other@[k])@.len() == elements,
            forall|k: int| 0 <= k < bundles ==> (#[trigger] tally@[k])@.len() == elements,
            forall|k: int, e: int|
                0 <= k < bundles && 0 <= e < elements ==> i64::MIN < #[trigger] old(tally)@[k]@[e]
                    < i64::MAX,
            forall|k: int, e: int|
                0 <= k < b && 0 <= e < elements ==> #[trigger] tally@[k]@[e] == old(tally)@[k]@[e]
                    + vote(own@[k]@[e], other@[k]@[e]),
            forall|k: int, e: int|
                b <= k < bundles && 0 <= e < elements ==> #[trigger] tally@[k]@[e] == old(tally)@[k]@[e],
        decreases bundles - b,
    {
        let mut e: usize = 0;
        while e < elements
            invariant
                e <= elements,
                b < bundles,
                bundles == own@.len(),
                elements == own@[0]@.len(),
                other@.len() == bundles,
                tally@.len() == bundles,
                forall|k: int| 0 <= k < bundles ==> (#[trigger] own@[k])@.len() == elements,
                forall|k: int| 0 <= k < bundles ==> (#[trigger] other@[k])@.len() == elements,
                forall|k: int| 0 <= k < bundles ==> (#[trigger] tally@[k])@.len() == elements,
                forall|k: int, x: int|
                    0 <= k < bundles && 0 <= x < elements ==> i64::MIN < #[trigger] old(tally)@[k]@[x]
                        < i64::MAX,
                forall|k: int, x: int|
                    0 <= k < b && 0 <= x < elements ==> #[trigger] tally@[k]@[x] == old(tally)@[k]@[x] + vote(own@[k]@[x], other@[k]@[x]),
                forall|k: int, x: int|
                    b < k < bundles && 0 <= x < elements ==> #[trigger] tally@[k]@[x] == old(tally)@[k]@[x],
                forall|x: int|
                    0 <= x < e ==> #[trigger] tally@[b as int]@[x] == old(tally)@[b as int]@[x] + vote(
                        own@[b as int]@[x],
                        other@[b as int]@[x],
                    ),
                forall|x: int|
                    e <= x < elements ==> #[trigger] tally@[b as int]@[x] == old(tally)@[b as int]@[x],
            decreases elements - e,
        {
            let mine = own[b][e];
            let theirs = other[b][e];
            if mine != theirs {
                let current = tally[b][e];
                assert(i64::MIN < old(tally)@[b as int]@[e as int] < i64::MAX);
                if theirs {
                    tally[b][e] = current + 1;
                } else {
                    tally[b][e] = current - 1;
                }
            }
            e += 1;
        }
        b += 1;
    }
}

/// Replaces every bit of `own` by what learning makes of it.
pub fn adopt_where(own: &mut Vec<Vec<bool>>, tally: &Vec<Vec<i64>>, accept: &Vec<Vec<bool>>)
    requires
        tally@.len() == old(own)@.len(),
        accept@.len() == old(own)@.len(),
        forall|b: int|
            0 <= b < old(own)@.len() ==> (#[trigger] tally@[b])@.len() == old(own)@[b]@.len(),
        forall|b: int|
            0 <= b < old(own)@.len() ==> (#[trigger] accept@[b])@.len() == old(own)@[b]@.len(),
    ensures
        final(own)@.len() == old(own)@.len(),
        forall|b: int| 0 <= b < old(own)@.len() ==> (#[trigger] final(own)@[b])@.len() == old(own)@[b]@.len(),
        forall|b: int, e: int|
            0 <= b < old(own)@.len() && 0 <= e < old(own)@[b]@.len() ==> #[trigger] final(own)@[b]@[e]
                == (if tally@[b]@[e] != 0 && accept@[b]@[e] {
                !old(own)@[b]@[e]
            } else {
                old(own)@[b]@[e]
            }),
{
    let bundles = own.len();
    let mut b: usize = 0;
    while b < bundles
        invariant
            b <= bundles,
            bundles == old(own)@.len(),
            own@.len() == bundles,
            tally@.len() == bundles,
            accept@.len() == bundles,
            forall|k: int| 0 <= k < bundles ==> (#[trigger] own@[k])@.len() == old(own)@[k]@.len(),
            forall|k: int| 0 <= k < bundles ==> (#[trigger] tally@[k])@.len() == old(own)@[k]@.len(),
            forall|k: int| 0 <= k < bundles ==> (#[trigger] accept@[k])@.len() == old(own)@[k]@.len(),
            forall|k: int, e: int|
                0 <= k < b && 0 <= e < old(own)@[k]@.len() ==> #[trigger] own@[k]@[e] == (if tally@[k]@[e]
                    != 0 && accept@[k]@[e] {
                    !old(own)@[k]@[e]
                } else {
                    old(own)@[k]@[e]
                }),
            forall|k: int, e: int|
                b <= k < bundles && 0 <= e < old(own)@[k]@.len() ==> #[trigger] own@[k]@[e] == old(own)@[k]@[e],
        decreases bundles - b,
    {
        let elements = own[b].len();
        let mut e: usize = 0;
        while e < elements
            invariant
                e <= elements,
                b < bundles,
                bundles == old(own)@.len(),
                own@.len() == bundles,
                tally@.len() == bundles,
                accept@.len() == bundles,
                elements == old(own)@[b as int]@.len(),
                forall|k: int| 0 <= k < bundles ==> (#[trigger] own@[k])@.len() == old(own)@[k]@.len(),
                forall|k: int|
                    0 <= k < bundles ==> (#[trigger] tally@[k])@.len() == old(own)@[k]@.len(),
                forall|k: int|
                    0 <= k < bundles ==> (#[trigger] accept@[k])@.len() == old(own)@[k]@.len(),
                forall|k: int, x: int|
                    0 <= k < b && 0 <= x < old(own)@[k]@.len() ==> #[trigger] own@[k]@[x] == (
                    if tally@[k]@[x] != 0 && accept@[k]@[x] {
                        !old(own)@[k]@[x]
                    } else {
                        old(own)@[k]@[x]
                    }),
                forall|k: int, x: int|
                    b < k < bundles && 0 <= x < old(own)@[k]@.len() ==> #[trigger] own@[k]@[x] == old(own)@[k]@[x],
                forall|x: int|
                    0 <= x < e ==> #[trigger] own@[b as int]@[x] == (if tally@[b as int]@[x] != 0
                        && accept@[b as int]@[x] {
                        !old(own)@[b as int]@[x]
                    } else {
                        old(own)@[b as int]@[x]
                    }),
                forall|x: int| e <= x < elements ==> #[trigger] own@[b as int]@[x] == old(own)@[b as int]@[x],
            decreases elements - e,
        {
            if tally[b][e] != 0 && accept[b][e] {
                let bit = own[b][e];
                own[b][e] = !bit;
            }
            e += 1;
        }
        b += 1;
    }
}

/// Flips every bit of `bits` whose draw in `flips` holds.
pub fn flip_where(bits: &mut Vec<Vec<bool>>, flips: &Vec<Vec<bool>>)
    requires
        flips@.len() == old(bits)@.len(),
        forall|b: int|
            0 <= b < old(bits)@.len() ==> (#[trigger] flips@[b])@.len() == old(bits)@[b]@.len(),
    ensures
        final(bits)@.len() == old(bits)@.len(),
        forall|b: int|
            0 <= b < old(bits)@.len() ==> (#[trigger] final(bits)@[b])@.len() == old(bits)@[b]@.len(),
        forall|b: int, e: int|
            0 <= b < old(bits)@.len() && 0 <= e < old(bits)@[b]@.len() ==> #[trigger] final(bits)@[b]@[e] == (old(bits)@[b]@[e] != flips@[b]@[e]),
{
    let bundles = bits.len();
    let mut b: usize = 0;
    while b < bundles
        invariant
            b <= bundles,
            bundles == old(bits)@.len(),
            bits@.len() == bundles,
            flips@.len() == bundles,
            forall|k: int| 0 <= k < bundles ==> (#[trigger] bits@[k])@.len() == old(bits)@[k]@.len(),
            forall|k: int| 0 <= k < bundles ==> (#[trigger] flips@[k])@.len() == old(bits)@[k]@.len(),
            forall|k: int, e: int|
                0 <= k < b && 0 <= e < old(bits)@[k]@.len() ==> #[trigger] bits@[k]@[e] == (old(bits)@[k]@[e] != flips@[k]@[e]),
            forall|k: int, e: int|
                b <= k < bundles && 0 <= e < old(bits)@[k]@.len() ==> #[trigger] bits@[k]@[e] == old(bits)@[k]@[e],
        decreases bundles - b,
    {
        let elements = bits[b].len();
        let mut e: usize = 0;
        while e < elements
            invariant
                e <= elements,
                b < bundles,
                bundles == old(bits)@.len(),
                bits@.len() == bundles,
                flips@.len() == bundles,
                elements == old(bits)@[b as int]@.len(),
                forall|k: int|
                    0 <= k < bundles ==> (#[trigger] bits@[k])@.len() == old(bits)@[k]@.len(),
                forall|k: int|
                    0 <= k < bundles ==> (#[trigger] flips@[k])@.len() == old(bits)@[k]@.len(),
                forall|k: int, x: int|
                    0 <= k < b && 0 <= x < old(bits)@[k]@.len() ==> #[trigger] bits@[k]@[x] == (old(bits)@[k]@[x] != flips@[k]@[x]),
                forall|k: int, x: int|
                    b < k < bundles && 0 <= x < old(bits)@[k]@.len() ==> #[trigger] bits@[k]@[x]
                        == old(bits)@[k]@[x],
                forall|x: int|
                    0 <= x < e ==> #[trigger] bits@[b as int]@[x] == (old(bits)@[b as int]@[x]
                        != flips@[b as int]@[x]),
                forall|x: int|
                    e <= x < elements ==> #[trigger] bits@[b as int]@[x] == old(bits)@[b as int]@[x],
            decreases elements - e,
        {
            if flips[b][e] {
                let bit = bits[b][e];
                bits[b][e] = !bit;
            }
            e += 1;
        }
        b += 1;
    }
}

} // verus!
