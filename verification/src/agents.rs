use crate::belief::{adopt_where, cube, has_shape, performance, score, tally_shape};
use crate::learning::beliefs_shape;
use crate::learning::draw_acceptance;
use crate::params::{Probability, MAX_ELEMENTS, MAX_NODES};
use crate::random::{draw_bits, flip};
use rand::rngs::ThreadRng;
use crate::relation::grid;
use crate::sums::sum_to;
use vstd::prelude::*;

verus! {

pub open spec fn score_term(scores: Seq<usize>) -> spec_fn(int) -> int {
    |a: int| if 0 <= a < scores.len() { scores[a] as int } else { 0int }
}

/// The sum of the scores of all agents.
pub open spec fn total_performance(scores: Seq<usize>) -> int {
    sum_to(score_term(scores), scores.len() as int)
}

/// `scores` holds, for every agent, the score of its belief against
/// `reality`.
pub open spec fn scores_match(
    scores: Seq<usize>,
    beliefs: &Vec<Vec<Vec<bool>>>,
    reality: &Vec<Vec<bool>>,
    m_in_bundle: int,
) -> bool {
    scores.len() == beliefs@.len() && forall|a: int|
        0 <= a < scores.len() ==> #[trigger] scores[a] == performance(
            grid(&beliefs@[a]),
            grid(reality),
            m_in_bundle,
        )
}

/// The score of every agent.
pub fn score_all(beliefs: &Vec<Vec<Vec<bool>>>, reality: &Vec<Vec<bool>>, m_in_bundle: usize) -> (scores:
    Vec<usize>)
    requires
        reality@.len() * m_in_bundle <= MAX_ELEMENTS,
        has_shape(grid(reality), reality@.len() as int, m_in_bundle as int),
        beliefs_shape(beliefs, beliefs@.len() as int, reality@.len() as int, m_in_bundle as int),
    ensures
        scores_match(scores@, beliefs, reality, m_in_bundle as int),
        forall|a: int| 0 <= a < scores@.len() ==> #[trigger] scores@[a] <= reality@.len() * m_in_bundle,
{
    let n = beliefs.len();
    let mut scores: Vec<usize> = Vec::new();
    let mut a: usize = 0;
    while a < n
        invariant
            a <= n,
            n == beliefs@.len(),
            reality@.len() * m_in_bundle <= MAX_ELEMENTS,
            has_shape(grid(reality), reality@.len() as int, m_in_bundle as int),
            beliefs_shape(beliefs, n as int, reality@.len() as int, m_in_bundle as int),
            scores@.len() == a,
            forall|x: int|
                0 <= x < a ==> #[trigger] scores@[x] == performance(
                    grid(&beliefs@[x]),
                    grid(reality),
                    m_in_bundle as int,
                ),
            forall|x: int| 0 <= x < a ==> #[trigger] scores@[x] <= reality@.len() * m_in_bundle,
        decreases n - a,
    {
        assert(has_shape(grid(&beliefs@[a as int]), reality@.len() as int, m_in_bundle as int));
        let points = score(&beliefs[a], reality, m_in_bundle);
        scores.push(points);
        a += 1;
    }
    scores
}

/// The sum of the scores of all agents.
pub fn sum_scores(scores: &Vec<usize>) -> (total: u64)
    requires
        scores@.len() <= MAX_NODES,
        forall|a: int| 0 <= a < scores@.len() ==> #[trigger] scores@[a] <= 4294967295,
    ensures
        total == total_performance(scores@),
{
    let n = scores.len();
    let mut total: u64 = 0;
    let mut a: usize = 0;
    while a < n
        invariant
            a <= n,
            n == scores@.len(),
            n <= 1024,
            forall|x: int| 0 <= x < n ==> #[trigger] scores@[x] <= 4294967295,
            total == sum_to(score_term(scores@), a as int),
            total <= a * 4294967295,
        decreases n - a,
    {
        assert(scores@[a as int] <= 4294967295);
        total = total + scores[a] as u64;
        a += 1;
    }
    total
}

/// A score is at most the number of elements, which is at most
/// `MAX_ELEMENTS`.
pub proof fn lemma_score_limit(points: int, bundles: int, elements: int)
    requires
        0 <= points <= bundles * elements,
        bundles * elements <= MAX_ELEMENTS,
    ensures
        points <= 4294967295,
{
}

/// Lets every agent learn: each bit whose tally is not zero and whose draw in
/// `accept` holds is flipped. Then every agent is scored again.
pub fn adopt_all(
    beliefs: &mut Vec<Vec<Vec<bool>>>,
    scores: &mut Vec<usize>,
    reality: &Vec<Vec<bool>>,
    counts: &Vec<Vec<Vec<i64>>>,
    accept: &Vec<Vec<Vec<bool>>>,
    m_in_bundle: usize,
)
    requires
        reality@.len() * m_in_bundle <= MAX_ELEMENTS,
        has_shape(grid(reality), reality@.len() as int, m_in_bundle as int),
        beliefs_shape(old(beliefs), old(beliefs)@.len() as int, reality@.len() as int, m_in_bundle as int),
        old(scores)@.len() == old(beliefs)@.len(),
        counts@.len() == old(beliefs)@.len(),
        accept@.len() == old(beliefs)@.len(),
        forall|a: int|
            0 <= a < counts@.len() ==> tally_shape(
                (#[trigger] counts@[a])@,
                reality@.len() as int,
                m_in_bundle as int,
            ),
        forall|a: int|
            0 <= a < accept@.len() ==> has_shape(
                #[trigger] grid(&accept@[a]),
                reality@.len() as int,
                m_in_bundle as int,
            ),
    ensures
        beliefs_shape(final(beliefs), old(beliefs)@.len() as int, reality@.len() as int, m_in_bundle as int),
        scores_match(final(scores)@, final(beliefs), reality, m_in_bundle as int),
        forall|a: int, b: int, e: int|
            0 <= a < old(beliefs)@.len() && 0 <= b < reality@.len() && 0 <= e < m_in_bundle
                ==> #[trigger] final(beliefs)@[a]@[b]@[e] == (if counts@[a]@[b]@[e] != 0
                && accept@[a]@[b]@[e] {
                !old(beliefs)@[a]@[b]@[e]
            } else {
                old(beliefs)@[a]@[b]@[e]
            }),
{
    let n = beliefs.len();
    let ghost bundles = reality@.len() as int;
    let ghost elements = m_in_bundle as int;
    let mut a: usize = 0;
    while a < n
        invariant
            a <= n,
            n == old(beliefs)@.len(),
            beliefs@.len() == n,
            scores@.len() == n,
            counts@.len() == n,
            accept@.len() == n,
            bundles == reality@.len(),
            elements == m_in_bundle,
            reality@.len() * m_in_bundle <= MAX_ELEMENTS,
            has_shape(grid(reality), bundles, elements),
            beliefs_shape(beliefs, n as int, bundles, elements),
            forall|x: int| 0 <= x < n ==> tally_shape((#[trigger] counts@[x])@, bundles, elements),
            forall|x: int| 0 <= x < n ==> has_shape(#[trigger] grid(&accept@[x]), bundles, elements),
            forall|x: int|
                0 <= x < a ==> #[trigger] scores@[x] == performance(
                    grid(&beliefs@[x]),
                    grid(reality),
                    elements,
                ),
            forall|x: int, b: int, e: int|
                0 <= x < a && 0 <= b < bundles && 0 <= e < elements ==> #[trigger] beliefs@[x]@[b]@[e]
                    == (if counts@[x]@[b]@[e] != 0 && accept@[x]@[b]@[e] {
                    !old(beliefs)@[x]@[b]@[e]
                } else {
                    old(beliefs)@[x]@[b]@[e]
                }),
            forall|x: int| a <= x < n ==> #[trigger] beliefs@[x] == old(beliefs)@[x],
        decreases n - a,
    {
        let ghost before = beliefs@;
        proof {
            assert(has_shape(grid(&beliefs@[a as int]), bundles, elements));
            assert(has_shape(grid(&accept@[a as int]), bundles, elements));
            assert(tally_shape(counts@[a as int]@, bundles, elements));
            assert(beliefs@[a as int]@.len() == bundles);
            assert(accept@[a as int]@.len() == bundles);
            assert forall|b: int| 0 <= b < bundles implies (#[trigger] counts@[a as int]@[b])@.len()
                == beliefs@[a as int]@[b]@.len() by {
                assert(grid(&beliefs@[a as int])[b].len() == elements);
            }
            assert forall|b: int| 0 <= b < bundles implies (#[trigger] accept@[a as int]@[b])@.len()
                == beliefs@[a as int]@[b]@.len() by {
                assert(grid(&beliefs@[a as int])[b].len() == elements);
                assert(grid(&accept@[a as int])[b].len() == elements);
            }
        }
        adopt_where(&mut beliefs[a], &counts[a], &accept[a]);
        proof {
            assert forall|x: int| 0 <= x < n implies has_shape(
                #[trigger] grid(&beliefs@[x]),
                bundles,
                elements,
            ) by {
                if x == a {
                    assert(has_shape(grid(&before[a as int]), bundles, elements));
                    assert forall|b: int| 0 <= b < bundles implies (#[trigger] grid(&beliefs@[x])[b]).len()
                        == elements by {
                        assert(grid(&before[a as int])[b].len() == elements);
                    }
                } else {
                    assert(beliefs@[x] == before[x]);
                    assert(has_shape(grid(&before[x]), bundles, elements));
                }
            }
            assert forall|b: int, e: int| 0 <= b < bundles && 0 <= e < elements implies #[trigger] beliefs@[a as int]@[b]@[e]
                == (if counts@[a as int]@[b]@[e] != 0 && accept@[a as int]@[b]@[e] {
                !old(beliefs)@[a as int]@[b]@[e]
            } else {
                old(beliefs)@[a as int]@[b]@[e]
            }) by {
                assert(grid(&before[a as int])[b].len() == elements);
            }
        }
        let points = score(&beliefs[a], reality, m_in_bundle);
        scores[a] = points;
        a += 1;
    }
}

/// Puts `fresh` in the place of the belief of `agent` and scores the agent
/// again.
pub fn replace_belief(
    beliefs: &mut Vec<Vec<Vec<bool>>>,
    scores: &mut Vec<usize>,
    reality: &Vec<Vec<bool>>,
    agent: usize,
    fresh: Vec<Vec<bool>>,
    m_in_bundle: usize,
)
    requires
        reality@.len() * m_in_bundle <= MAX_ELEMENTS,
        has_shape(grid(reality), reality@.len() as int, m_in_bundle as int),
        beliefs_shape(old(beliefs), old(beliefs)@.len() as int, reality@.len() as int, m_in_bundle as int),
        scores_match(old(scores)@, old(beliefs), reality, m_in_bundle as int),
        has_shape(grid(&fresh), reality@.len() as int, m_in_bundle as int),
        agent < old(beliefs)@.len(),
    ensures
        beliefs_shape(final(beliefs), old(beliefs)@.len() as int, reality@.len() as int, m_in_bundle as int),
        scores_match(final(scores)@, final(beliefs), reality, m_in_bundle as int),
        final(beliefs)@ == old(beliefs)@.update(agent as int, fresh),
        final(scores)@ == old(scores)@.update(
            agent as int,
            performance(grid(&fresh), grid(reality), m_in_bundle as int) as usize,
        ),
{
    let points = score(&fresh, reality, m_in_bundle);
    beliefs[agent] = fresh;
    scores[agent] = points;
    proof {
        assert forall|a: int| 0 <= a < beliefs@.len() implies has_shape(
            #[trigger] grid(&beliefs@[a]),
            reality@.len() as int,
            m_in_bundle as int,
        ) by {
            if a != agent {
                assert(has_shape(grid(&old(beliefs)@[a]), reality@.len() as int, m_in_bundle as int));
            }
        }
    }
}

/// Replaces the belief of each agent, with probability `rate`, by fresh
/// fair coin flips, and scores the replaced agents again.
pub(crate) fn turn_over(
    beliefs: &mut Vec<Vec<Vec<bool>>>,
    scores: &mut Vec<usize>,
    reality: &Vec<Vec<bool>>,
    rng: &mut ThreadRng,
    rate: Probability,
    m_in_bundle: usize,
)
    requires
        rate.wf(),
        reality@.len() * m_in_bundle <= MAX_ELEMENTS,
        has_shape(grid(reality), reality@.len() as int, m_in_bundle as int),
        beliefs_shape(old(beliefs), old(beliefs)@.len() as int, reality@.len() as int, m_in_bundle as int),
        scores_match(old(scores)@, old(beliefs), reality, m_in_bundle as int),
    ensures
        beliefs_shape(final(beliefs), old(beliefs)@.len() as int, reality@.len() as int, m_in_bundle as int),
        scores_match(final(scores)@, final(beliefs), reality, m_in_bundle as int),
        rate.numerator == 0 ==> final(beliefs)@ == old(beliefs)@ && final(scores)@ == old(scores)@,
{
    let n = beliefs.len();
    let mut a: usize = 0;
    while a < n
        invariant
            a <= n,
            n == old(beliefs)@.len(),
            rate.wf(),
            reality@.len() * m_in_bundle <= MAX_ELEMENTS,
            has_shape(grid(reality), reality@.len() as int, m_in_bundle as int),
            beliefs_shape(beliefs, n as int, reality@.len() as int, m_in_bundle as int),
            scores_match(scores@, beliefs, reality, m_in_bundle as int),
            rate.numerator == 0 ==> beliefs@ == old(beliefs)@ && scores@ == old(scores)@,
        decreases n - a,
    {
        if flip(rng, rate) {
            let fresh = draw_bits(rng, reality.len(), m_in_bundle);
            assert(has_shape(grid(&fresh), reality@.len() as int, m_in_bundle as int)) by {
                assert forall|b: int| 0 <= b < reality@.len() implies (#[trigger] grid(&fresh)[b]).len()
                    == m_in_bundle by {
                    assert(fresh@[b]@.len() == m_in_bundle);
                }
            }
            replace_belief(beliefs, scores, reality, a, fresh, m_in_bundle);
        }
        a += 1;
    }
}

/// For every agent, the draws that decide which elements it adopts.
pub(crate) fn draw_all_acceptance(rng: &mut ThreadRng, p: Probability, counts: &Vec<Vec<Vec<i64>>>) -> (accept:
    Vec<Vec<Vec<bool>>>)
    requires
        p.wf(),
    ensures
        accept@.len() == counts@.len(),
        forall|a: int| 0 <= a < counts@.len() ==> (#[trigger] accept@[a])@.len() == counts@[a]@.len(),
        forall|a: int, b: int|
            0 <= a < counts@.len() && 0 <= b < counts@[a]@.len() ==> (#[trigger] accept@[a]@[b])@.len()
                == counts@[a]@[b]@.len(),
        forall|a: int, b: int, e: int|
            0 <= a < counts@.len() && 0 <= b < counts@[a]@.len() && 0 <= e < counts@[a]@[b]@.len()
                && #[trigger] accept@[a]@[b]@[e] ==> counts@[a]@[b]@[e] != 0,
        p.numerator == 0 ==> forall|a: int, b: int, e: int|
            0 <= a < counts@.len() && 0 <= b < counts@[a]@.len() && 0 <= e < counts@[a]@[b]@.len()
                ==> !(#[trigger] accept@[a]@[b]@[e]),
        p.numerator == p.denominator ==> forall|a: int, b: int, e: int|
            0 <= a < counts@.len() && 0 <= b < counts@[a]@.len() && 0 <= e < counts@[a]@[b]@.len()
                ==> #[trigger] accept@[a]@[b]@[e] == (counts@[a]@[b]@[e] != 0),
{
    let n = counts.len();
    let mut accept: Vec<Vec<Vec<bool>>> = Vec::new();
    let mut a: usize = 0;
    while a < n
        invariant
            a <= n,
            n == counts@.len(),
            p.wf(),
            accept@.len() == a,
            forall|x: int| 0 <= x < a ==> (#[trigger] accept@[x])@.len() == counts@[x]@.len(),
            forall|x: int, b: int|
                0 <= x < a && 0 <= b < counts@[x]@.len() ==> (#[trigger] accept@[x]@[b])@.len()
                    == counts@[x]@[b]@.len(),
            forall|x: int, b: int, e: int|
                0 <= x < a && 0 <= b < counts@[x]@.len() && 0 <= e < counts@[x]@[b]@.len()
                    && #[trigger] accept@[x]@[b]@[e] ==> counts@[x]@[b]@[e] != 0,
            p.numerator == 0 ==> forall|x: int, b: int, e: int|
                0 <= x < a && 0 <= b < counts@[x]@.len() && 0 <= e < counts@[x]@[b]@.len() ==> !(
                #[trigger] accept@[x]@[b]@[e]),
            p.numerator == p.denominator ==> forall|x: int, b: int, e: int|
                0 <= x < a && 0 <= b < counts@[x]@.len() && 0 <= e < counts@[x]@[b]@.len()
                    ==> #[trigger] accept@[x]@[b]@[e] == (counts@[x]@[b]@[e] != 0),
        decreases n - a,
    {
        let one = draw_acceptance(rng, p, &counts[a]);
        accept.push(one);
        a += 1;
    }
    accept
}

/// A copy of the beliefs of all agents.
pub fn copy_beliefs(beliefs: &Vec<Vec<Vec<bool>>>) -> (copy: Vec<Vec<Vec<bool>>>)
    ensures
        cube(&copy) == cube(beliefs),
        copy@.len() == beliefs@.len(),
        forall|a: int| 0 <= a < beliefs@.len() ==> grid(#[trigger] &copy@[a]) == grid(&beliefs@[a]),
{
    let n = beliefs.len();
    let mut copy: Vec<Vec<Vec<bool>>> = Vec::new();
    let mut a: usize = 0;
    while a < n
        invariant
            a <= n,
            n == beliefs@.len(),
            copy@.len() == a,
            forall|x: int| 0 <= x < a ==> grid(#[trigger] &copy@[x]) == grid(&beliefs@[x]),
        decreases n - a,
    {
        let one = crate::relation::copy_grid(&beliefs[a]);
        copy.push(one);
        a += 1;
    }
    assert(cube(&copy) =~= cube(beliefs));
    copy
}

} // verus!
