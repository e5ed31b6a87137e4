use crate::belief::{add_votes, cube, has_shape, tally_shape, vote, zero_tally};
use crate::params::{Probability, MAX_NODES};
use crate::random::flip;
use crate::relation::{grid, is_square, linked};
use crate::sums::sum_to;
use rand::rngs::ThreadRng;
use vstd::prelude::*;

verus! {

/// What neighbour `t` adds to the tally that agent `a` keeps of element `e`
/// of bundle `b`: its vote where it performs better than `a`, nothing
/// otherwise.
pub open spec fn tally_term(
    g: Seq<Seq<bool>>,
    perf: Seq<usize>,
    beliefs: Seq<Seq<Seq<bool>>>,
    a: int,
    b: int,
    e: int,
) -> spec_fn(int) -> int {
    |t: int|
        if linked(g, a, t) && perf[t] > perf[a] {
            vote(beliefs[a][b][e], beliefs[t][b][e])
        } else {
            0int
        }
}

/// The tally that agent `a` keeps of element `e` of bundle `b`: over all
/// neighbours that perform better than `a` and differ from it in the
/// element, the number whose bit holds less the number whose bit does not.
pub open spec fn tally(
    g: Seq<Seq<bool>>,
    perf: Seq<usize>,
    beliefs: Seq<Seq<Seq<bool>>>,
    a: int,
    b: int,
    e: int,
) -> int {
    sum_to(tally_term(g, perf, beliefs, a, b, e), g.len() as int)
}

/// The beliefs of `n` agents, each of `bundles` by `elements` bits.
pub open spec fn beliefs_shape(beliefs: &Vec<Vec<Vec<bool>>>, n: int, bundles: int, elements: int) -> bool {
    beliefs@.len() == n && forall|a: int|
        0 <= a < n ==> has_shape(#[trigger] grid(&beliefs@[a]), bundles, elements)
}

/// The tallies of one agent.
pub fn tally_for(
    network: &Vec<Vec<bool>>,
    performance: &Vec<usize>,
    beliefs: &Vec<Vec<Vec<bool>>>,
    agent: usize,
    bundles: usize,
    elements: usize,
) -> (counts: Vec<Vec<i64>>)
    requires
        network@.len() <= MAX_NODES,
        is_square(grid(network), network@.len() as int),
        performance@.len() == network@.len(),
        beliefs_shape(beliefs, network@.len() as int, bundles as int, elements as int),
        agent < network@.len(),
    ensures
        tally_shape(counts@, bundles as int, elements as int),
        forall|b: int, e: int|
            0 <= b < bundles && 0 <= e < elements ==> #[trigger] counts@[b]@[e] == tally(
                grid(network),
                performance@,
                cube(beliefs),
                agent as int,
                b,
                e,
            ),
{
    let n = network.len();
    let ghost g = grid(network);
    let ghost c = cube(beliefs);
    let mut counts = zero_tally(bundles, elements);
    let mut t: usize = 0;
    assert(has_shape(grid(&beliefs@[agent as int]), bundles as int, elements as int));
    while t < n
        invariant
            t <= n,
            n == network@.len(),
            n <= 1024,
            agent < n,
            g == grid(network),
            c == cube(beliefs),
            is_square(g, n as int),
            performance@.len() == n,
            beliefs_shape(beliefs, n as int, bundles as int, elements as int),
            tally_shape(counts@, bundles as int, elements as int),
            forall|b: int, e: int|
                0 <= b < bundles && 0 <= e < elements ==> -t <= #[trigger] counts@[b]@[e] <= t,
            forall|b: int, e: int|
                0 <= b < bundles && 0 <= e < elements ==> #[trigger] counts@[b]@[e] == sum_to(
                    tally_term(g, performance@, c, agent as int, b, e),
                    t as int,
                ),
        decreases n - t,
    {
        assert(g[agent as int].len() == n);
        let ghost before = counts@;
        if network[agent][t] && performance[t] > performance[agent] {
            let own = &beliefs[agent];
            let other = &beliefs[t];
            proof {
                assert(has_shape(grid(&beliefs@[agent as int]), bundles as int, elements as int));
                assert(has_shape(grid(&beliefs@[t as int]), bundles as int, elements as int));
                assert forall|b: int| 0 <= b < bundles implies (#[trigger] own@[b])@.len() == elements by {
                    assert(grid(own)[b].len() == elements);
                }
                assert forall|b: int| 0 <= b < bundles implies (#[trigger] other@[b])@.len()
                    == elements by {
                    assert(grid(other)[b].len() == elements);
                }
            }
            add_votes(&mut counts, own, other);
            proof {
                assert forall|b: int, e: int| 0 <= b < bundles && 0 <= e < elements implies #[trigger] counts@[b]@[e]
                    == sum_to(tally_term(g, performance@, c, agent as int, b, e), t + 1) by {
                    assert(counts@[b]@[e] == before[b]@[e] + vote(own@[b]@[e], other@[b]@[e]));
                    assert(c[agent as int][b][e] == own@[b]@[e]);
                    assert(c[t as int][b][e] == other@[b]@[e]);
                }
                assert forall|b: int, e: int| 0 <= b < bundles && 0 <= e < elements implies -(t + 1)
                    <= #[trigger] counts@[b]@[e] <= t + 1 by {
                    assert(counts@[b]@[e] == before[b]@[e] + vote(own@[b]@[e], other@[b]@[e]));
                    assert(-t <= before[b]@[e] <= t);
                }
            }
        } else {
            proof {
                assert forall|b: int, e: int| 0 <= b < bundles && 0 <= e < elements implies #[trigger] counts@[b]@[e]
                    == sum_to(tally_term(g, performance@, c, agent as int, b, e), t + 1) by {
                    assert(linked(g, agent as int, t as int) == network@[agent as int]@[t as int]);
                }
            }
        }
        t += 1;
    }
    counts
}

/// The tallies of every agent.
pub fn all_tallies(
    network: &Vec<Vec<bool>>,
    performance: &Vec<usize>,
    beliefs: &Vec<Vec<Vec<bool>>>,
    bundles: usize,
    elements: usize,
) -> (counts: Vec<Vec<Vec<i64>>>)
    requires
        network@.len() <= MAX_NODES,
        is_square(grid(network), network@.len() as int),
        performance@.len() == network@.len(),
        beliefs_shape(beliefs, network@.len() as int, bundles as int, elements as int),
    ensures
        is_tally_of(counts, grid(network), performance@, cube(beliefs), bundles as int, elements as int),
{
    let n = network.len();
    let mut counts: Vec<Vec<Vec<i64>>> = Vec::new();
    let mut a: usize = 0;
    while a < n
        invariant
            a <= n,
            n == network@.len(),
            n <= MAX_NODES,
            is_square(grid(network), n as int),
            performance@.len() == n,
            beliefs_shape(beliefs, n as int, bundles as int, elements as int),
            counts@.len() == a,
            forall|x: int|
                0 <= x < a ==> tally_shape((#[trigger] counts@[x])@, bundles as int, elements as int),
            forall|x: int, b: int, e: int|
                0 <= x < a && 0 <= b < bundles && 0 <= e < elements ==> #[trigger] counts@[x]@[b]@[e]
                    == tally(grid(network), performance@, cube(beliefs), x, b, e),
        decreases n - a,
    {
        let row = tally_for(network, performance, beliefs, a, bundles, elements);
        counts.push(row);
        a += 1;
    }
    counts
}

/// `counts` holds, for every agent of `g`, the tally of every element.
pub open spec fn is_tally_of(
    counts: Vec<Vec<Vec<i64>>>,
    g: Seq<Seq<bool>>,
    perf: Seq<usize>,
    beliefs: Seq<Seq<Seq<bool>>>,
    bundles: int,
    elements: int,
) -> bool {
    &&& counts@.len() == g.len()
    &&& forall|a: int| 0 <= a < g.len() ==> tally_shape((#[trigger] counts@[a])@, bundles, elements)
    &&& forall|a: int, b: int, e: int|
        0 <= a < g.len() && 0 <= b < bundles && 0 <= e < elements ==> #[trigger] counts@[a]@[b]@[e]
            == tally(g, perf, beliefs, a, b, e)
}

/// For every element with a tally other than zero, a draw that holds with
/// probability `p`; for every other element, a draw that does not hold.
pub(crate) fn draw_acceptance(rng: &mut ThreadRng, p: Probability, counts: &Vec<Vec<i64>>) -> (accept:
    Vec<Vec<bool>>)
    requires
        p.wf(),
    ensures
        accept@.len() == counts@.len(),
        forall|b: int| 0 <= b < counts@.len() ==> (#[trigger] accept@[b])@.len() == counts@[b]@.len(),
        forall|b: int, e: int|
            0 <= b < counts@.len() && 0 <= e < counts@[b]@.len() && #[trigger] accept@[b]@[e]
                ==> counts@[b]@[e] != 0,
        p.numerator == 0 ==> forall|b: int, e: int|
            0 <= b < counts@.len() && 0 <= e < counts@[b]@.len() ==> !(#[trigger] accept@[b]@[e]),
        p.numerator == p.denominator ==> forall|b: int, e: int|
            0 <= b < counts@.len() && 0 <= e < counts@[b]@.len() ==> #[trigger] accept@[b]@[e] == (
            counts@[b]@[e] != 0),
{
    let bundles = counts.len();
    let mut accept: Vec<Vec<bool>> = Vec::new();
    let mut b: usize = 0;
    while b < bundles
        invariant
            b <= bundles,
            bundles == counts@.len(),
            p.wf(),
            accept@.len() == b,
            forall|k: int| 0 <= k < b ==> (#[trigger] accept@[k])@.len() == counts@[k]@.len(),
            forall|k: int, e: int|
                0 <= k < b && 0 <= e < counts@[k]@.len() && #[trigger] accept@[k]@[e] ==> counts@[k]@[e]
                    != 0,
            p.numerator == 0 ==> forall|k: int, e: int|
                0 <= k < b && 0 <= e < counts@[k]@.len() ==> !(#[trigger] accept@[k]@[e]),
            p.numerator == p.denominator ==> forall|k: int, e: int|
                0 <= k < b && 0 <= e < counts@[k]@.len() ==> #[trigger] accept@[k]@[e] == (
                counts@[k]@[e] != 0),
        decreases bundles - b,
    {
        let elements = counts[b].len();
        let mut row: Vec<bool> = Vec::new();
        let mut e: usize = 0;
        while e < elements
            invariant
                e <= elements,
                b < bundles,
                bundles == counts@.len(),
                elements == counts@[b as int]@.len(),
                p.wf(),
                row@.len() == e,
                forall|x: int| 0 <= x < e && #[trigger] row@[x] ==> counts@[b as int]@[x] != 0,
                p.numerator == 0 ==> forall|x: int| 0 <= x < e ==> !(#[trigger] row@[x]),
                p.numerator == p.denominator ==> forall|x: int|
                    0 <= x < e ==> #[trigger] row@[x] == (counts@[b as int]@[x] != 0),
            decreases elements - e,
        {
            if counts[b][e] != 0 {
                let hit = flip(rng, p);
                row.push(hit);
            } else {
                row.push(false);
            }
            e += 1;
        }
        accept.push(row);
        b += 1;
    }
    accept
}

} // verus!
