use crate::network::Network;
use crate::relation::{degree_of, grid, lemma_row_count_bounds, linked};
use crate::sums::sum_to;
use crate::weights::common_neighbours;
use vstd::prelude::*;

verus! {

/// An exact ratio `numerator / denominator`.
#[derive(Clone, Copy, Debug, PartialEq, Eq, Structural)]
pub struct Fraction {
    pub numerator: u64,
    pub denominator: u64,
}

/// The numerator of the score that `focal` gives `target`: under network
/// closure the number of their common neighbours, under preferential
/// attachment the degree of `target`; zero for a node's score of itself and
/// under any other mechanism.
pub open spec fn score_numerator(g: Seq<Seq<bool>>, social_dynamics: usize, focal: int, target: int) -> int {
    if focal == target {
        0
    } else if social_dynamics == 0 {
        common_neighbours(g, focal, target)
    } else if social_dynamics == 1 {
        degree_of(g, target)
    } else {
        0
    }
}

/// The denominator of the score that `focal` gives `target`: under network
/// closure the degree of `focal`, which counts one more where the two are
/// not tied; one under any other mechanism.
pub open spec fn score_denominator(g: Seq<Seq<bool>>, social_dynamics: usize, focal: int, target: int) -> int {
    if social_dynamics == 0 {
        degree_of(g, focal) + (if linked(g, focal, target) {
            0int
        } else {
            1int
        })
    } else {
        1
    }
}

pub open spec fn tied_term(g: Seq<Seq<bool>>, social_dynamics: usize, focal: int) -> spec_fn(int) -> int {
    |t: int| if linked(g, focal, t) { score_numerator(g, social_dynamics, focal, t) } else { 0int }
}

pub open spec fn untied_term(g: Seq<Seq<bool>>, social_dynamics: usize, focal: int) -> spec_fn(int) -> int {
    |t: int| if linked(g, focal, t) { 0int } else { score_numerator(g, social_dynamics, focal, t) }
}

/// The sum of the numerators of the scores that `focal` gives the nodes it
/// is tied to.
pub open spec fn tied_sum(g: Seq<Seq<bool>>, social_dynamics: usize, focal: int) -> int {
    sum_to(tied_term(g, social_dynamics, focal), g.len() as int)
}

/// The sum of the numerators of the scores that `focal` gives the nodes it
/// is not tied to.
pub open spec fn untied_sum(g: Seq<Seq<bool>>, social_dynamics: usize, focal: int) -> int {
    sum_to(untied_term(g, social_dynamics, focal), g.len() as int)
}

/// The average score that `focal` gives: the sum of its scores over its
/// degree, or the sum itself where its degree is zero. Under network
/// closure the scores of tied nodes have the degree `d` as denominator and
/// those of the others `d + 1`, so their sum is
/// `(tied * (d + 1) + untied * d) / (d * (d + 1))`.
pub open spec fn is_average_score(g: Seq<Seq<bool>>, social_dynamics: usize, focal: int, x: Fraction) -> bool {
    let d = degree_of(g, focal);
    let tied = tied_sum(g, social_dynamics, focal);
    let untied = untied_sum(g, social_dynamics, focal);
    if social_dynamics == 0 && d > 0 {
        x.numerator == tied * (d + 1) + untied * d && x.denominator == d * d * (d + 1)
    } else if d > 0 {
        x.numerator == tied + untied && x.denominator == d
    } else {
        x.numerator == tied + untied && x.denominator == 1
    }
}

/// `scores` holds the score that every node gives every node, and
/// `averages` the average score that every node gives.
pub open spec fn is_preference_score(
    scores: Seq<Vec<Fraction>>,
    averages: Seq<Fraction>,
    g: Seq<Seq<bool>>,
    social_dynamics: usize,
) -> bool {
    &&& scores.len() == g.len()
    &&& averages.len() == g.len()
    &&& forall|f: int| 0 <= f < g.len() ==> (#[trigger] scores[f])@.len() == g.len()
    &&& forall|f: int, t: int|
        0 <= f < g.len() && 0 <= t < g.len() ==> (#[trigger] scores[f]@[t]).numerator
            == score_numerator(g, social_dynamics, f, t) && scores[f]@[t].denominator
            == score_denominator(g, social_dynamics, f, t)
    &&& forall|f: int|
        0 <= f < g.len() ==> is_average_score(g, social_dynamics, f, #[trigger] averages[f])
}

/// The tables are for `n` nodes, and every score in them is zero.
pub open spec fn is_zero_score(scores: Seq<Vec<Fraction>>, averages: Seq<Fraction>, n: int) -> bool {
    &&& scores.len() == n
    &&& averages.len() == n
    &&& forall|f: int| 0 <= f < n ==> (#[trigger] scores[f])@.len() == n
    &&& forall|f: int, t: int|
        0 <= f < n && 0 <= t < n ==> #[trigger] scores[f]@[t] == (Fraction {
            numerator: 0,
            denominator: 1,
        })
    &&& forall|f: int|
        0 <= f < n ==> #[trigger] averages[f] == (Fraction { numerator: 0, denominator: 1 })
}

/// Tables of scores for `n` nodes in which every score is zero.
pub fn zero_scores(n: usize) -> (tables: (Vec<Vec<Fraction>>, Vec<Fraction>))
    ensures
        is_zero_score(tables.0@, tables.1@, n as int),
{
    let zero = Fraction { numerator: 0, denominator: 1 };
    let mut scores: Vec<Vec<Fraction>> = Vec::new();
    let mut averages: Vec<Fraction> = Vec::new();
    let mut f: usize = 0;
    while f < n
        invariant
            f <= n,
            zero == (Fraction { numerator: 0, denominator: 1 }),
            scores@.len() == f,
            averages@.len() == f,
            forall|x: int| 0 <= x < f ==> (#[trigger] scores@[x])@.len() == n,
            forall|x: int, t: int| 0 <= x < f && 0 <= t < n ==> #[trigger] scores@[x]@[t] == zero,
            forall|x: int| 0 <= x < f ==> #[trigger] averages@[x] == zero,
        decreases n - f,
    {
        let mut row: Vec<Fraction> = Vec::new();
        let mut t: usize = 0;
        while t < n
            invariant
                t <= n,
                row@.len() == t,
                forall|x: int| 0 <= x < t ==> #[trigger] row@[x] == zero,
            decreases n - t,
        {
            row.push(zero);
            t += 1;
        }
        scores.push(row);
        averages.push(zero);
        f += 1;
    }
    (scores, averages)
}

/// The score that every node gives every node under the mechanism that
/// `social_dynamics` selects, and the average score that every node gives.
pub fn preference_scores(net: &Network, social_dynamics: usize) -> (tables: (
    Vec<Vec<Fraction>>,
    Vec<Fraction>,
))
    requires
        net.wf(),
    ensures
        is_preference_score(tables.0@, tables.1@, grid(&net.overall), social_dynamics),
{
    let n = net.n;
    let ghost g = grid(&net.overall);
    let mut scores: Vec<Vec<Fraction>> = Vec::new();
    let mut averages: Vec<Fraction> = Vec::new();
    let mut f: usize = 0;
    while f < n
        invariant
            f <= n,
            n == net.n,
            net.wf(),
            g == grid(&net.overall),
            scores@.len() == f,
            averages@.len() == f,
            forall|x: int| 0 <= x < f ==> (#[trigger] scores@[x])@.len() == n,
            forall|x: int, t: int|
                0 <= x < f && 0 <= t < n ==> (#[trigger] scores@[x]@[t]).numerator == score_numerator(
                    g,
                    social_dynamics,
                    x,
                    t,
                ) && scores@[x]@[t].denominator == score_denominator(g, social_dynamics, x, t),
            forall|x: int|
                0 <= x < f ==> is_average_score(g, social_dynamics, x, #[trigger] averages@[x]),
        decreases n - f,
    {
        let d = net.degree[f];
        proof {
            assert(g[f as int].len() == n);
            lemma_row_count_bounds(g[f as int]);
        }
        let mut row: Vec<Fraction> = Vec::new();
        let mut tied: u64 = 0;
        let mut untied: u64 = 0;
        let mut t: usize = 0;
        while t < n
            invariant
                t <= n,
                f < n,
                n == net.n,
                net.wf(),
                g == grid(&net.overall),
                d == degree_of(g, f as int),
                d <= n,
                row@.len() == t,
                forall|x: int|
                    0 <= x < t ==> (#[trigger] row@[x]).numerator == score_numerator(
                        g,
                        social_dynamics,
                        f as int,
                        x,
                    ) && row@[x].denominator == score_denominator(g, social_dynamics, f as int, x),
                tied == sum_to(tied_term(g, social_dynamics, f as int), t as int),
                untied == sum_to(untied_term(g, social_dynamics, f as int), t as int),
                tied <= t * 1024,
                untied <= t * 1024,
            decreases n - t,
        {
            let is_tied = net.is_tied(f, t);
            let dt = net.degree[t];
            proof {
                assert(g[t as int].len() == n);
                lemma_row_count_bounds(g[t as int]);
            }
            let numerator: u64 = if f == t {
                0
            } else if social_dynamics == 0 {
                net.common_neighbours(f, t) as u64
            } else if social_dynamics == 1 {
                dt as u64
            } else {
                0
            };
            let denominator: u64 = if social_dynamics == 0 {
                if is_tied {
                    d as u64
                } else {
                    d as u64 + 1
                }
            } else {
                1
            };
            row.push(Fraction { numerator, denominator });
            if is_tied {
                tied = tied + numerator;
            } else {
                untied = untied + numerator;
            }
            t += 1;
        }
        let average = if social_dynamics == 0 && d > 0 {
            let d64 = d as u64;
            assert(tied * (d64 + 1) + untied * d64 <= 1048576 * 1025 + 1048576 * 1024 && d64 * d64 * (
            d64 + 1) <= 1024 * 1024 * 1025 && d64 * d64 <= 1024 * 1024) by (nonlinear_arith)
                requires
                    tied <= 1048576,
                    untied <= 1048576,
                    0 < d64 <= 1024,
            ;
            Fraction { numerator: tied * (d64 + 1) + untied * d64, denominator: d64 * d64 * (d64 + 1) }
        } else if d > 0 {
            Fraction { numerator: tied + untied, denominator: d as u64 }
        } else {
            Fraction { numerator: tied + untied, denominator: 1 }
        };
        scores.push(row);
        averages.push(average);
        f += 1;
    }
    (scores, averages)
}

} // verus!
