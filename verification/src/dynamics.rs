use crate::agents::{
    adopt_all, draw_all_acceptance, lemma_score_limit, replace_belief, score_all, sum_scores, turn_over,
};
use crate::belief::{cube, flip_where, has_shape, law_performance_bound, performance, score, tally_shape};
use crate::error::SimulationError;
use crate::export::{csv_text, is_edge_list, EdgeRow};
use crate::learning::{all_tallies, is_tally_of, tally};
use crate::network::Network;
use crate::preference::{is_preference_score, preference_scores};
use crate::random::draw_flips;
use crate::relation::{degree_of, grid, includes, is_empty_relation, lemma_empty_tie_count, tie_count};
use crate::rewiring::{
    break_ties, form_ties, has_room_for, is_breaking_trace, is_formation_trace, is_random_run,
    lemma_formed_within_shrink, lemma_saturated_is_complete, random_rewire, Rewired,
};
use crate::scenario::Scenario;
use vstd::prelude::*;

verus! {

/// What a round of rewiring with the quotas `num_formation` and `num_break`
/// did to the network, as `done` reports it: with `Ok`, that many informal
/// ties were formed and broken; with an error, as many as the error says,
/// and fewer than asked of at least one kind.
pub open spec fn rewired_as(
    before: &Network,
    after: &Network,
    num_formation: usize,
    num_break: usize,
    done: Result<(), SimulationError>,
) -> bool {
    match done {
        Ok(()) => {
            &&& tie_count(grid(&after.informal)) == tie_count(grid(&before.informal)) + num_formation
                - num_break
            &&& tie_count(grid(&after.overall)) == tie_count(grid(&before.overall)) + num_formation
                - num_break
        },
        Err(SimulationError::NoEligibleCandidates { formed, broken }) => {
            &&& formed <= num_formation
            &&& broken <= num_break
            &&& (formed < num_formation || broken < num_break)
            &&& tie_count(grid(&after.informal)) == tie_count(grid(&before.informal)) + formed - broken
            &&& tie_count(grid(&after.overall)) == tie_count(grid(&before.overall)) + formed - broken
        },
        Err(SimulationError::MalformedRelation) => false,
    }
}

/// What `report` says of a round with the quotas `num_formation` and
/// `num_break`.
pub fn rewiring_result(report: Rewired, num_formation: usize, num_break: usize) -> (done: Result<
    (),
    SimulationError,
>)
    requires
        report.formed <= num_formation,
        report.broken <= num_break,
    ensures
        done is Ok <==> report.formed == num_formation && report.broken == num_break,
        done is Err ==> done == Err::<(), SimulationError>(
            SimulationError::NoEligibleCandidates { formed: report.formed, broken: report.broken },
        ),
{
    if report.formed == num_formation && report.broken == num_break {
        Ok(())
    } else {
        Err(SimulationError::NoEligibleCandidates { formed: report.formed, broken: report.broken })
    }
}

/// How many ties the round formed, as `done` reports it.
pub open spec fn formed_count(num_formation: usize, done: Result<(), SimulationError>) -> int {
    match done {
        Ok(()) => num_formation as int,
        Err(SimulationError::NoEligibleCandidates { formed, broken }) => formed as int,
        Err(SimulationError::MalformedRelation) => 0,
    }
}

/// How many ties the round broke, as `done` reports it.
pub open spec fn broken_count(num_break: usize, done: Result<(), SimulationError>) -> int {
    match done {
        Ok(()) => num_break as int,
        Err(SimulationError::NoEligibleCandidates { formed, broken }) => broken as int,
        Err(SimulationError::MalformedRelation) => 0,
    }
}

/// A round of directed rewiring led from `before` over `mid` to `after`:
/// first `formed` informal ties were formed one by one as the mechanism
/// forms them, fewer than `num_formation` only where `mid` takes no more;
/// then `broken` informal ties were broken one by one as the mechanism
/// breaks them, fewer than `num_break` only where `mid` had no more.
pub open spec fn directed_stages(
    before: &Network,
    mid: &Network,
    after: &Network,
    social_dynamics: usize,
    cap: int,
    num_formation: int,
    formed: int,
    num_break: int,
    broken: int,
) -> bool {
    &&& mid.wf()
    &&& mid.same_frame(before)
    &&& formed < num_formation ==> mid.is_saturated(cap)
    &&& tie_count(grid(&mid.informal)) == tie_count(grid(&before.informal)) + formed
    &&& tie_count(grid(&mid.overall)) == tie_count(grid(&before.overall)) + formed
    &&& includes(grid(&mid.informal), grid(&before.informal))
    &&& includes(grid(&mid.overall), grid(&before.overall))
    &&& includes(grid(&mid.informal), grid(&after.informal))
    &&& includes(grid(&mid.overall), grid(&after.overall))
    &&& (broken == num_break || broken == tie_count(grid(&mid.informal)))
    &&& (exists|trace: Seq<Network>| #[trigger]
        is_formation_trace(trace, *before, *mid, social_dynamics, cap, formed))
    &&& (exists|trace: Seq<Network>| #[trigger]
        is_breaking_trace(trace, *mid, *after, social_dynamics, broken))
}

/// All that a round of rewiring with the quotas `num_formation` and
/// `num_break` owes: the counts that `done` reports are what was formed and
/// broken; with no tie to form and no more to break than there are informal
/// ties the round succeeds, and so it does where neither cap nor mask
/// stands in the way of the ties to form and there will be enough informal
/// ties to break; fewer ties are broken than asked for only where
/// no informal tie is left; and fewer are formed than asked for only where
/// the network that tie formation left takes no more. A directed round goes
/// through the two stages that `directed_stages` describes; a random round
/// is a run of passes over all dyads, as `is_random_run` describes.
pub open spec fn rewiring_outcome(
    before: &Network,
    after: &Network,
    random: bool,
    social_dynamics: usize,
    cap: int,
    num_formation: usize,
    num_break: usize,
    done: Result<(), SimulationError>,
) -> bool {
    &&& rewired_as(before, after, num_formation, num_break, done)
    &&& num_formation == 0 && num_break <= tie_count(grid(&before.informal)) ==> done is Ok
    &&& has_room_for(before, cap, num_formation as int) && num_break <= tie_count(
        grid(&before.informal),
    ) + num_formation ==> done is Ok
    &&& broken_count(num_break, done) < num_break ==> is_empty_relation(grid(&after.informal))
    &&& if random {
        &&& formed_count(num_formation, done) < num_formation ==> after.is_saturated(cap)
        &&& exists|orders: Seq<Seq<(usize, usize)>>| #[trigger]
            is_random_run(
                before,
                after,
                orders,
                cap,
                num_formation as int,
                num_break as int,
                formed_count(num_formation, done),
                broken_count(num_break, done),
            )
    } else {
        exists|mid: Network| #[trigger]
            directed_stages(
                before,
                &mid,
                after,
                social_dynamics,
                cap,
                num_formation as int,
                formed_count(num_formation, done),
                num_break as int,
                broken_count(num_break, done),
            )
    }
}

impl Scenario {
    /// Nothing differs but the random source, the order of the dyads and
    /// the published statistics.
    pub open spec fn same_population(&self, other: &Scenario) -> bool {
        &&& self.same_setup(other)
        &&& self.same_switches(other)
        &&& self.same_agents(other)
        &&& self.network.same_ties(&other.network)
    }

    /// Against `before`, an agent differs in a bit only where the tally that
    /// it kept of the bit was not zero: the tally over the present network,
    /// with the scores and beliefs of `before`.
    pub open spec fn learned_from(&self, before: &Scenario) -> bool {
        forall|a: int, b: int, e: int|
            0 <= a < before.config.n && 0 <= b < before.config.m_of_bundle && 0 <= e
                < before.config.m_in_bundle && #[trigger] cube(&self.belief_of)[a][b][e] != cube(
                &before.belief_of,
            )[a][b][e] ==> tally(
                grid(&self.network.overall),
                before.performance_of@,
                cube(&before.belief_of),
                a,
                b,
                e,
            ) != 0
    }

    /// Against `before`, every agent has flipped exactly the bits of which
    /// it kept a tally other than zero.
    pub open spec fn learned_all_from(&self, before: &Scenario) -> bool {
        forall|a: int, b: int, e: int|
            0 <= a < before.config.n && 0 <= b < before.config.m_of_bundle && 0 <= e
                < before.config.m_in_bundle ==> #[trigger] cube(&self.belief_of)[a][b][e] == (if tally(
                grid(&self.network.overall),
                before.performance_of@,
                cube(&before.belief_of),
                a,
                b,
                e,
            ) != 0 {
                !cube(&before.belief_of)[a][b][e]
            } else {
                cube(&before.belief_of)[a][b][e]
            })
    }

    /// Nothing differs but the scores, the random source and the order of
    /// the dyads.
    pub open spec fn same_but_scores(&self, other: &Scenario) -> bool {
        &&& self.same_setup(other)
        &&& self.same_switches(other)
        &&& self.network.same_ties(&other.network)
        &&& grid(&self.reality) == grid(&other.reality)
        &&& cube(&self.belief_of) == cube(&other.belief_of)
        &&& self.network_analyzer == other.network_analyzer
        &&& self.performance_total == other.performance_total
        &&& self.preference_score == other.preference_score
        &&& self.preference_score_avg == other.preference_score_avg
    }

    /// This state came from `learned` by turnover alone, and `learned` came
    /// from `before` by rewiring, learning and the setting of the outcome:
    /// the published statistics, the sum of the scores among them, are those
    /// of `learned`, in which every agent has learned from `before` and
    /// nobody has been replaced yet.
    pub open spec fn is_turnover_of(&self, learned: &Scenario, before: &Scenario) -> bool {
        &&& learned.wf()
        &&& learned.outcome_is_current()
        &&& learned.same_setup(before)
        &&& learned.network == self.network
        &&& grid(&learned.reality) == grid(&self.reality)
        &&& learned.learned_from(before)
        &&& (before.config.p_learning.numerator == before.config.p_learning.denominator
            ==> learned.learned_all_from(before))
        &&& self.performance_total == learned.performance_total
        &&& self.network_analyzer == learned.network_analyzer
        &&& (before.turnover_rate.numerator == 0 ==> self.same_agents(learned))
    }

    /// The score of agent `focal`, computed from its belief: the size of a
    /// bundle for every bundle in which the belief matches reality exactly.
    /// It is the score on record where the scores are up to date.
    pub fn get_performance_of(&self, focal: usize) -> (points: usize)
        requires
            self.shaped(),
            focal < self.config.n,
        ensures
            points == performance(
                grid(&self.belief_of@[focal as int]),
                grid(&self.reality),
                self.config.m_in_bundle as int,
            ),
            self.scored() ==> points == self.performance_of@[focal as int],
            points <= self.config.m_of_bundle * self.config.m_in_bundle,
    {
        assert(has_shape(
            grid(&self.belief_of@[focal as int]),
            self.config.m_of_bundle as int,
            self.config.m_in_bundle as int,
        ));
        score(&self.belief_of[focal], &self.reality, self.config.m_in_bundle)
    }

    /// Brings the score of agent `focal` up to date with its belief and
    /// reality, whatever score was on record. The other scores stay.
    pub fn set_performance_of(&mut self, focal: usize)
        requires
            old(self).shaped(),
            focal < old(self).config.n,
        ensures
            final(self).shaped(),
            final(self).same_but_scores(old(self)),
            final(self).performance_of@ == old(self).performance_of@.update(
                focal as int,
                performance(
                    grid(&old(self).belief_of@[focal as int]),
                    grid(&old(self).reality),
                    old(self).config.m_in_bundle as int,
                ) as usize,
            ),
            old(self).scored() ==> final(self).scored() && final(self).performance_of@ == old(
                self,
            ).performance_of@,
    {
        let points = self.get_performance_of(focal);
        self.performance_of[focal] = points;
        proof {
            if old(self).scored() {
                assert(self.performance_of@ =~= old(self).performance_of@);
            }
        }
    }

    /// Brings the score of every agent up to date with its belief and
    /// reality, whatever scores were on record. Nothing else changes.
    pub fn set_performance(&mut self)
        requires
            old(self).shaped(),
        ensures
            final(self).wf(),
            final(self).same_but_scores(old(self)),
            forall|a: int|
                0 <= a < old(self).config.n ==> #[trigger] final(self).performance_of@[a] == performance(
                    grid(&old(self).belief_of@[a]),
                    grid(&old(self).reality),
                    old(self).config.m_in_bundle as int,
                ),
            old(self).scored() ==> final(self).performance_of@ == old(self).performance_of@,
    {
        self.performance_of = score_all(&self.belief_of, &self.reality, self.config.m_in_bundle);
        proof {
            if old(self).scored() {
                assert(self.performance_of@ =~= old(self).performance_of@);
            }
        }
    }

    /// Recomputes the statistics of the network and the sum of the scores.
    pub fn set_outcome(&mut self)
        requires
            old(self).wf(),
        ensures
            final(self).wf(),
            final(self).network == old(self).network,
            final(self).outcome_is_current(),
            final(self).same_population(old(self)),
            final(self).preference_score == old(self).preference_score,
            final(self).preference_score_avg == old(self).preference_score_avg,
    {
        proof {
            assert forall|a: int| 0 <= a < self.performance_of@.len() implies #[trigger] self.performance_of@[a]
                <= 4294967295 by {
                law_performance_bound(
                    grid(&self.belief_of@[a]),
                    grid(&self.reality),
                    self.config.m_of_bundle as int,
                    self.config.m_in_bundle as int,
                );
                lemma_score_limit(
                    self.performance_of@[a] as int,
                    self.config.m_of_bundle as int,
                    self.config.m_in_bundle as int,
                );
            }
        }
        self.performance_total = sum_scores(&self.performance_of);
        let measured = self.network_analyzer.set_network_metrics(&self.network.overall);
        assert(measured is Ok);
    }

    /// Forms up to `num_formation` informal ties by the mechanism of this
    /// instance and returns how many it formed: fewer than asked for only
    /// where no tie may be formed any more.
    pub fn do_tie_formation(&mut self, num_formation: usize) -> (formed: usize)
        requires
            old(self).wf(),
        ensures
            final(self).wf(),
            final(self).same_setup(old(self)),
            final(self).same_switches(old(self)),
            final(self).same_agents(old(self)),
            final(self).network.same_frame(&old(self).network),
            formed <= num_formation,
            formed < num_formation ==> final(self).network.is_saturated(
                old(self).config.informal_max_num as int,
            ),
            tie_count(grid(&final(self).network.informal)) == tie_count(
                grid(&old(self).network.informal),
            ) + formed,
            tie_count(grid(&final(self).network.overall)) == tie_count(grid(&old(self).network.overall))
                + formed,
            final(self).network.formed_within(
                &old(self).network,
                old(self).config.informal_max_num as int,
            ),
            includes(grid(&final(self).network.informal), grid(&old(self).network.informal)),
            includes(grid(&final(self).network.overall), grid(&old(self).network.overall)),
            exists|trace: Seq<Network>| #[trigger]
                is_formation_trace(
                    trace,
                    old(self).network,
                    final(self).network,
                    old(self).social_dynamics,
                    old(self).config.informal_max_num as int,
                    formed as int,
                ),
            has_room_for(
                &old(self).network,
                old(self).config.informal_max_num as int,
                num_formation as int,
            ) ==> formed == num_formation,
    {
        form_ties(
            &mut self.network,
            &mut self.iterator_dyad,
            &mut self.rng,
            self.social_dynamics,
            self.config.informal_max_num,
            num_formation,
        )
    }

    /// Breaks up to `num_break` informal ties by the mechanism of this
    /// instance and returns how many it broke: fewer than asked for only
    /// where no informal tie is left.
    pub fn do_tie_break(&mut self, num_break: usize) -> (broken: usize)
        requires
            old(self).wf(),
        ensures
            final(self).wf(),
            final(self).same_setup(old(self)),
            final(self).same_switches(old(self)),
            final(self).same_agents(old(self)),
            final(self).network.same_frame(&old(self).network),
            broken <= num_break,
            broken == num_break || broken == tie_count(grid(&old(self).network.informal)),
            broken <= tie_count(grid(&old(self).network.informal)),
            broken < num_break ==> is_empty_relation(grid(&final(self).network.informal)),
            tie_count(grid(&final(self).network.informal)) == tie_count(
                grid(&old(self).network.informal),
            ) - broken,
            tie_count(grid(&final(self).network.overall)) == tie_count(grid(&old(self).network.overall))
                - broken,
            includes(grid(&old(self).network.informal), grid(&final(self).network.informal)),
            includes(grid(&old(self).network.overall), grid(&final(self).network.overall)),
            forall|v: int|
                0 <= v < old(self).config.n ==> #[trigger] degree_of(
                    grid(&final(self).network.informal),
                    v,
                ) <= degree_of(grid(&old(self).network.informal), v),
            exists|trace: Seq<Network>| #[trigger]
                is_breaking_trace(
                    trace,
                    old(self).network,
                    final(self).network,
                    old(self).social_dynamics,
                    broken as int,
                ),
    {
        break_ties(
            &mut self.network,
            &mut self.iterator_dyad,
            &mut self.rng,
            self.social_dynamics,
            num_break,
        )
    }

    /// Forms up to `num_formation` and breaks up to `num_break` informal
    /// ties in passes over the dyads in random order, and returns how many
    /// it formed and broke.
    pub fn do_random_rewiring(&mut self, num_formation: usize, num_break: usize) -> (done: Rewired)
        requires
            old(self).wf(),
        ensures
            final(self).wf(),
            final(self).same_setup(old(self)),
            final(self).same_switches(old(self)),
            final(self).same_agents(old(self)),
            final(self).network.same_frame(&old(self).network),
            done.formed <= num_formation,
            done.broken <= num_break,
            done.formed < num_formation ==> final(self).network.is_saturated(
                old(self).config.informal_max_num as int,
            ),
            done.broken < num_break ==> is_empty_relation(grid(&final(self).network.informal)),
            tie_count(grid(&final(self).network.informal)) == tie_count(
                grid(&old(self).network.informal),
            ) + done.formed - done.broken,
            tie_count(grid(&final(self).network.overall)) == tie_count(grid(&old(self).network.overall))
                + done.formed - done.broken,
            final(self).network.formed_within(
                &old(self).network,
                old(self).config.informal_max_num as int,
            ),
            exists|orders: Seq<Seq<(usize, usize)>>| #[trigger]
                is_random_run(
                    &old(self).network,
                    &final(self).network,
                    orders,
                    old(self).config.informal_max_num as int,
                    num_formation as int,
                    num_break as int,
                    done.formed as int,
                    done.broken as int,
                ),
    {
        random_rewire(
            &mut self.network,
            &mut self.iterator_dyad,
            &mut self.rng,
            self.config.informal_max_num,
            num_formation,
            num_break,
        )
    }

    /// One round of rewiring: at random where random rewiring is switched
    /// on, and otherwise tie formation followed by tie breaking. No formal
    /// tie is touched. Where a quota cannot be met, as many ties are formed
    /// and broken as can be, and the error says how many.
    pub fn do_rewiring(&mut self, num_formation: usize, num_break: usize) -> (done: Result<
        (),
        SimulationError,
    >)
        requires
            old(self).wf(),
        ensures
            final(self).wf(),
            final(self).same_setup(old(self)),
            final(self).same_switches(old(self)),
            final(self).same_agents(old(self)),
            final(self).network.same_frame(&old(self).network),
            rewiring_outcome(
                &old(self).network,
                &final(self).network,
                old(self).is_random_rewiring,
                old(self).social_dynamics,
                old(self).config.informal_max_num as int,
                num_formation,
                num_break,
                done,
            ),
            final(self).network.formed_within(
                &old(self).network,
                old(self).config.informal_max_num as int,
            ),
    {
        let ghost cap = self.config.informal_max_num as int;
        let report = if self.is_random_rewiring {
            let report = self.do_random_rewiring(num_formation, num_break);
            proof {
                if report.broken < num_break {
                    lemma_empty_tie_count(grid(&self.network.informal));
                }
                if report.formed < num_formation && has_room_for(
                    &old(self).network,
                    cap,
                    num_formation as int,
                ) {
                    lemma_saturated_is_complete(&self.network, cap);
                }
            }
            report
        } else {
            let formed = self.do_tie_formation(num_formation);
            let ghost formed_net = self.network;
            let broken = self.do_tie_break(num_break);
            proof {
                lemma_formed_within_shrink(&old(self).network, &formed_net, &self.network, cap);
                assert(directed_stages(
                    &old(self).network,
                    &formed_net,
                    &self.network,
                    self.social_dynamics,
                    cap,
                    num_formation as int,
                    formed as int,
                    num_break as int,
                    broken as int,
                ));
            }
            Rewired { formed, broken }
        };
        let done = rewiring_result(report, num_formation, num_break);
        proof {
            assert(formed_count(num_formation, done) == report.formed);
            assert(broken_count(num_break, done) == report.broken);
            assert(rewired_as(&old(self).network, &self.network, num_formation, num_break, done));
            if old(self).is_random_rewiring {
                let orders = choose|orders: Seq<Seq<(usize, usize)>>| #[trigger]
                    is_random_run(
                        &old(self).network,
                        &self.network,
                        orders,
                        cap,
                        num_formation as int,
                        num_break as int,
                        report.formed as int,
                        report.broken as int,
                    );
                assert(is_random_run(
                    &old(self).network,
                    &self.network,
                    orders,
                    cap,
                    num_formation as int,
                    num_break as int,
                    formed_count(num_formation, done),
                    broken_count(num_break, done),
                ));
            }
            if !old(self).is_random_rewiring {
                let mid = choose|mid: Network| #[trigger]
                    directed_stages(
                        &old(self).network,
                        &mid,
                        &self.network,
                        self.social_dynamics,
                        cap,
                        num_formation as int,
                        report.formed as int,
                        num_break as int,
                        report.broken as int,
                    );
                assert(directed_stages(
                    &old(self).network,
                    &mid,
                    &self.network,
                    old(self).social_dynamics,
                    cap,
                    num_formation as int,
                    formed_count(num_formation, done),
                    num_break as int,
                    broken_count(num_break, done),
                ));
            }
        }
        done
    }

    /// For every agent and every element, the tally of what its better
    /// performing neighbours believe.
    pub fn learning_tallies(&self) -> (counts: Vec<Vec<Vec<i64>>>)
        requires
            self.wf(),
        ensures
            is_tally_of(
                counts,
                grid(&self.network.overall),
                self.performance_of@,
                cube(&self.belief_of),
                self.config.m_of_bundle as int,
                self.config.m_in_bundle as int,
            ),
    {
        all_tallies(
            &self.network.overall,
            &self.performance_of,
            &self.belief_of,
            self.config.m_of_bundle,
            self.config.m_in_bundle,
        )
    }

    /// Lets every agent flip each bit whose tally in `counts` is not zero and
    /// whose draw in `accept` holds, and scores every agent again.
    pub fn adopt(&mut self, counts: &Vec<Vec<Vec<i64>>>, accept: &Vec<Vec<Vec<bool>>>)
        requires
            old(self).wf(),
            counts@.len() == old(self).config.n,
            accept@.len() == old(self).config.n,
            forall|a: int|
                0 <= a < counts@.len() ==> tally_shape(
                    (#[trigger] counts@[a])@,
                    old(self).config.m_of_bundle as int,
                    old(self).config.m_in_bundle as int,
                ),
            forall|a: int|
                0 <= a < accept@.len() ==> has_shape(
                    #[trigger] grid(&accept@[a]),
                    old(self).config.m_of_bundle as int,
                    old(self).config.m_in_bundle as int,
                ),
        ensures
            final(self).wf(),
            final(self).network == old(self).network,
            final(self).same_setup(old(self)),
            final(self).same_switches(old(self)),
            final(self).network.same_ties(&old(self).network),
            grid(&final(self).reality) == grid(&old(self).reality),
            final(self).network_analyzer == old(self).network_analyzer,
            final(self).performance_total == old(self).performance_total,
            forall|a: int, b: int, e: int|
                0 <= a < old(self).config.n && 0 <= b < old(self).config.m_of_bundle && 0 <= e < old(
                    self,
                ).config.m_in_bundle ==> #[trigger] final(self).belief_of@[a]@[b]@[e] == (
                if counts@[a]@[b]@[e] != 0 && accept@[a]@[b]@[e] {
                    !old(self).belief_of@[a]@[b]@[e]
                } else {
                    old(self).belief_of@[a]@[b]@[e]
                }),
    {
        adopt_all(
            &mut self.belief_of,
            &mut self.performance_of,
            &self.reality,
            counts,
            accept,
            self.config.m_in_bundle,
        );
    }

    /// Lets every agent learn from its better performing neighbours: each
    /// bit whose tally is not zero is flipped with the learning probability.
    pub fn do_learning(&mut self)
        requires
            old(self).wf(),
        ensures
            final(self).wf(),
            final(self).network == old(self).network,
            final(self).same_setup(old(self)),
            final(self).same_switches(old(self)),
            final(self).network.same_ties(&old(self).network),
            grid(&final(self).reality) == grid(&old(self).reality),
            final(self).network_analyzer == old(self).network_analyzer,
            final(self).performance_total == old(self).performance_total,
            final(self).learned_from(old(self)),
            old(self).config.p_learning.numerator == 0 ==> cube(&final(self).belief_of) == cube(
                &old(self).belief_of,
            ),
            old(self).config.p_learning.numerator == old(self).config.p_learning.denominator
                ==> final(self).learned_all_from(old(self)),
    {
        let counts = self.learning_tallies();
        let accept = draw_all_acceptance(&mut self.rng, self.config.p_learning, &counts);
        let ghost bundles = self.config.m_of_bundle as int;
        let ghost elements = self.config.m_in_bundle as int;
        proof {
            assert forall|a: int| 0 <= a < accept@.len() implies has_shape(
                #[trigger] grid(&accept@[a]),
                bundles,
                elements,
            ) by {
                assert(tally_shape(counts@[a]@, bundles, elements));
                assert(accept@[a]@.len() == counts@[a]@.len());
                assert forall|b: int| 0 <= b < bundles implies (#[trigger] grid(&accept@[a])[b]).len()
                    == elements by {
                    assert(accept@[a]@[b]@.len() == counts@[a]@[b]@.len());
                }
            }
        }
        self.adopt(&counts, &accept);
        proof {
            if old(self).config.p_learning.numerator == 0 {
                let c0 = cube(&old(self).belief_of);
                let c1 = cube(&self.belief_of);
                assert forall|a: int| 0 <= a < old(self).config.n implies c0[a] =~= c1[a] by {
                    assert(has_shape(grid(&old(self).belief_of@[a]), bundles, elements));
                    assert(has_shape(grid(&self.belief_of@[a]), bundles, elements));
                    assert forall|b: int| 0 <= b < bundles implies c0[a][b] =~= c1[a][b] by {
                        assert(grid(&old(self).belief_of@[a])[b].len() == elements);
                        assert(grid(&self.belief_of@[a])[b].len() == elements);
                        assert(tally_shape(counts@[a]@, bundles, elements));
                        assert forall|e: int| 0 <= e < elements implies c0[a][b][e] == c1[a][b][e] by {
                            assert(!accept@[a]@[b]@[e]);
                            assert(self.belief_of@[a]@[b]@[e] == old(self).belief_of@[a]@[b]@[e]);
                        }
                    }
                }
                assert(c0 =~= c1);
            }
            let c0 = cube(&old(self).belief_of);
            let c1 = cube(&self.belief_of);
            assert forall|a: int, b: int, e: int|
                0 <= a < old(self).config.n && 0 <= b < bundles && 0 <= e < elements implies #[trigger] c1[a][b][e]
                == (if counts@[a]@[b]@[e] != 0 && accept@[a]@[b]@[e] {
                !c0[a][b][e]
            } else {
                c0[a][b][e]
            }) && counts@[a]@[b]@[e] == tally(
                grid(&old(self).network.overall),
                old(self).performance_of@,
                c0,
                a,
                b,
                e,
            ) && (accept@[a]@[b]@[e] ==> counts@[a]@[b]@[e] != 0) by {
                assert(has_shape(grid(&old(self).belief_of@[a]), bundles, elements));
                assert(has_shape(grid(&self.belief_of@[a]), bundles, elements));
                assert(grid(&old(self).belief_of@[a])[b].len() == elements);
                assert(grid(&self.belief_of@[a])[b].len() == elements);
                assert(tally_shape(counts@[a]@, bundles, elements));
                assert(counts@[a]@[b]@.len() == elements);
                assert(self.belief_of@[a]@[b]@[e] == (if counts@[a]@[b]@[e] != 0 && accept@[a]@[b]@[e] {
                    !old(self).belief_of@[a]@[b]@[e]
                } else {
                    old(self).belief_of@[a]@[b]@[e]
                }));
            }
            if old(self).config.p_learning.numerator == old(self).config.p_learning.denominator {
                assert forall|a: int, b: int, e: int|
                    0 <= a < old(self).config.n && 0 <= b < bundles && 0 <= e < elements implies #[trigger] c1[a][b][e]
                    == (if tally(
                    grid(&self.network.overall),
                    old(self).performance_of@,
                    c0,
                    a,
                    b,
                    e,
                ) != 0 {
                    !c0[a][b][e]
                } else {
                    c0[a][b][e]
                }) by {
                    assert(tally_shape(counts@[a]@, bundles, elements));
                    assert(counts@[a]@[b]@.len() == elements);
                    assert(accept@[a]@[b]@[e] == (counts@[a]@[b]@[e] != 0));
                }
            }
        }
    }

    /// Puts `fresh` in the place of the belief of `agent` and scores the
    /// agent again.
    pub fn replace_agent(&mut self, agent: usize, fresh: Vec<Vec<bool>>)
        requires
            old(self).wf(),
            agent < old(self).config.n,
            has_shape(
                grid(&fresh),
                old(self).config.m_of_bundle as int,
                old(self).config.m_in_bundle as int,
            ),
        ensures
            final(self).wf(),
            final(self).same_setup(old(self)),
            final(self).same_switches(old(self)),
            final(self).network.same_ties(&old(self).network),
            grid(&final(self).reality) == grid(&old(self).reality),
            final(self).network_analyzer == old(self).network_analyzer,
            final(self).performance_total == old(self).performance_total,
            final(self).belief_of@ == old(self).belief_of@.update(agent as int, fresh),
            final(self).performance_of@ == old(self).performance_of@.update(
                agent as int,
                performance(grid(&fresh), grid(&old(self).reality), old(self).config.m_in_bundle as int) as usize,
            ),
    {
        replace_belief(
            &mut self.belief_of,
            &mut self.performance_of,
            &self.reality,
            agent,
            fresh,
            self.config.m_in_bundle,
        );
    }

    /// Replaces each agent, with the turnover rate as probability, by one
    /// whose belief is fresh fair coin flips, and scores the new agents.
    /// With a rate of zero nobody is replaced.
    pub fn do_turnover(&mut self)
        requires
            old(self).wf(),
        ensures
            final(self).wf(),
            final(self).network == old(self).network,
            final(self).same_setup(old(self)),
            final(self).same_switches(old(self)),
            final(self).network.same_ties(&old(self).network),
            grid(&final(self).reality) == grid(&old(self).reality),
            final(self).network_analyzer == old(self).network_analyzer,
            final(self).performance_total == old(self).performance_total,
            old(self).turnover_rate.numerator == 0 ==> final(self).same_agents(old(self)),
    {
        turn_over(
            &mut self.belief_of,
            &mut self.performance_of,
            &self.reality,
            &mut self.rng,
            self.turnover_rate,
            self.config.m_in_bundle,
        );
    }

    /// Flips every element of reality whose draw in `flips` holds, and
    /// scores every agent again.
    pub fn shake_reality(&mut self, flips: &Vec<Vec<bool>>)
        requires
            old(self).wf(),
            has_shape(
                grid(flips),
                old(self).config.m_of_bundle as int,
                old(self).config.m_in_bundle as int,
            ),
        ensures
            final(self).wf(),
            final(self).same_setup(old(self)),
            final(self).same_switches(old(self)),
            final(self).network.same_ties(&old(self).network),
            final(self).belief_of@ == old(self).belief_of@,
            final(self).network_analyzer == old(self).network_analyzer,
            final(self).performance_total == old(self).performance_total,
            forall|b: int, e: int|
                0 <= b < old(self).config.m_of_bundle && 0 <= e < old(self).config.m_in_bundle
                    ==> #[trigger] final(self).reality@[b]@[e] == (old(self).reality@[b]@[e]
                    != flips@[b]@[e]),
    {
        let ghost bundles = self.config.m_of_bundle as int;
        let ghost elements = self.config.m_in_bundle as int;
        proof {
            assert(self.reality@.len() == bundles);
            assert(flips@.len() == bundles);
            assert forall|b: int| 0 <= b < bundles implies (#[trigger] flips@[b])@.len()
                == self.reality@[b]@.len() by {
                assert(grid(flips)[b].len() == elements);
                assert(grid(&self.reality)[b].len() == elements);
            }
        }
        flip_where(&mut self.reality, flips);
        proof {
            assert forall|b: int| 0 <= b < bundles implies (#[trigger] grid(&self.reality)[b]).len()
                == elements by {
                assert(grid(&old(self).reality)[b].len() == elements);
            }
            assert forall|b: int, e: int| 0 <= b < bundles && 0 <= e < elements implies #[trigger] self.reality@[b]@[e]
                == (old(self).reality@[b]@[e] != flips@[b]@[e]) by {
                assert(grid(&old(self).reality)[b].len() == elements);
            }
        }
        self.performance_of = score_all(&self.belief_of, &self.reality, self.config.m_in_bundle);
    }

    /// Flips each element of reality with the turbulence rate as
    /// probability, and scores every agent again. With a rate of zero
    /// reality stays as it is; with a rate of one every element flips.
    pub fn do_turbulence(&mut self)
        requires
            old(self).wf(),
        ensures
            final(self).wf(),
            final(self).same_setup(old(self)),
            final(self).same_switches(old(self)),
            final(self).network.same_ties(&old(self).network),
            final(self).belief_of@ == old(self).belief_of@,
            final(self).network_analyzer == old(self).network_analyzer,
            final(self).performance_total == old(self).performance_total,
            old(self).turbulence_rate.numerator == 0 ==> final(self).same_agents(old(self)),
            old(self).turbulence_rate.numerator == old(self).turbulence_rate.denominator
                ==> forall|b: int, e: int|
                0 <= b < old(self).config.m_of_bundle && 0 <= e < old(self).config.m_in_bundle
                    ==> #[trigger] final(self).reality@[b]@[e] == !old(self).reality@[b]@[e],
    {
        let flips = draw_flips(
            &mut self.rng,
            self.turbulence_rate,
            self.config.m_of_bundle,
            self.config.m_in_bundle,
        );
        let ghost bundles = self.config.m_of_bundle as int;
        let ghost elements = self.config.m_in_bundle as int;
        proof {
            assert forall|b: int| 0 <= b < bundles implies (#[trigger] grid(&flips)[b]).len()
                == elements by {
                assert(flips@[b]@.len() == elements);
            }
        }
        self.shake_reality(&flips);
        proof {
            if old(self).turbulence_rate.numerator == 0 {
                let r0 = grid(&old(self).reality);
                let r1 = grid(&self.reality);
                assert forall|b: int| 0 <= b < bundles implies r0[b] =~= r1[b] by {
                    assert(r0[b].len() == elements);
                    assert(r1[b].len() == elements);
                    assert forall|e: int| 0 <= e < elements implies r0[b][e] == r1[b][e] by {
                        assert(!flips@[b]@[e]);
                        assert(self.reality@[b]@[e] == (old(self).reality@[b]@[e] != flips@[b]@[e]));
                    }
                }
                assert(r0 =~= r1);
                assert(self.performance_of@ =~= old(self).performance_of@);
            }
            if old(self).turbulence_rate.numerator == old(self).turbulence_rate.denominator {
                assert forall|b: int, e: int| 0 <= b < bundles && 0 <= e < elements implies #[trigger] self.reality@[b]@[e]
                    == !old(self).reality@[b]@[e] by {
                    assert(flips@[b]@[e]);
                    assert(self.reality@[b]@[e] == (old(self).reality@[b]@[e] != flips@[b]@[e]));
                }
            }
        }
    }

    /// One step with quotas of its own: a round of rewiring that forms up
    /// to `num_formation` and breaks up to `num_break` informal ties where
    /// rewiring is switched on, then learning, then the statistics of the
    /// outcome, then turnover where its rate is not zero. Reality and the
    /// formal ties stay as they are. Where the round of rewiring could not
    /// meet a quota the step is carried out all the same, and the error
    /// says how many ties were formed and broken.
    pub fn step_forward_num_formation_break(&mut self, num_formation: usize, num_break: usize) -> (done:
        Result<(), SimulationError>)
        requires
            old(self).wf(),
        ensures
            final(self).wf(),
            final(self).same_setup(old(self)),
            final(self).same_switches(old(self)),
            final(self).network.same_frame(&old(self).network),
            grid(&final(self).reality) == grid(&old(self).reality),
            final(self).network_analyzer.describes(grid(&final(self).network.overall)),
            old(self).turnover_rate.numerator == 0 ==> final(self).outcome_is_current(),
            old(self).is_rewiring ==> rewiring_outcome(
                &old(self).network,
                &final(self).network,
                old(self).is_random_rewiring,
                old(self).social_dynamics,
                old(self).config.informal_max_num as int,
                num_formation,
                num_break,
                done,
            ),
            !old(self).is_rewiring ==> done is Ok && final(self).network.same_ties(&old(self).network),
            num_formation == 0 && num_break == 0 ==> done is Ok,
            final(self).network.formed_within(
                &old(self).network,
                old(self).config.informal_max_num as int,
            ),
            old(self).config.p_learning.numerator == 0 && old(self).turnover_rate.numerator == 0
                ==> cube(&final(self).belief_of) == cube(&old(self).belief_of),
            old(self).turnover_rate.numerator == 0 ==> final(self).learned_from(old(self)),
            old(self).turnover_rate.numerator == 0 && old(self).config.p_learning.numerator == old(
                self,
            ).config.p_learning.denominator ==> final(self).learned_all_from(old(self)),
            exists|learned: Scenario| #[trigger] final(self).is_turnover_of(&learned, old(self)),
    {
        let mut done: Result<(), SimulationError> = Ok(());
        if self.is_rewiring {
            done = self.do_rewiring(num_formation, num_break);
        }
        self.do_learning();
        self.set_outcome();
        let ghost learned = *self;
        if self.turnover_rate.numerator > 0 {
            self.do_turnover();
        }
        proof {
            assert(self.is_turnover_of(&learned, old(self)));
        }
        done
    }

    /// One step in which rewiring forms and breaks up to `tie_turnover`
    /// informal ties.
    pub fn step_forward_tie_turnover(&mut self, tie_turnover: usize) -> (done: Result<
        (),
        SimulationError,
    >)
        requires
            old(self).wf(),
        ensures
            final(self).wf(),
            final(self).same_setup(old(self)),
            final(self).same_switches(old(self)),
            final(self).network.same_frame(&old(self).network),
            grid(&final(self).reality) == grid(&old(self).reality),
            final(self).network_analyzer.describes(grid(&final(self).network.overall)),
            old(self).turnover_rate.numerator == 0 ==> final(self).outcome_is_current(),
            old(self).is_rewiring ==> rewiring_outcome(
                &old(self).network,
                &final(self).network,
                old(self).is_random_rewiring,
                old(self).social_dynamics,
                old(self).config.informal_max_num as int,
                tie_turnover,
                tie_turnover,
                done,
            ),
            !old(self).is_rewiring ==> done is Ok && final(self).network.same_ties(&old(self).network),
            tie_turnover == 0 ==> done is Ok,
            final(self).network.formed_within(
                &old(self).network,
                old(self).config.informal_max_num as int,
            ),
            old(self).config.p_learning.numerator == 0 && old(self).turnover_rate.numerator == 0
                ==> cube(&final(self).belief_of) == cube(&old(self).belief_of),
            old(self).turnover_rate.numerator == 0 ==> final(self).learned_from(old(self)),
            old(self).turnover_rate.numerator == 0 && old(self).config.p_learning.numerator == old(
                self,
            ).config.p_learning.denominator ==> final(self).learned_all_from(old(self)),
            exists|learned: Scenario| #[trigger] final(self).is_turnover_of(&learned, old(self)),
    {
        self.step_forward_num_formation_break(tie_turnover, tie_turnover)
    }

    /// One step in which rewiring forms and breaks up to the configured
    /// number of informal ties.
    pub fn step_forward(&mut self) -> (done: Result<(), SimulationError>)
        requires
            old(self).wf(),
        ensures
            final(self).wf(),
            final(self).same_setup(old(self)),
            final(self).same_switches(old(self)),
            final(self).network.same_frame(&old(self).network),
            grid(&final(self).reality) == grid(&old(self).reality),
            final(self).network_analyzer.describes(grid(&final(self).network.overall)),
            old(self).turnover_rate.numerator == 0 ==> final(self).outcome_is_current(),
            old(self).is_rewiring ==> rewiring_outcome(
                &old(self).network,
                &final(self).network,
                old(self).is_random_rewiring,
                old(self).social_dynamics,
                old(self).config.informal_max_num as int,
                old(self).config.informal_rewiring_num,
                old(self).config.informal_rewiring_num,
                done,
            ),
            !old(self).is_rewiring ==> done is Ok && final(self).network.same_ties(&old(self).network),
            old(self).config.informal_rewiring_num == 0 ==> done is Ok,
            final(self).network.formed_within(
                &old(self).network,
                old(self).config.informal_max_num as int,
            ),
            old(self).config.p_learning.numerator == 0 && old(self).turnover_rate.numerator == 0
                ==> cube(&final(self).belief_of) == cube(&old(self).belief_of),
            old(self).turnover_rate.numerator == 0 ==> final(self).learned_from(old(self)),
            old(self).turnover_rate.numerator == 0 && old(self).config.p_learning.numerator == old(
                self,
            ).config.p_learning.denominator ==> final(self).learned_all_from(old(self)),
            exists|learned: Scenario| #[trigger] final(self).is_turnover_of(&learned, old(self)),
    {
        let quota = self.config.informal_rewiring_num;
        self.step_forward_tie_turnover(quota)
    }

    /// The table of the ties of the network as text: a header, one line for
    /// every tie with its two nodes and whether it is formal, and one line
    /// for every node.
    pub fn export_network_csv(&self) -> (text: Vec<u8>)
        requires
            self.wf(),
        ensures
            exists|rows: Seq<EdgeRow>|
                is_edge_list(rows, &self.network) && text@ == #[trigger] csv_text(
                    rows,
                    self.config.n as int,
                ),
    {
        self.network.export_network_csv()
    }

    /// The same table as `export_network_csv` gives.
    pub fn print_csv(&self) -> (text: Vec<u8>)
        requires
            self.wf(),
        ensures
            exists|rows: Seq<EdgeRow>|
                is_edge_list(rows, &self.network) && text@ == #[trigger] csv_text(
                    rows,
                    self.config.n as int,
                ),
    {
        self.export_network_csv()
    }

    /// Sets the score that every node gives every node under the mechanism
    /// of this instance, and the average score that every node gives.
    pub fn set_preference_score(&mut self)
        requires
            old(self).wf(),
        ensures
            final(self).wf(),
            final(self).same_population(old(self)),
            final(self).network_analyzer == old(self).network_analyzer,
            final(self).performance_total == old(self).performance_total,
            is_preference_score(
                final(self).preference_score@,
                final(self).preference_score_avg@,
                grid(&old(self).network.overall),
                old(self).social_dynamics,
            ),
    {
        let (scores, averages) = preference_scores(&self.network, self.social_dynamics);
        self.preference_score = scores;
        self.preference_score_avg = averages;
    }

    /// Scores every agent and computes the statistics of the outcome.
    pub fn initialize_outcome(&mut self)
        requires
            old(self).wf(),
        ensures
            final(self).wf(),
            final(self).outcome_is_current(),
            final(self).same_population(old(self)),
            final(self).preference_score == old(self).preference_score,
            final(self).preference_score_avg == old(self).preference_score_avg,
    {
        self.set_performance();
        self.set_outcome();
    }
}

} // verus!
