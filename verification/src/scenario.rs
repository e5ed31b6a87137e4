use crate::agents::{copy_beliefs, lemma_score_limit, score_all, scores_match, sum_scores, total_performance};
use crate::belief::{cube, has_shape};
use crate::dyads::{all_dyads, is_dyad_list};
use crate::error::SimulationError;
use crate::hierarchy::{
    hierarchy_grid, hierarchy_levels, hierarchy_relation, lemma_level_bounds, level_mask,
    level_of_node, levels_apart,
};
use crate::initialize::{add_extra_ties, partition_ties};
use crate::learning::beliefs_shape;
use crate::network::{law_degree_consistency, lemma_empty_degrees, Network};
use crate::network_analyzer::NetworkAnalyzer;
use crate::params::{Config, Probability};
use crate::preference::{is_zero_score, zero_scores, Fraction};
use crate::random::{draw_bits, thread_source};
use crate::relation::{
    copy_counters, copy_grid, degree_of, grid, includes, is_empty_relation, linked, tie_count,
};
use rand::rngs::ThreadRng;
use vstd::prelude::*;

verus! {

/// One population: its network, the beliefs and scores of its agents, the
/// reality they are scored against, and the statistics published after each
/// step.
pub struct Scenario {
    /// The constants shared by every instance of the experiment.
    pub config: Config,
    /// The random source of this instance.
    pub rng: ThreadRng,
    /// Selects the mechanism of tie formation: zero for network closure, one
    /// for preferential attachment, anything else for none.
    pub social_dynamics: usize,
    pub is_rewiring: bool,
    pub is_random_rewiring: bool,
    pub is_network_closure: bool,
    pub is_preferential_attachment: bool,
    /// Number of children of each node of the hierarchy.
    pub span: usize,
    /// Probability with which a tie of the initial network is formal.
    pub enforcement: Probability,
    /// Probability with which turbulence flips an element of reality.
    pub turbulence_rate: Probability,
    /// Probability with which an agent is replaced after a step.
    pub turnover_rate: Probability,
    pub reality: Vec<Vec<bool>>,
    pub belief_of: Vec<Vec<Vec<bool>>>,
    pub performance_of: Vec<usize>,
    pub level_of: Vec<usize>,
    /// The number of levels below the root.
    pub level_range: usize,
    pub network: Network,
    pub network_analyzer: NetworkAnalyzer,
    /// The sum of the scores of all agents when the outcome was last set.
    pub performance_total: u64,
    /// Every dyad once, in the order of the last shuffle.
    pub iterator_dyad: Vec<(usize, usize)>,
    /// The score that every node gives every node, as last set.
    pub preference_score: Vec<Vec<Fraction>>,
    /// The average score that every node gives, as last set.
    pub preference_score_avg: Vec<Fraction>,
}

impl Scenario {
    /// Reality and every belief have the configured shape, and there is a
    /// score for every agent.
    pub open spec fn agents_shaped(&self) -> bool {
        &&& has_shape(
            grid(&self.reality),
            self.config.m_of_bundle as int,
            self.config.m_in_bundle as int,
        )
        &&& beliefs_shape(
            &self.belief_of,
            self.config.n as int,
            self.config.m_of_bundle as int,
            self.config.m_in_bundle as int,
        )
        &&& self.performance_of@.len() == self.config.n
    }

    /// Every score is that of the agent's belief against reality.
    pub open spec fn scored(&self) -> bool {
        scores_match(
            self.performance_of@,
            &self.belief_of,
            &self.reality,
            self.config.m_in_bundle as int,
        )
    }

    /// Every node has the level that its place in the hierarchy gives it.
    pub open spec fn levels_wf(&self) -> bool {
        &&& self.level_of@.len() == self.config.n
        &&& forall|v: int|
            0 <= v < self.config.n ==> #[trigger] self.level_of@[v] == level_of_node(v, self.span as int)
        &&& self.level_range == level_of_node(self.config.n - 1, self.span as int) - 1
    }

    /// With level limiting the forbidden pairs are those more than one level
    /// apart; without it no pair is forbidden.
    pub open spec fn mask_wf(&self) -> bool {
        if self.config.limit_level {
            forall|u: int, v: int|
                #[trigger] linked(grid(&self.network.limited), u, v) == (0 <= u < self.config.n && 0 <= v
                    < self.config.n && levels_apart(self.level_of@[u] as int, self.level_of@[v] as int))
        } else {
            is_empty_relation(grid(&self.network.limited))
        }
    }

    /// Every part but the scores is well formed and belongs to the same
    /// population: the parameters, the network with its mask, reality and
    /// the beliefs, the levels, the tables of the analyzer and the list of
    /// dyads. The scores may be out of date.
    pub open spec fn shaped(&self) -> bool {
        &&& self.config.wf()
        &&& self.span >= 1
        &&& self.enforcement.wf()
        &&& self.turbulence_rate.wf()
        &&& self.turnover_rate.wf()
        &&& self.is_network_closure == (self.social_dynamics == 0)
        &&& self.is_preferential_attachment == (self.social_dynamics == 1)
        &&& self.network.wf()
        &&& self.network.n == self.config.n
        &&& self.agents_shaped()
        &&& self.levels_wf()
        &&& self.mask_wf()
        &&& self.network_analyzer.wf()
        &&& self.network_analyzer.n == self.config.n
        &&& is_dyad_list(self.iterator_dyad@, self.config.n as int)
    }

    /// Every part is well formed and belongs to the same population, and
    /// every score is that of the agent's belief against reality.
    pub open spec fn wf(&self) -> bool {
        self.shaped() && self.scored()
    }

    /// The published statistics are those of the present network and the
    /// present scores.
    pub open spec fn outcome_is_current(&self) -> bool {
        &&& self.network_analyzer.describes(grid(&self.network.overall))
        &&& self.performance_total == total_performance(self.performance_of@)
    }

    /// The same parameters and the same hierarchy.
    pub open spec fn same_setup(&self, other: &Scenario) -> bool {
        &&& self.config == other.config
        &&& self.social_dynamics == other.social_dynamics
        &&& self.is_network_closure == other.is_network_closure
        &&& self.is_preferential_attachment == other.is_preferential_attachment
        &&& self.span == other.span
        &&& self.enforcement == other.enforcement
        &&& self.turbulence_rate == other.turbulence_rate
        &&& self.turnover_rate == other.turnover_rate
        &&& self.level_of@ == other.level_of@
        &&& self.level_range == other.level_range
    }

    /// The same reality, the same beliefs and the same scores.
    pub open spec fn same_agents(&self, other: &Scenario) -> bool {
        &&& grid(&self.reality) == grid(&other.reality)
        &&& cube(&self.belief_of) == cube(&other.belief_of)
        &&& self.performance_of@ == other.performance_of@
    }

    /// The same rewiring switches.
    pub open spec fn same_switches(&self, other: &Scenario) -> bool {
        self.is_rewiring == other.is_rewiring && self.is_random_rewiring == other.is_random_rewiring
    }
}

/// Neither the cap nor the number of pairs stands in the way of the extra
/// ties that `config` asks for: the cap is at least `n - 1`, and the
/// hierarchy leaves at least that many pairs untied.
pub open spec fn extras_fit(config: &Config, span: usize) -> bool {
    &&& config.informal_max_num >= config.n - 1
    &&& 2 * (config.num_addition + tie_count(
        hierarchy_grid(config.n as int, span as int, config.link_level),
    )) <= config.n * (config.n - 1)
}

/// Every tie is formal, the cap lets every node have an informal tie, and
/// the hierarchy leaves at least as many pairs untied as `config` asks extra
/// ties for. Then no informal tie ever counts against the cap, so the extra
/// ties stop short only where the pairs run out.
pub open spec fn formal_extras_fit(config: &Config, span: usize, enforcement: Probability) -> bool {
    &&& enforcement.numerator == enforcement.denominator
    &&& config.informal_max_num >= 1
    &&& 2 * (config.num_addition + tie_count(
        hierarchy_grid(config.n as int, span as int, config.link_level),
    )) <= config.n * (config.n - 1)
}

/// `net` is the hierarchy with `formed` extra ties, has no forbidden pair
/// yet, and takes no more ties.
pub open spec fn is_exhausted(net: &Network, config: &Config, span: usize, formed: int) -> bool {
    &&& net.wf()
    &&& net.n == config.n
    &&& is_empty_relation(grid(&net.limited))
    &&& includes(
        grid(&net.overall),
        hierarchy_grid(config.n as int, span as int, config.link_level),
    )
    &&& tie_count(grid(&net.overall)) == tie_count(
        hierarchy_grid(config.n as int, span as int, config.link_level),
    ) + formed
    &&& net.is_saturated(config.informal_max_num as int)
}

/// The extra ties stopped at `formed` because the network took no more.
pub open spec fn extras_exhausted(config: &Config, span: usize, formed: int) -> bool {
    exists|net: Network| #[trigger] is_exhausted(&net, config, span, formed)
}

/// No node has more informal ties than the cap, unless it has no more than
/// the hierarchy gave it ties.
pub open spec fn gains_within_cap(net: &Network, config: &Config, span: usize) -> bool {
    forall|v: int|
        0 <= v < config.n ==> #[trigger] degree_of(grid(&net.informal), v)
            <= config.informal_max_num || degree_of(grid(&net.informal), v) <= degree_of(
            hierarchy_grid(config.n as int, span as int, config.link_level),
            v,
        )
}

/// `n` beliefs of `bundles` by `elements` fair coin flips each.
fn draw_beliefs(rng: &mut ThreadRng, n: usize, bundles: usize, elements: usize) -> (beliefs: Vec<
    Vec<Vec<bool>>,
>)
    ensures
        beliefs_shape(&beliefs, n as int, bundles as int, elements as int),
{
    let mut beliefs: Vec<Vec<Vec<bool>>> = Vec::new();
    let mut a: usize = 0;
    while a < n
        invariant
            a <= n,
            beliefs@.len() == a,
            forall|x: int|
                0 <= x < a ==> has_shape(#[trigger] grid(&beliefs@[x]), bundles as int, elements as int),
        decreases n - a,
    {
        let one = draw_bits(rng, bundles, elements);
        assert(has_shape(grid(&one), bundles as int, elements as int)) by {
            assert forall|b: int| 0 <= b < bundles implies (#[trigger] grid(&one)[b]).len() == elements by {
                assert(one@[b]@.len() == elements);
            }
        }
        beliefs.push(one);
        a += 1;
    }
    beliefs
}

impl Scenario {
    /// The initial network: the hierarchy of `config.n` nodes with `span`
    /// children each, every tie formal with probability `enforcement`, then
    /// `config.num_addition` extra ties on dyads in random order, then the
    /// mask of forbidden pairs. Returned with the level of every node and
    /// the list of dyads. Where fewer extra ties can be placed than asked
    /// for, the error says how many were.
    pub fn initialize_network(config: &Config, span: usize, enforcement: Probability, rng: &mut ThreadRng) -> (made:
        Result<(Network, Vec<usize>, Vec<(usize, usize)>), SimulationError>)
        requires
            config.wf(),
            span >= 1,
            enforcement.wf(),
        ensures
            config.num_addition == 0 ==> made is Ok,
            extras_fit(config, span) ==> made is Ok,
            formal_extras_fit(config, span, enforcement) ==> made is Ok,
            made matches Ok(parts) ==> {
                &&& parts.0.wf()
                &&& parts.0.n == config.n
                &&& gains_within_cap(&parts.0, config, span)
                &&& parts.1@.len() == config.n
                &&& (forall|v: int|
                    0 <= v < config.n ==> #[trigger] parts.1@[v] == level_of_node(v, span as int))
                &&& is_dyad_list(parts.2@, config.n as int)
                &&& includes(
                    grid(&parts.0.overall),
                    hierarchy_grid(config.n as int, span as int, config.link_level),
                )
                &&& tie_count(grid(&parts.0.overall)) == tie_count(
                    hierarchy_grid(config.n as int, span as int, config.link_level),
                ) + config.num_addition
                &&& (config.num_addition == 0 ==> grid(&parts.0.overall) == hierarchy_grid(
                    config.n as int,
                    span as int,
                    config.link_level,
                ))
                &&& (enforcement.numerator == 0 ==> is_empty_relation(grid(&parts.0.formal)))
                &&& (enforcement.numerator == enforcement.denominator ==> is_empty_relation(
                    grid(&parts.0.informal),
                ))
                &&& (if config.limit_level {
                    forall|u: int, v: int|
                        #[trigger] linked(grid(&parts.0.limited), u, v) == (0 <= u < config.n && 0 <= v
                            < config.n && levels_apart(parts.1@[u] as int, parts.1@[v] as int))
                } else {
                    is_empty_relation(grid(&parts.0.limited))
                })
            },
            made matches Err(e) ==> e matches SimulationError::NoEligibleCandidates { formed, broken }
                && formed < config.num_addition && broken == 0 && extras_exhausted(
                config,
                span,
                formed as int,
            ),
    {
        let n = config.n;
        let level_of = hierarchy_levels(n, span);
        let skeleton = hierarchy_relation(n, span, config.link_level);
        let mut network = partition_ties(&skeleton, enforcement, rng);
        let mut iterator_dyad = all_dyads(n);
        let ghost parted = network;
        proof {
            assert forall|v: int| 0 <= v < n implies #[trigger] degree_of(grid(&parted.informal), v)
                <= degree_of(grid(&parted.overall), v) by {
                law_degree_consistency(&parted, v);
            }
            if formal_extras_fit(config, span, enforcement) {
                assert forall|v: int| 0 <= v < n implies #[trigger] degree_of(
                    grid(&parted.informal),
                    v,
                ) < config.informal_max_num by {
                    lemma_empty_degrees(grid(&parted.informal), n as int, v);
                }
            }
        }
        let added = add_extra_ties(
            &mut network,
            &mut iterator_dyad,
            rng,
            enforcement,
            config.informal_max_num,
            config.num_addition,
        );
        if added < config.num_addition {
            assert(is_exhausted(&network, config, span, added as int));
            return Err(SimulationError::NoEligibleCandidates { formed: added, broken: 0 });
        }
        if config.limit_level {
            network.limited = level_mask(&level_of);
        }
        Ok((network, level_of, iterator_dyad))
    }

    /// Reality and the belief of every agent, all fair coin flips.
    pub fn initialize_entity(config: &Config, rng: &mut ThreadRng) -> (drawn: (
        Vec<Vec<bool>>,
        Vec<Vec<Vec<bool>>>,
    ))
        ensures
            has_shape(grid(&drawn.0), config.m_of_bundle as int, config.m_in_bundle as int),
            beliefs_shape(
                &drawn.1,
                config.n as int,
                config.m_of_bundle as int,
                config.m_in_bundle as int,
            ),
    {
        let reality = draw_bits(rng, config.m_of_bundle, config.m_in_bundle);
        assert(has_shape(grid(&reality), config.m_of_bundle as int, config.m_in_bundle as int)) by {
            assert forall|b: int| 0 <= b < config.m_of_bundle implies (#[trigger] grid(&reality)[b]).len()
                == config.m_in_bundle by {
                assert(reality@[b]@.len() == config.m_in_bundle);
            }
        }
        let belief_of = draw_beliefs(rng, config.n, config.m_of_bundle, config.m_in_bundle);
        (reality, belief_of)
    }

    /// A population in its initial state. The network is the hierarchy of
    /// `config.n` nodes with `span` children each and `config.num_addition`
    /// extra ties; each tie is formal with probability `enforcement`.
    /// Reality and beliefs are fair coin flips. Where fewer extra ties can
    /// be placed than asked for, the error says how many were.
    pub fn new(
        config: Config,
        social_dynamics: usize,
        span: usize,
        enforcement: Probability,
        turbulence_rate: Probability,
        turnover_rate: Probability,
    ) -> (made: Result<Scenario, SimulationError>)
        requires
            config.wf(),
            span >= 1,
            enforcement.wf(),
            turbulence_rate.wf(),
            turnover_rate.wf(),
        ensures
            config.num_addition == 0 ==> made is Ok,
            extras_fit(&config, span) ==> made is Ok,
            formal_extras_fit(&config, span, enforcement) ==> made is Ok,
            made matches Ok(s) ==> {
                &&& s.wf()
                &&& s.outcome_is_current()
                &&& gains_within_cap(&s.network, &config, span)
                &&& s.config == config
                &&& s.social_dynamics == social_dynamics
                &&& s.span == span
                &&& s.enforcement == enforcement
                &&& s.turbulence_rate == turbulence_rate
                &&& s.turnover_rate == turnover_rate
                &&& s.is_rewiring
                &&& !s.is_random_rewiring
                &&& is_zero_score(s.preference_score@, s.preference_score_avg@, config.n as int)
                &&& includes(
                    grid(&s.network.overall),
                    hierarchy_grid(config.n as int, span as int, config.link_level),
                )
                &&& tie_count(grid(&s.network.overall)) == tie_count(
                    hierarchy_grid(config.n as int, span as int, config.link_level),
                ) + config.num_addition
                &&& (config.num_addition == 0 ==> grid(&s.network.overall) == hierarchy_grid(
                    config.n as int,
                    span as int,
                    config.link_level,
                ))
                &&& (enforcement.numerator == 0 ==> is_empty_relation(grid(&s.network.formal)))
                &&& (enforcement.numerator == enforcement.denominator ==> is_empty_relation(
                    grid(&s.network.informal),
                ))
            },
            made matches Err(e) ==> e matches SimulationError::NoEligibleCandidates { formed, broken }
                && formed < config.num_addition && broken == 0 && extras_exhausted(
                &config,
                span,
                formed as int,
            ),
    {
        let n = config.n;
        let mut rng = thread_source();
        let (network, level_of, iterator_dyad) = match Scenario::initialize_network(
            &config,
            span,
            enforcement,
            &mut rng,
        ) {
            Ok(parts) => parts,
            Err(e) => {
                return Err(e);
            },
        };
        let (reality, belief_of) = Scenario::initialize_entity(&config, &mut rng);
        let performance_of = score_all(&belief_of, &reality, config.m_in_bundle);
        proof {
            lemma_level_bounds(n - 1, span as int);
        }
        let level_range = level_of[n - 1] - 1;
        let (preference_score, preference_score_avg) = zero_scores(n);
        let mut s = Scenario {
            config,
            rng,
            social_dynamics,
            is_rewiring: true,
            is_random_rewiring: false,
            is_network_closure: social_dynamics == 0,
            is_preferential_attachment: social_dynamics == 1,
            span,
            enforcement,
            turbulence_rate,
            turnover_rate,
            reality,
            belief_of,
            performance_of,
            level_of,
            level_range,
            network,
            network_analyzer: NetworkAnalyzer::new(n),
            performance_total: 0,
            iterator_dyad,
            preference_score,
            preference_score_avg,
        };
        s.initialize_outcome();
        Ok(s)
    }

    /// An independent copy with a random source of its own: the same
    /// parameters, hierarchy, network, reality, beliefs and scores. The copy
    /// has directed rewiring switched on, whatever this instance has, and
    /// its statistics are freshly computed.
    pub fn get_clone(&self) -> (copy: Scenario)
        requires
            self.wf(),
        ensures
            copy.wf(),
            copy.same_setup(self),
            copy.same_agents(self),
            copy.network.same_ties(&self.network),
            copy.is_rewiring,
            !copy.is_random_rewiring,
            copy.outcome_is_current(),
            is_zero_score(copy.preference_score@, copy.preference_score_avg@, self.config.n as int),
    {
        let n = self.config.n;
        let network = self.network.duplicate();
        let reality = copy_grid(&self.reality);
        let belief_of = copy_beliefs(&self.belief_of);
        let performance_of = copy_counters(&self.performance_of);
        let level_of = copy_counters(&self.level_of);
        proof {
            assert forall|a: int| 0 <= a < performance_of@.len() implies #[trigger] performance_of@[a]
                <= 4294967295 by {
                crate::belief::law_performance_bound(
                    grid(&self.belief_of@[a]),
                    grid(&self.reality),
                    self.config.m_of_bundle as int,
                    self.config.m_in_bundle as int,
                );
                lemma_score_limit(
                    performance_of@[a] as int,
                    self.config.m_of_bundle as int,
                    self.config.m_in_bundle as int,
                );
            }
        }
        let performance_total = sum_scores(&performance_of);
        let mut network_analyzer = NetworkAnalyzer::new(n);
        let measured = network_analyzer.set_network_metrics(&network.overall);
        assert(measured is Ok);
        let (preference_score, preference_score_avg) = zero_scores(n);
        Scenario {
            config: self.config,
            rng: thread_source(),
            social_dynamics: self.social_dynamics,
            is_rewiring: true,
            is_random_rewiring: false,
            is_network_closure: self.is_network_closure,
            is_preferential_attachment: self.is_preferential_attachment,
            span: self.span,
            enforcement: self.enforcement,
            turbulence_rate: self.turbulence_rate,
            turnover_rate: self.turnover_rate,
            reality,
            belief_of,
            performance_of,
            level_of,
            level_range: self.level_range,
            network,
            network_analyzer,
            performance_total,
            iterator_dyad: all_dyads(n),
            preference_score,
            preference_score_avg,
        }
    }

    /// A copy as `get_clone` makes it, with the two rewiring switches set.
    pub fn get_clone_with_params(&self, is_rewiring: bool, is_random_rewiring: bool) -> (copy:
        Scenario)
        requires
            self.wf(),
        ensures
            copy.wf(),
            copy.same_setup(self),
            copy.same_agents(self),
            copy.network.same_ties(&self.network),
            copy.is_rewiring == is_rewiring,
            copy.is_random_rewiring == is_random_rewiring,
            copy.outcome_is_current(),
            is_zero_score(copy.preference_score@, copy.preference_score_avg@, self.config.n as int),
    {
        let mut copy = self.get_clone();
        copy.set_network_params(is_rewiring, is_random_rewiring);
        copy
    }

    /// Sets whether steps rewire the network, and whether they do so at
    /// random rather than by the mechanism.
    pub fn set_network_params(&mut self, is_rewiring: bool, is_random_rewiring: bool)
        ensures
            *final(self) == (Scenario { is_rewiring, is_random_rewiring, ..*old(self) }),
    {
        self.is_rewiring = is_rewiring;
        self.is_random_rewiring = is_random_rewiring;
    }
}

} // verus!
