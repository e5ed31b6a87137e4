use fdfirst::belief::{add_votes, adopt_where, flip_where, rows_equal, score, zero_tally};
use fdfirst::dyads::all_dyads;
use fdfirst::error::SimulationError;
use fdfirst::hierarchy::hierarchy_relation;
use fdfirst::initialize::{add_extra_ties, partition_ties, place_extra_ties};
use fdfirst::learning::{all_tallies, tally_for};
use fdfirst::network::Network;
use fdfirst::params::{Config, Probability};
use fdfirst::rewiring::{
    break_chosen_tie, break_ties, form_chosen_tie, form_ties, random_rewire, rewire_pass, Rewired,
};
use fdfirst::scenario::Scenario;
use fdfirst::weights::{breaking_weights, breaking_wheel, eligibility_wheel, formation_wheel, informal_wheel};

fn ratio(numerator: u32, denominator: u32) -> Probability {
    Probability::new(numerator, denominator).unwrap()
}

fn config(n: usize) -> Config {
    Config {
        n,
        m_of_bundle: 6,
        m_in_bundle: 3,
        informal_max_num: 5,
        informal_rewiring_num: 4,
        num_addition: 0,
        link_level: false,
        limit_level: false,
        p_learning: ratio(1, 5),
    }
}

fn count_ties(m: &Vec<Vec<bool>>) -> usize {
    let mut count = 0;
    for i in 0..m.len() {
        for j in (i + 1)..m.len() {
            if m[i][j] {
                count += 1;
            }
        }
    }
    count
}

fn assert_consistent(net: &Network) {
    let n = net.n;
    for i in 0..n {
        assert!(!net.overall[i][i]);
        let mut all = 0;
        let mut formal = 0;
        let mut informal = 0;
        for j in 0..n {
            assert_eq!(net.overall[i][j], net.overall[j][i]);
            assert_eq!(net.formal[i][j], net.formal[j][i]);
            assert_eq!(net.informal[i][j], net.informal[j][i]);
            assert_eq!(net.overall[i][j], net.formal[i][j] || net.informal[i][j]);
            assert!(!(net.formal[i][j] && net.informal[i][j]));
            all += net.overall[i][j] as usize;
            formal += net.formal[i][j] as usize;
            informal += net.informal[i][j] as usize;
        }
        assert_eq!(net.degree[i], all);
        assert_eq!(net.degree_formal[i], formal);
        assert_eq!(net.degree_informal[i], informal);
        assert_eq!(net.degree[i], net.degree_formal[i] + net.degree_informal[i]);
    }
}

fn assert_scored(s: &Scenario) {
    for a in 0..s.config.n {
        let mut matched = 0;
        for b in 0..s.config.m_of_bundle {
            if s.belief_of[a][b] == s.reality[b] {
                matched += 1;
            }
        }
        assert_eq!(s.performance_of[a], matched * s.config.m_in_bundle);
        assert_eq!(s.get_performance_of(a), s.performance_of[a]);
        assert!(s.performance_of[a] <= s.config.m_of_bundle * s.config.m_in_bundle);
    }
}

#[test]
fn new_scenario_holds_the_hierarchy() {
    let s = Scenario::new(config(30), 0, 3, ratio(1, 2), ratio(0, 1), ratio(0, 1)).unwrap();
    assert_eq!(s.network.overall, hierarchy_relation(30, 3, false));
    assert_eq!(count_ties(&s.network.overall), 29);
    assert_consistent(&s.network);
    assert_scored(&s);
    assert!(s.is_rewiring && !s.is_random_rewiring);
    assert!(s.is_network_closure && !s.is_preferential_attachment);
    assert_eq!(s.level_of[0], 1);
    assert_eq!(s.level_of[4], 3);
    assert_eq!(s.level_range, 3);
    assert_eq!(s.reality.len(), 6);
    assert_eq!(s.belief_of.len(), 30);
    assert_eq!(s.belief_of[7][5].len(), 3);
    assert_eq!(s.iterator_dyad.len(), 435);
    assert_eq!(s.performance_total, s.performance_of.iter().sum::<usize>() as u64);
    assert_eq!(s.network_analyzer.degree, s.network.degree);
    assert_eq!(count_ties(&s.network.limited), 0);
}

#[test]
fn enforcement_decides_the_kind_of_tie() {
    let all = Scenario::new(config(20), 1, 2, ratio(1, 1), ratio(0, 1), ratio(0, 1)).unwrap();
    assert_eq!(all.network.formal, all.network.overall);
    assert_eq!(count_ties(&all.network.informal), 0);
    assert!(!all.is_network_closure && all.is_preferential_attachment);
    let none = Scenario::new(config(20), 2, 2, ratio(0, 1), ratio(0, 1), ratio(0, 1)).unwrap();
    assert_eq!(none.network.informal, none.network.overall);
    assert_eq!(count_ties(&none.network.formal), 0);
    assert!(!none.is_network_closure && !none.is_preferential_attachment);
}

#[test]
fn extra_ties_and_level_mask() {
    let mut c = config(40);
    c.num_addition = 15;
    c.limit_level = true;
    c.link_level = true;
    let s = Scenario::new(c, 0, 3, ratio(4, 5), ratio(0, 1), ratio(0, 1)).unwrap();
    let skeleton = hierarchy_relation(40, 3, true);
    assert_eq!(count_ties(&s.network.overall), count_ties(&skeleton) + 15);
    for i in 0..40 {
        for j in 0..40 {
            assert!(!skeleton[i][j] || s.network.overall[i][j]);
            let apart = s.level_of[i].abs_diff(s.level_of[j]) > 1;
            assert_eq!(s.network.limited[i][j], apart);
        }
    }
    assert_consistent(&s.network);
}

#[test]
fn extra_ties_beyond_capacity_are_reported() {
    let mut c = config(4);
    c.num_addition = 50;
    c.informal_max_num = 10;
    let made = Scenario::new(c, 0, 2, ratio(1, 2), ratio(0, 1), ratio(0, 1));
    match made {
        Err(SimulationError::NoEligibleCandidates { formed, broken }) => {
            assert_eq!(formed, 3);
            assert_eq!(broken, 0);
        }
        _ => panic!("fifty extra ties cannot be placed among four nodes"),
    }
}

#[test]
fn clones_are_identical_before_stepping() {
    let mut s = Scenario::new(config(25), 0, 4, ratio(1, 2), ratio(1, 10), ratio(1, 10)).unwrap();
    s.set_network_params(true, true);
    let a = s.get_clone();
    let b = s.get_clone_with_params(false, true);
    for c in [&a, &b] {
        assert_eq!(c.reality, s.reality);
        assert_eq!(c.belief_of, s.belief_of);
        assert_eq!(c.performance_of, s.performance_of);
        assert_eq!(c.level_of, s.level_of);
        assert_eq!(c.network.overall, s.network.overall);
        assert_eq!(c.network.formal, s.network.formal);
        assert_eq!(c.network.informal, s.network.informal);
        assert_eq!(c.network.limited, s.network.limited);
        assert_eq!(c.network.degree, s.network.degree);
        assert_eq!(c.performance_total, s.performance_total);
        assert_eq!(c.network_analyzer.shortest_path, s.network_analyzer.shortest_path);
        assert_eq!(c.network_analyzer.distance_total, s.network_analyzer.distance_total);
        assert_eq!(c.social_dynamics, s.social_dynamics);
        assert_eq!(c.span, s.span);
    }
    assert!(a.is_rewiring && !a.is_random_rewiring);
    assert!(!b.is_rewiring && b.is_random_rewiring);
}

#[test]
fn clones_are_independent() {
    let s = Scenario::new(config(25), 0, 4, ratio(0, 1), ratio(1, 1), ratio(0, 1)).unwrap();
    let mut c = s.get_clone();
    c.do_turbulence();
    assert_eq!(c.do_rewiring(3, 0), Ok(()));
    assert_ne!(c.reality, s.reality);
    assert_ne!(c.network.overall, s.network.overall);
    assert_eq!(s.network.overall, hierarchy_relation(25, 4, false));
}

#[test]
fn turbulence_at_rate_zero_and_one() {
    let mut calm = Scenario::new(config(10), 0, 2, ratio(1, 2), ratio(0, 1), ratio(0, 1)).unwrap();
    let reality = calm.reality.clone();
    let scores = calm.performance_of.clone();
    for _ in 0..20 {
        calm.do_turbulence();
        let _ = calm.step_forward();
        assert_eq!(calm.reality, reality);
    }
    calm.do_turbulence();
    assert_eq!(calm.reality, reality);
    let mut wild = Scenario::new(config(10), 0, 2, ratio(1, 2), ratio(1, 1), ratio(0, 1)).unwrap();
    let before = wild.reality.clone();
    let beliefs = wild.belief_of.clone();
    wild.do_turbulence();
    for b in 0..6 {
        for e in 0..3 {
            assert_eq!(wild.reality[b][e], !before[b][e]);
        }
    }
    assert_eq!(wild.belief_of, beliefs);
    assert_scored(&wild);
    wild.do_turbulence();
    assert_eq!(wild.reality, before);
    assert_eq!(scores.len(), 10);
}

#[test]
fn shaking_reality_flips_the_chosen_elements() {
    let mut s = Scenario::new(config(5), 0, 2, ratio(1, 2), ratio(1, 2), ratio(0, 1)).unwrap();
    let before = s.reality.clone();
    let mut flips = vec![vec![false; 3]; 6];
    flips[0][1] = true;
    flips[5][2] = true;
    s.shake_reality(&flips);
    for b in 0..6 {
        for e in 0..3 {
            assert_eq!(s.reality[b][e], before[b][e] != flips[b][e]);
        }
    }
    assert_scored(&s);
}

#[test]
fn turnover_at_rate_zero_and_one() {
    let mut s = Scenario::new(config(12), 0, 2, ratio(1, 2), ratio(0, 1), ratio(0, 1)).unwrap();
    let beliefs = s.belief_of.clone();
    s.do_turnover();
    assert_eq!(s.belief_of, beliefs);
    let mut c = config(200);
    c.m_of_bundle = 10;
    c.m_in_bundle = 10;
    let mut t = Scenario::new(c, 0, 2, ratio(1, 2), ratio(0, 1), ratio(1, 1)).unwrap();
    let old = t.belief_of.clone();
    let reality = t.reality.clone();
    let ties = t.network.overall.clone();
    t.do_turnover();
    // Two hundred fresh beliefs of a hundred bits each cannot all repeat.
    assert_ne!(t.belief_of, old);
    assert_eq!(t.reality, reality);
    assert_eq!(t.network.overall, ties);
    assert_scored(&t);
}

#[test]
fn replacing_one_agent() {
    let mut s = Scenario::new(config(5), 0, 2, ratio(1, 2), ratio(0, 1), ratio(0, 1)).unwrap();
    let old = s.belief_of.clone();
    let fresh = s.reality.clone();
    s.replace_agent(3, fresh);
    assert_eq!(s.belief_of[3], s.reality);
    assert_eq!(s.performance_of[3], 18);
    for a in [0, 1, 2, 4] {
        assert_eq!(s.belief_of[a], old[a]);
    }
    assert_scored(&s);
}

#[test]
fn score_counts_whole_bundles() {
    let reality = vec![vec![true, false], vec![false, false], vec![true, true]];
    assert_eq!(score(&reality.clone(), &reality, 2), 6);
    let mut belief = reality.clone();
    belief[1][0] = true;
    assert_eq!(score(&belief, &reality, 2), 4);
    belief[1][1] = true;
    assert_eq!(score(&belief, &reality, 2), 4);
    belief[0][1] = true;
    belief[2][0] = false;
    assert_eq!(score(&belief, &reality, 2), 0);
    let empty: Vec<Vec<bool>> = Vec::new();
    assert_eq!(score(&empty, &empty, 2), 0);
    assert!(rows_equal(&vec![true, false], &vec![true, false]));
    assert!(!rows_equal(&vec![true, false], &vec![true, true]));
    assert!(rows_equal(&vec![], &vec![]));
}

#[test]
fn votes_and_adoption() {
    let own = vec![vec![true, false, true], vec![false, false, true]];
    let other = vec![vec![false, false, false], vec![true, false, true]];
    let mut tally = zero_tally(2, 3);
    assert_eq!(tally, vec![vec![0, 0, 0], vec![0, 0, 0]]);
    add_votes(&mut tally, &own, &other);
    assert_eq!(tally, vec![vec![-1, 0, -1], vec![1, 0, 0]]);
    add_votes(&mut tally, &own, &other);
    assert_eq!(tally, vec![vec![-2, 0, -2], vec![2, 0, 0]]);
    let accept = vec![vec![true, true, false], vec![true, true, true]];
    let mut learner = own.clone();
    adopt_where(&mut learner, &tally, &accept);
    assert_eq!(learner, vec![vec![false, false, true], vec![true, false, true]]);
    let mut bits = own.clone();
    flip_where(&mut bits, &accept);
    assert_eq!(bits, vec![vec![false, true, true], vec![true, true, false]]);
}

#[test]
fn tallies_count_better_neighbours_that_differ() {
    let network = hierarchy_relation(4, 3, false);
    let beliefs = vec![
        vec![vec![true, true]],
        vec![vec![false, true]],
        vec![vec![true, false]],
        vec![vec![false, false]],
    ];
    let performance = vec![0, 2, 2, 2];
    let t = tally_for(&network, &performance, &beliefs, 0, 1, 2);
    assert_eq!(t, vec![vec![-2, -2]]);
    let none = tally_for(&network, &performance, &beliefs, 1, 1, 2);
    assert_eq!(none, vec![vec![0, 0]]);
    let reversed = vec![4, 2, 2, 2];
    let all = all_tallies(&network, &reversed, &beliefs, 1, 2);
    assert_eq!(all, vec![vec![vec![0, 0]], vec![vec![1, 0]], vec![vec![0, 1]], vec![vec![1, 1]]]);
    let level = vec![2, 2, 2, 2];
    assert_eq!(all_tallies(&network, &level, &beliefs, 1, 2), vec![vec![vec![0, 0]]; 4]);
}

#[test]
fn learning_changes_only_elements_with_a_tally() {
    for p in [ratio(0, 1), ratio(1, 5), ratio(1, 1)] {
        let mut c = config(30);
        c.p_learning = p;
        let mut s = Scenario::new(c, 0, 3, ratio(1, 2), ratio(0, 1), ratio(0, 1)).unwrap();
        let before = s.belief_of.clone();
        let counts = s.learning_tallies();
        let ties = s.network.overall.clone();
        s.do_learning();
        for a in 0..30 {
            for b in 0..6 {
                for e in 0..3 {
                    let tally = counts[a][b][e];
                    if p.numerator == 0 || tally == 0 {
                        assert_eq!(s.belief_of[a][b][e], before[a][b][e]);
                    }
                    if p.numerator == 1 && p.denominator == 1 && tally != 0 {
                        assert_eq!(s.belief_of[a][b][e], !before[a][b][e]);
                    }
                    if tally > 0 {
                        assert!(!before[a][b][e]);
                    }
                    if tally < 0 {
                        assert!(before[a][b][e]);
                    }
                }
            }
        }
        assert_eq!(s.network.overall, ties);
        assert_scored(&s);
    }
}

#[test]
fn adopting_with_chosen_draws() {
    let mut s = Scenario::new(config(8), 0, 2, ratio(1, 2), ratio(0, 1), ratio(0, 1)).unwrap();
    let before = s.belief_of.clone();
    let counts = s.learning_tallies();
    let mut accept = vec![vec![vec![false; 3]; 6]; 8];
    for a in 0..8 {
        for b in 0..6 {
            accept[a][b][1] = true;
        }
    }
    s.adopt(&counts, &accept);
    for a in 0..8 {
        for b in 0..6 {
            for e in 0..3 {
                let flipped = e == 1 && counts[a][b][e] != 0;
                assert_eq!(s.belief_of[a][b][e], before[a][b][e] != flipped);
            }
        }
    }
    assert_scored(&s);
}

#[test]
fn rewiring_conserves_the_ties() {
    for mechanism in [0, 1, 2] {
        for random in [false, true] {
            let mut s = Scenario::new(config(40), mechanism, 3, ratio(1, 2), ratio(0, 1), ratio(0, 1)).unwrap();
            s.set_network_params(true, random);
            let formal = s.network.formal.clone();
            assert_eq!(s.do_rewiring(20, 0), Ok(()));
            let informal = count_ties(&s.network.informal);
            for _ in 0..10 {
                assert_eq!(s.step_forward(), Ok(()));
                assert_eq!(count_ties(&s.network.informal), informal);
                assert_eq!(s.network.formal, formal);
                assert_consistent(&s.network);
                assert_scored(&s);
                assert_eq!(s.network_analyzer.degree, s.network.degree);
                assert_eq!(s.performance_total, s.performance_of.iter().sum::<usize>() as u64);
            }
            assert_eq!(s.do_rewiring(3, 7), Ok(()));
            assert_eq!(count_ties(&s.network.informal), informal - 4);
            assert_eq!(s.network.formal, formal);
        }
    }
}

#[test]
fn formation_respects_the_cap() {
    let mut c = config(12);
    c.informal_max_num = 2;
    let mut s = Scenario::new(c, 0, 3, ratio(1, 1), ratio(0, 1), ratio(0, 1)).unwrap();
    let formed = s.do_tie_formation(100);
    assert!(formed < 100);
    assert!(formed <= 12);
    assert_eq!(count_ties(&s.network.informal), formed);
    for i in 0..12 {
        assert!(s.network.degree_informal[i] <= 2);
        for j in 0..12 {
            assert!(!s.network.is_eligible(2, i, j));
        }
    }
    assert_consistent(&s.network);
    assert_eq!(
        s.do_rewiring(5, 0),
        Err(SimulationError::NoEligibleCandidates { formed: 0, broken: 0 })
    );
}

#[test]
fn breaking_stops_when_no_informal_tie_is_left() {
    let mut s = Scenario::new(config(15), 1, 2, ratio(0, 1), ratio(0, 1), ratio(0, 1)).unwrap();
    assert_eq!(count_ties(&s.network.informal), 14);
    assert_eq!(s.do_tie_break(5), 5);
    assert_eq!(count_ties(&s.network.informal), 9);
    assert_eq!(s.do_tie_break(20), 9);
    assert_eq!(count_ties(&s.network.overall), 0);
    assert_eq!(s.do_tie_break(1), 0);
    assert_eq!(
        s.do_rewiring(2, 3),
        Err(SimulationError::NoEligibleCandidates { formed: 2, broken: 2 })
    );
    s.set_network_params(true, true);
    let report = s.do_random_rewiring(0, 9);
    assert_eq!(report, Rewired { formed: 0, broken: 0 });
}

#[test]
fn step_without_rewiring_keeps_the_network() {
    let mut s = Scenario::new(config(20), 0, 2, ratio(1, 2), ratio(0, 1), ratio(1, 10)).unwrap();
    s.set_network_params(false, false);
    let ties = s.network.overall.clone();
    let reality = s.reality.clone();
    for _ in 0..5 {
        assert_eq!(s.step_forward(), Ok(()));
    }
    assert_eq!(s.network.overall, ties);
    assert_eq!(s.reality, reality);
    assert_scored(&s);
}

#[test]
fn step_reports_a_quota_that_cannot_be_met() {
    let mut c = config(6);
    c.informal_rewiring_num = 30;
    let mut s = Scenario::new(c, 0, 2, ratio(1, 1), ratio(0, 1), ratio(0, 1)).unwrap();
    let formal = s.network.formal.clone();
    match s.step_forward() {
        Err(SimulationError::NoEligibleCandidates { formed, broken }) => {
            assert_eq!(formed, 10);
            assert_eq!(broken, 10);
        }
        other => panic!("unexpected {:?}", other),
    }
    assert_eq!(s.network.overall, formal);
    assert_consistent(&s.network);
}

#[test]
fn wheels_of_formation_and_breaking() {
    let mut net = Network::new(4);
    net.add_tie(0, 1, false);
    net.add_tie(1, 2, true);
    net.add_tie(2, 3, false);
    let dyads = all_dyads(4);
    // dyads: (0,1) (0,2) (0,3) (1,2) (1,3) (2,3)
    let unit = 1u64 << 32;
    assert_eq!(
        formation_wheel(&net, &dyads, 0, 5),
        vec![0, 2 * unit / 3, unit / 2, 0, 2 * unit / 3, 0]
    );
    assert_eq!(formation_wheel(&net, &dyads, 1, 5), vec![0, unit, unit, 0, unit, 0]);
    assert_eq!(formation_wheel(&net, &dyads, 2, 5), vec![0; 6]);
    assert_eq!(formation_wheel(&net, &dyads, 1, 1), vec![0; 6]);
    assert_eq!(eligibility_wheel(&net, &dyads, 5), vec![0, 1, 1, 0, 1, 0]);
    assert_eq!(eligibility_wheel(&net, &dyads, 1), vec![0; 6]);
    assert_eq!(informal_wheel(&net, &dyads), vec![1, 0, 0, 0, 0, 1]);
    let (raw, top) = breaking_weights(&net, &dyads, 1);
    assert_eq!(raw, vec![unit, 0, 0, 0, 0, unit]);
    assert_eq!(top, unit);
    assert_eq!(breaking_wheel(&net, &dyads, &raw, top), vec![0; 6]);
    net.add_tie(0, 2, false);
    let (raw, top) = breaking_weights(&net, &dyads, 1);
    assert_eq!(raw, vec![2 * unit, 2 * unit, 0, 0, 0, unit]);
    assert_eq!(top, 2 * unit);
    assert_eq!(breaking_wheel(&net, &dyads, &raw, top), vec![0, 0, 0, 0, 0, unit]);
}

#[test]
fn chosen_ties_follow_the_ticket() {
    let mut net = Network::new(4);
    net.add_tie(1, 2, true);
    let dyads = all_dyads(4);
    let wheel = vec![2, 0, 3, 0, 0, 1];
    assert_eq!(form_chosen_tie(&mut net, &dyads, &wheel, 4), 2);
    assert!(net.is_informal(0, 3));
    assert_eq!(form_chosen_tie(&mut net, &dyads, &wheel, 5), 5);
    assert!(net.is_informal(2, 3));
    assert_eq!(form_chosen_tie(&mut net, &dyads, &wheel, 0), 0);
    assert!(net.is_informal(0, 1));
    assert_eq!(net.degree, vec![2, 2, 2, 2]);
    let wheel = vec![1, 0, 1, 0, 0, 1];
    assert_eq!(break_chosen_tie(&mut net, &dyads, &wheel, 1), 2);
    assert!(!net.is_tied(0, 3));
    assert!(net.is_formal(1, 2));
    assert_eq!(net.degree, vec![1, 2, 2, 1]);
    assert_consistent(&net);
}

#[test]
fn ties_are_drawn_and_dyads_are_shuffled() {
    let mut rng = rand::thread_rng();
    let mut first = std::collections::HashSet::new();
    let mut random_first = std::collections::HashSet::new();
    for _ in 0..40 {
        let mut net = Network::new(30);
        let mut dyads = all_dyads(30);
        assert_eq!(form_ties(&mut net, &mut dyads, &mut rng, 0, 5, 1), 1);
        first.insert(net.edge_list()[0]);
        let mut other = Network::new(30);
        let mut list = all_dyads(30);
        let done = random_rewire(&mut other, &mut list, &mut rng, 5, 1, 0);
        assert_eq!(done, Rewired { formed: 1, broken: 0 });
        random_first.insert(other.edge_list()[0]);
        let mut sorted = list.clone();
        sorted.sort();
        assert_eq!(sorted, all_dyads(30));
    }
    assert!(first.len() > 1);
    assert!(random_first.len() > 1);
}

#[test]
fn free_rewiring_procedures_report_what_they_did() {
    let mut rng = rand::thread_rng();
    let skeleton = hierarchy_relation(10, 3, false);
    let mut net = partition_ties(&skeleton, ratio(0, 1), &mut rng);
    assert_eq!(net.informal, skeleton);
    let mut dyads = all_dyads(10);
    assert_eq!(add_extra_ties(&mut net, &mut dyads, &mut rng, ratio(1, 1), 4, 6), 6);
    assert_eq!(count_ties(&net.formal), 6);
    assert_eq!(count_ties(&net.informal), 9);
    assert_eq!(add_extra_ties(&mut net, &mut dyads, &mut rng, ratio(1, 1), 4, 0), 0);
    assert_eq!(break_ties(&mut net, &mut dyads, &mut rng, 0, 4), 4);
    assert_eq!(count_ties(&net.informal), 5);
    assert_eq!(count_ties(&net.formal), 6);
    let done = random_rewire(&mut net, &mut dyads, &mut rng, 9, 2, 5);
    assert_eq!(done, Rewired { formed: 2, broken: 5 });
    assert_eq!(count_ties(&net.informal), 2);
    assert_consistent(&net);
}

#[test]
fn steps_with_quotas_of_their_own() {
    let mut s = Scenario::new(config(30), 1, 3, ratio(1, 2), ratio(0, 1), ratio(0, 1)).unwrap();
    let informal = count_ties(&s.network.informal);
    assert_eq!(s.step_forward_num_formation_break(6, 1), Ok(()));
    assert_eq!(count_ties(&s.network.informal), informal + 5);
    assert_eq!(s.step_forward_tie_turnover(3), Ok(()));
    assert_eq!(count_ties(&s.network.informal), informal + 5);
    s.set_network_params(false, false);
    assert_eq!(s.step_forward_num_formation_break(6, 1), Ok(()));
    assert_eq!(count_ties(&s.network.informal), informal + 5);
    assert_consistent(&s.network);
    assert_scored(&s);
}

#[test]
fn scenario_table_lists_ties_and_nodes() {
    let s = Scenario::new(config(3), 0, 2, ratio(1, 1), ratio(0, 1), ratio(0, 1)).unwrap();
    let text = String::from_utf8(s.export_network_csv()).unwrap();
    assert_eq!(text, "SOURCE,TARGET,TIE_ENFORCED\n0,1,true\n0,2,true\n0,,\n1,,\n2,,\n");
    assert_eq!(s.print_csv(), s.export_network_csv());
}

#[test]
fn stages_of_initialization() {
    let mut rng = rand::thread_rng();
    let mut c = config(20);
    c.limit_level = true;
    let (network, levels, dyads) =
        Scenario::initialize_network(&c, 2, ratio(1, 2), &mut rng).unwrap();
    assert_eq!(network.overall, hierarchy_relation(20, 2, false));
    assert_eq!(levels[19], 5);
    assert_eq!(dyads.len(), 190);
    assert!(network.limited[0][3] && !network.limited[0][1] && !network.limited[1][3]);
    assert_consistent(&network);
    let (reality, beliefs) = Scenario::initialize_entity(&c, &mut rng);
    assert_eq!(reality.len(), 6);
    assert_eq!(beliefs.len(), 20);
    assert!(beliefs.iter().all(|b| b.len() == 6 && b.iter().all(|r| r.len() == 3)));
    let mut s = Scenario::new(c, 0, 2, ratio(1, 2), ratio(0, 1), ratio(0, 1)).unwrap();
    let fresh = s.reality.clone();
    s.replace_agent(0, fresh);
    s.initialize_outcome();
    assert_eq!(s.performance_of[0], 18);
    assert_scored(&s);
    assert_eq!(s.performance_total, s.performance_of.iter().sum::<usize>() as u64);
}

#[test]
fn preference_scores_of_the_two_mechanisms() {
    let mut net = Network::new(4);
    net.add_tie(0, 1, false);
    net.add_tie(0, 2, false);
    net.add_tie(1, 2, true);
    let frac = |numerator: u64, denominator: u64| fdfirst::preference::Fraction { numerator, denominator };
    let (scores, averages) = fdfirst::preference::preference_scores(&net, 0);
    assert_eq!(scores[0], vec![frac(0, 3), frac(1, 2), frac(1, 2), frac(0, 3)]);
    assert_eq!(scores[3], vec![frac(0, 1), frac(0, 1), frac(0, 1), frac(0, 1)]);
    assert_eq!(averages[0], frac(2 * 3, 2 * 2 * 3));
    assert_eq!(averages[3], frac(0, 1));
    let (degrees, means) = fdfirst::preference::preference_scores(&net, 1);
    assert_eq!(degrees[0], vec![frac(0, 1), frac(2, 1), frac(2, 1), frac(0, 1)]);
    assert_eq!(degrees[3], vec![frac(2, 1), frac(2, 1), frac(2, 1), frac(0, 1)]);
    assert_eq!(means[0], frac(4, 2));
    assert_eq!(means[3], frac(6, 1));
    let (none, flat) = fdfirst::preference::preference_scores(&net, 7);
    assert_eq!(none[1], vec![frac(0, 1); 4]);
    assert_eq!(flat[1], frac(0, 2));
    let (zeros, zero) = fdfirst::preference::zero_scores(2);
    assert_eq!(zeros, vec![vec![frac(0, 1); 2]; 2]);
    assert_eq!(zero, vec![frac(0, 1); 2]);
    let mut s = Scenario::new(config(9), 0, 2, ratio(1, 2), ratio(0, 1), ratio(0, 1)).unwrap();
    assert_eq!(s.preference_score[4][5], frac(0, 1));
    s.set_preference_score();
    assert_eq!(s.preference_score[3][4], frac(1, 4));
    assert_eq!(s.preference_score[1][3], frac(0, 3));
    assert_eq!(s.preference_score[0][1], frac(0, 2));
    assert_eq!(s.preference_score[4][4], frac(0, 2));
}

#[test]
fn clones_diverge_once_they_step() {
    let s = Scenario::new(config(40), 0, 3, ratio(1, 2), ratio(0, 1), ratio(0, 1)).unwrap();
    let mut directed = s.get_clone_with_params(true, false);
    let mut still = s.get_clone_with_params(false, false);
    assert_eq!(directed.performance_total, still.performance_total);
    assert_eq!(directed.belief_of, still.belief_of);
    let mut apart = false;
    for _ in 0..60 {
        assert_eq!(directed.step_forward(), Ok(()));
        assert_eq!(still.step_forward(), Ok(()));
        apart = apart || directed.performance_total != still.performance_total;
    }
    assert!(apart);
    assert_ne!(directed.network.overall, still.network.overall);
    assert_eq!(still.network.overall, s.network.overall);
}

#[test]
fn isolated_nodes_have_neutral_statistics() {
    let mut s = Scenario::new(config(6), 0, 2, ratio(0, 1), ratio(0, 1), ratio(0, 1)).unwrap();
    assert_eq!(s.do_tie_break(5), 5);
    s.set_outcome();
    assert_eq!(s.network_analyzer.distance_total, 0);
    assert_eq!(s.network_analyzer.closeness_sum, vec![0; 6]);
    assert_eq!(s.network_analyzer.triangles, vec![0; 6]);
    assert_eq!(s.network_analyzer.degree, vec![0; 6]);
    assert_eq!(s.network_analyzer.distance_histogram, vec![0; 6]);
    for i in 0..6 {
        for j in 0..6 {
            assert_eq!(s.network_analyzer.shortest_path[i][j], if i == j { 0 } else { -1 });
        }
    }
    assert_eq!(s.network.get_rewiring_weight_network_closure(0, 1).tickets(), 1 << 32);
    assert_eq!(s.network.get_rewiring_weight_preferential_attachment(0, 1).tickets(), 0);
}

#[test]
fn scores_are_brought_up_to_date() {
    let mut s = Scenario::new(config(6), 0, 2, ratio(1, 2), ratio(0, 1), ratio(0, 1)).unwrap();
    let total = s.performance_total;
    s.belief_of[2] = s.reality.clone();
    s.belief_of[4] = s.reality.clone();
    s.belief_of[4][0][0] = !s.reality[0][0];
    s.performance_of = vec![7; 6];
    assert_eq!(s.get_performance_of(2), 18);
    assert_eq!(s.get_performance_of(4), 15);
    s.set_performance_of(2);
    assert_eq!(s.performance_of, vec![7, 7, 18, 7, 7, 7]);
    s.set_performance_of(4);
    assert_eq!(s.performance_of, vec![7, 7, 18, 7, 15, 7]);
    s.set_performance();
    assert_eq!(s.performance_of[2], 18);
    assert_eq!(s.performance_of[4], 15);
    assert_scored(&s);
    assert_eq!(s.performance_total, total);
    let scores = s.performance_of.clone();
    s.set_performance();
    s.set_performance_of(1);
    assert_eq!(s.performance_of, scores);
}

#[test]
fn extra_ties_that_fit_are_all_placed() {
    let mut c = config(6);
    c.num_addition = 10;
    c.informal_max_num = 5;
    for _ in 0..10 {
        let s = Scenario::new(c, 0, 2, ratio(1, 2), ratio(0, 1), ratio(0, 1)).unwrap();
        assert_eq!(count_ties(&s.network.overall), 15);
        assert_consistent(&s.network);
    }
    c.num_addition = 11;
    match Scenario::new(c, 0, 2, ratio(1, 2), ratio(0, 1), ratio(0, 1)) {
        Err(SimulationError::NoEligibleCandidates { formed, broken }) => {
            assert_eq!((formed, broken), (10, 0));
        }
        _ => panic!("only ten pairs are left untied"),
    }
}

#[test]
fn extra_ties_keep_gains_within_the_cap() {
    let mut c = config(30);
    c.num_addition = 25;
    c.informal_max_num = 2;
    let skeleton = hierarchy_relation(30, 4, false);
    for _ in 0..10 {
        if let Ok(s) = Scenario::new(c, 0, 4, ratio(1, 3), ratio(0, 1), ratio(0, 1)) {
            for v in 0..30 {
                let given = skeleton[v].iter().filter(|&&t| t).count();
                assert!(s.network.degree_informal[v] <= 2 || s.network.degree_informal[v] <= given);
            }
            assert_eq!(count_ties(&s.network.overall), 29 + 25);
        }
    }
}

#[test]
fn rewiring_succeeds_where_nothing_stands_in_the_way() {
    let mut c = config(8);
    c.informal_max_num = 7;
    for random in [false, true] {
        let mut s = Scenario::new(c, 0, 2, ratio(1, 2), ratio(0, 1), ratio(0, 1)).unwrap();
        s.set_network_params(true, random);
        let informal = count_ties(&s.network.informal);
        assert_eq!(s.do_rewiring(21, informal + 21), Ok(()));
        assert_eq!(count_ties(&s.network.informal), 0);
        assert_eq!(s.do_rewiring(0, 0), Ok(()));
        let formal = count_ties(&s.network.formal);
        assert_eq!(
            s.do_rewiring(29 - formal, 0),
            Err(SimulationError::NoEligibleCandidates { formed: 28 - formal, broken: 0 })
        );
    }
}

#[test]
fn formation_keeps_every_tie() {
    let mut s = Scenario::new(config(20), 1, 3, ratio(1, 2), ratio(0, 1), ratio(0, 1)).unwrap();
    let before = s.network.overall.clone();
    assert_eq!(s.do_tie_formation(0), 0);
    assert_eq!(s.network.overall, before);
    assert_eq!(s.do_tie_formation(6), 6);
    for i in 0..20 {
        for j in 0..20 {
            assert!(!before[i][j] || s.network.overall[i][j]);
        }
    }
}

#[test]
fn formation_follows_the_tickets_of_the_mechanism() {
    let mut rng = rand::thread_rng();
    for _ in 0..20 {
        let mut net = Network::new(5);
        net.add_tie(0, 1, true);
        net.add_tie(1, 2, true);
        let mut dyads = all_dyads(5);
        // Under preferential attachment only the dyad of 0 and 2 holds tickets.
        assert_eq!(form_ties(&mut net, &mut dyads, &mut rng, 1, 4, 1), 1);
        assert!(net.is_informal(0, 2));
    }
}

#[test]
fn breaking_spares_the_ties_of_the_largest_weight() {
    let mut rng = rand::thread_rng();
    for _ in 0..20 {
        let mut net = Network::new(4);
        net.add_tie(0, 1, false);
        net.add_tie(0, 2, false);
        net.add_tie(0, 3, false);
        net.add_tie(1, 2, false);
        let mut dyads = all_dyads(4);
        // Under preferential attachment the tie of 0 and 3 alone is lighter.
        assert_eq!(break_ties(&mut net, &mut dyads, &mut rng, 1, 1), 1);
        assert!(!net.is_tied(0, 3));
        assert_eq!(net.edge_list(), vec![(0, 1, false), (0, 2, false), (1, 2, false)]);
    }
}

#[test]
fn a_pass_breaks_and_forms_in_the_order_given() {
    let mut net = Network::new(4);
    net.add_tie(0, 1, false);
    net.add_tie(2, 3, true);
    let order = vec![(0, 2), (0, 1), (1, 3), (0, 3), (1, 2), (2, 3)];
    let done = rewire_pass(&mut net, &order, 5, 2, 1);
    assert_eq!(done, Rewired { formed: 2, broken: 1 });
    assert_eq!(net.edge_list(), vec![(0, 2, false), (1, 3, false), (2, 3, true)]);
    // The tie that a pass has broken is not formed again in the same pass,
    // and a formal tie is never broken.
    let mut other = Network::new(4);
    other.add_tie(0, 1, false);
    other.add_tie(2, 3, true);
    let first = vec![(0, 1), (2, 3), (0, 2), (0, 3), (1, 2), (1, 3)];
    let done = rewire_pass(&mut other, &first, 1, 9, 9);
    assert_eq!(done, Rewired { formed: 2, broken: 1 });
    assert_eq!(other.edge_list(), vec![(0, 2, false), (1, 3, false), (2, 3, true)]);
    let idle = rewire_pass(&mut other, &first, 1, 0, 0);
    assert_eq!(idle, Rewired { formed: 0, broken: 0 });
    let capped = rewire_pass(&mut other, &first, 1, 3, 0);
    assert_eq!(capped, Rewired { formed: 0, broken: 0 });
    let stuck = rewire_pass(&mut other, &first, 2, 3, 0);
    assert_eq!(stuck, Rewired { formed: 1, broken: 0 });
    assert_eq!(other.edge_list(), vec![(0, 1, false), (0, 2, false), (1, 3, false), (2, 3, true)]);
}

#[test]
fn random_rewiring_of_three_nodes_moves_the_tie() {
    let mut rng = rand::thread_rng();
    for _ in 0..30 {
        let mut net = Network::new(3);
        net.add_tie(0, 1, false);
        let mut dyads = all_dyads(3);
        let done = random_rewire(&mut net, &mut dyads, &mut rng, 5, 1, 1);
        assert_eq!(done, Rewired { formed: 1, broken: 1 });
        assert!(!net.is_tied(0, 1));
        assert_eq!(count_ties(&net.informal), 1);
    }
}

#[test]
fn extra_ties_follow_the_order_and_the_draws() {
    let mut net = Network::new(4);
    net.add_tie(0, 1, true);
    let order = vec![(0, 1), (2, 3), (0, 2), (1, 3), (0, 3), (1, 2)];
    let added = place_extra_ties(&mut net, &order, &vec![true, false, true], 1, 3);
    assert_eq!(added, 3);
    assert_eq!(net.edge_list(), vec![(0, 1, true), (0, 2, false), (1, 3, true), (2, 3, true)]);
    // Nodes 0 and 2 have reached the cap, so neither untied pair takes a tie.
    assert_eq!(place_extra_ties(&mut net, &order, &vec![false, false], 1, 2), 0);
    assert!(!net.is_tied(1, 2) && !net.is_tied(0, 3));
    let more = place_extra_ties(&mut net, &order, &vec![false, true], 2, 2);
    assert_eq!(more, 2);
    assert!(net.is_informal(0, 3) && net.is_formal(1, 2));
    assert_eq!(place_extra_ties(&mut net, &order, &vec![], 1, 0), 0);
    assert_consistent(&net);
}

#[test]
fn formal_extra_ties_stop_only_where_the_pairs_run_out() {
    let mut c = config(6);
    c.informal_max_num = 1;
    c.num_addition = 10;
    for _ in 0..10 {
        let s = Scenario::new(c, 0, 2, ratio(1, 1), ratio(0, 1), ratio(0, 1)).unwrap();
        assert_eq!(count_ties(&s.network.formal), 15);
        assert_eq!(count_ties(&s.network.informal), 0);
    }
}
