use fdfirst::dyads::all_dyads;
use fdfirst::hierarchy::{hierarchy_levels, hierarchy_relation, is_hierarchy_tie, level_mask};
use fdfirst::network::Network;
use fdfirst::network_analyzer::NetworkAnalyzer;
use fdfirst::params::{
    initialize_globals, initialize_once_cells, Config, Probability, SweepShape, MAX_ELEMENTS, MAX_NODES,
};
use fdfirst::paths::{adjacency_lists, all_distances};
use fdfirst::relation::{check_tie_relation, copy_grid, new_grid, set_tie};
use fdfirst::roulette::{count_tickets, roulette_pick, Weight, MAX_TICKETS, WEIGHT_SCALE};

fn ties_of(m: &Vec<Vec<bool>>) -> Vec<(usize, usize)> {
    let mut out = Vec::new();
    for i in 0..m.len() {
        for j in (i + 1)..m.len() {
            if m[i][j] {
                out.push((i, j));
            }
        }
    }
    out
}

#[test]
fn probability_is_a_ratio_between_zero_and_one() {
    let p = Probability::new(1, 5).unwrap();
    assert_eq!((p.numerator, p.denominator), (1, 5));
    assert!(Probability::new(0, 1).is_some());
    assert!(Probability::new(7, 7).is_some());
    assert!(Probability::new(1, 0).is_none());
    assert!(Probability::new(3, 2).is_none());
}

#[test]
fn config_validity() {
    let p = Probability::new(1, 5).unwrap();
    let mut c = Config {
        n: 100,
        m_of_bundle: 20,
        m_in_bundle: 5,
        informal_max_num: 5,
        informal_rewiring_num: 25,
        num_addition: 0,
        link_level: false,
        limit_level: false,
        p_learning: p,
    };
    assert!(c.is_valid());
    c.n = 0;
    assert!(!c.is_valid());
    c.n = MAX_NODES + 1;
    assert!(!c.is_valid());
    c.n = MAX_NODES;
    assert!(c.is_valid());
    c.m_of_bundle = MAX_ELEMENTS / 5 + 1;
    assert!(!c.is_valid());
    c.m_of_bundle = MAX_ELEMENTS / 5;
    assert!(c.is_valid());
    c.m_of_bundle = usize::MAX;
    c.m_in_bundle = usize::MAX;
    assert!(!c.is_valid());
    c.m_in_bundle = 0;
    assert!(c.is_valid());
    c.m_of_bundle = 1;
    c.m_in_bundle = 5;
    c.p_learning = Probability { numerator: 2, denominator: 1 };
    assert!(!c.is_valid());
}

#[test]
fn globals_start_without_names() {
    let g = initialize_globals(1_700_000_000_123);
    assert_eq!(g.tic, 1_700_000_000_123);
    assert_eq!(g.filename, None);
    assert_eq!(g.path_csv, None);
}

#[test]
fn combinations_are_listed_in_rank_order() {
    let shape = SweepShape {
        num_social_dynamics: 2,
        length_span: 3,
        length_enforcement: 2,
        length_turbulence: 1,
        length_turnover: 2,
        time: 4,
    };
    let cells = initialize_once_cells(&shape);
    assert_eq!(cells.combinations.len(), 24);
    assert_eq!(cells.combinations_with_time.len(), 96);
    assert_eq!(cells.combinations[0], (0, 0, 0, 0, 0));
    assert_eq!(cells.combinations[1], (0, 0, 0, 0, 1));
    assert_eq!(cells.combinations[2], (0, 0, 1, 0, 0));
    assert_eq!(cells.combinations[4], (0, 1, 0, 0, 0));
    assert_eq!(cells.combinations[12], (1, 0, 0, 0, 0));
    assert_eq!(cells.combinations[23], (1, 2, 1, 0, 1));
    assert_eq!(cells.combinations_with_time[0], (0, 0, 0, 0, 0, 0));
    assert_eq!(cells.combinations_with_time[3], (0, 0, 0, 0, 0, 3));
    assert_eq!(cells.combinations_with_time[4], (0, 0, 0, 0, 1, 0));
    assert_eq!(cells.combinations_with_time[95], (1, 2, 1, 0, 1, 3));
    for (k, c) in cells.combinations.iter().enumerate() {
        let rank = (((c.0 * 3 + c.1) * 2 + c.2) * 1 + c.3) * 2 + c.4;
        assert_eq!(rank, k);
    }
}

#[test]
fn combinations_of_an_empty_sweep() {
    let shape = SweepShape {
        num_social_dynamics: 2,
        length_span: 0,
        length_enforcement: 2,
        length_turbulence: 1,
        length_turnover: 2,
        time: 4,
    };
    let cells = initialize_once_cells(&shape);
    assert!(cells.combinations.is_empty());
    assert!(cells.combinations_with_time.is_empty());
}

#[test]
fn levels_of_a_binary_hierarchy() {
    assert_eq!(hierarchy_levels(7, 2), vec![1, 2, 2, 3, 3, 3, 3]);
    assert_eq!(hierarchy_levels(8, 2), vec![1, 2, 2, 3, 3, 3, 3, 4]);
    assert_eq!(hierarchy_levels(5, 3), vec![1, 2, 2, 2, 3]);
    assert_eq!(hierarchy_levels(1, 4), vec![1]);
    assert_eq!(hierarchy_levels(4, 1), vec![1, 2, 3, 4]);
}

#[test]
fn ties_of_a_hierarchy() {
    let tree = hierarchy_relation(7, 2, false);
    assert_eq!(ties_of(&tree), vec![(0, 1), (0, 2), (1, 3), (1, 4), (2, 5), (2, 6)]);
    assert!(check_tie_relation(&tree, 7));
    let wide = hierarchy_relation(6, 3, false);
    assert_eq!(ties_of(&wide), vec![(0, 1), (0, 2), (0, 3), (1, 4), (1, 5)]);
}

#[test]
fn rings_among_the_children() {
    let ringed = hierarchy_relation(8, 3, true);
    assert_eq!(
        ties_of(&ringed),
        vec![(0, 1), (0, 2), (0, 3), (1, 2), (1, 3), (1, 4), (1, 5), (1, 6), (2, 3), (2, 7), (4, 5), (4, 6), (5, 6)]
    );
    let pairs = hierarchy_relation(5, 2, true);
    assert_eq!(ties_of(&pairs), vec![(0, 1), (0, 2), (1, 2), (1, 3), (1, 4), (3, 4)]);
    let cut = hierarchy_relation(6, 3, true);
    assert_eq!(ties_of(&cut), vec![(0, 1), (0, 2), (0, 3), (1, 2), (1, 3), (1, 4), (1, 5), (2, 3), (4, 5)]);
    assert!(is_hierarchy_tie(8, 3, true, 4, 6));
    assert!(!is_hierarchy_tie(8, 3, false, 4, 6));
    assert!(!is_hierarchy_tie(8, 3, true, 3, 4));
}

#[test]
fn mask_of_levels_more_than_one_apart() {
    let mask = level_mask(&vec![1, 2, 2, 3, 3, 3, 3]);
    assert_eq!(ties_of(&mask), vec![(0, 3), (0, 4), (0, 5), (0, 6)]);
    assert!(check_tie_relation(&mask, 7));
}

#[test]
fn every_dyad_once() {
    assert_eq!(all_dyads(4), vec![(0, 1), (0, 2), (0, 3), (1, 2), (1, 3), (2, 3)]);
    assert!(all_dyads(1).is_empty());
    assert!(all_dyads(0).is_empty());
    assert_eq!(all_dyads(100).len(), 4950);
}

#[test]
fn grids_and_ties() {
    let mut m = new_grid(3);
    assert_eq!(m, vec![vec![false; 3]; 3]);
    set_tie(&mut m, 0, 2, true);
    assert_eq!(m, vec![vec![false, false, true], vec![false; 3], vec![true, false, false]]);
    assert!(check_tie_relation(&m, 3));
    assert!(!check_tie_relation(&m, 4));
    let c = copy_grid(&m);
    assert_eq!(c, m);
    set_tie(&mut m, 0, 2, false);
    assert_eq!(m, new_grid(3));
    assert_ne!(c, m);
    let mut ragged = new_grid(3);
    ragged[1].pop();
    assert!(!check_tie_relation(&ragged, 3));
}

#[test]
fn neighbours_and_distances() {
    let mut m = new_grid(5);
    set_tie(&mut m, 0, 1, true);
    set_tie(&mut m, 1, 2, true);
    set_tie(&mut m, 0, 2, true);
    set_tie(&mut m, 2, 3, true);
    assert_eq!(adjacency_lists(&m), vec![vec![1, 2], vec![0, 2], vec![0, 1, 3], vec![2], vec![]]);
    assert_eq!(
        all_distances(&m),
        vec![
            vec![0, 1, 1, 2, -1],
            vec![1, 0, 1, 2, -1],
            vec![1, 1, 0, 1, -1],
            vec![2, 2, 1, 0, -1],
            vec![-1, -1, -1, -1, 0]
        ]
    );
}

#[test]
fn wheel_gives_each_ticket_to_one_entry() {
    let wheel = vec![0, 3, 0, 2, 5];
    assert_eq!(count_tickets(&wheel), 10);
    let winners: Vec<usize> = (0..10).map(|t| roulette_pick(&wheel, t)).collect();
    assert_eq!(winners, vec![1, 1, 1, 3, 3, 4, 4, 4, 4, 4]);
    assert_eq!(count_tickets(&vec![]), 0);
    assert_eq!(roulette_pick(&vec![1], 0), 0);
    assert_eq!(roulette_pick(&vec![MAX_TICKETS, MAX_TICKETS], MAX_TICKETS), 1);
}

#[test]
fn weights_in_tickets() {
    assert_eq!(WEIGHT_SCALE, 1 << 32);
    assert_eq!(Weight { numerator: 1, denominator: 1 }.tickets(), 1 << 32);
    assert_eq!(Weight { numerator: 3, denominator: 4 }.tickets(), 3 << 30);
    assert_eq!(Weight { numerator: 1, denominator: 3 }.tickets(), 1431655765);
    assert_eq!(Weight { numerator: 0, denominator: 9 }.tickets(), 0);
    assert_eq!(Weight { numerator: 2048, denominator: 1 }.tickets(), MAX_TICKETS);
}

#[test]
fn network_keeps_its_counters() {
    let mut net = Network::new(4);
    net.add_tie(0, 1, true);
    net.add_tie(1, 2, false);
    net.add_tie(3, 1, false);
    assert_eq!(net.degree, vec![1, 3, 1, 1]);
    assert_eq!(net.degree_formal, vec![1, 1, 0, 0]);
    assert_eq!(net.degree_informal, vec![0, 2, 1, 1]);
    assert!(net.is_tied(1, 3) && net.is_tied(3, 1));
    assert!(net.is_formal(0, 1) && !net.is_informal(0, 1));
    assert!(net.is_informal(1, 2) && !net.is_formal(2, 1));
    assert!(!net.is_tied(0, 2));
    net.remove_informal_tie(2, 1);
    assert_eq!(net.degree, vec![1, 2, 0, 1]);
    assert_eq!(net.degree_informal, vec![0, 1, 0, 1]);
    assert!(!net.is_tied(1, 2) && !net.is_informal(1, 2));
    assert_eq!(net.edge_list(), vec![(0, 1, true), (1, 3, false)]);
    let copy = net.duplicate();
    assert_eq!(copy.overall, net.overall);
    assert_eq!(copy.formal, net.formal);
    assert_eq!(copy.informal, net.informal);
    assert_eq!(copy.degree, net.degree);
}

#[test]
fn eligibility_respects_cap_mask_and_ties() {
    let mut net = Network::new(4);
    net.add_tie(0, 1, false);
    net.add_tie(0, 2, false);
    assert!(!net.is_eligible(2, 0, 3));
    assert!(net.is_eligible(3, 0, 3));
    assert!(!net.is_eligible(3, 0, 1));
    assert!(!net.is_eligible(3, 2, 2));
    assert!(net.is_eligible(2, 1, 3));
    net.limited = level_mask(&vec![1, 2, 2, 3]);
    assert!(net.is_limited(0, 3) && net.is_limited(3, 0));
    assert!(!net.is_eligible(3, 0, 3));
    assert!(net.is_eligible(3, 1, 3));
    let mut formal = Network::new(3);
    formal.add_tie(0, 1, true);
    formal.add_tie(0, 2, true);
    assert!(formal.is_eligible(1, 1, 2));
}

#[test]
fn weights_of_the_two_mechanisms() {
    let mut net = Network::new(5);
    net.add_tie(0, 1, false);
    net.add_tie(0, 2, false);
    net.add_tie(1, 2, true);
    net.add_tie(2, 3, false);
    assert_eq!(net.common_neighbours(0, 1), 1);
    assert_eq!(net.common_neighbours(0, 3), 1);
    assert_eq!(net.common_neighbours(1, 3), 1);
    assert_eq!(net.common_neighbours(0, 4), 0);
    assert_eq!(net.get_rewiring_weight_network_closure(0, 1), Weight { numerator: 2, denominator: 2 });
    assert_eq!(net.get_rewiring_weight_network_closure(0, 3), Weight { numerator: 2, denominator: 3 });
    assert_eq!(net.get_rewiring_weight_network_closure(3, 4), Weight { numerator: 1, denominator: 2 });
    assert_eq!(net.get_rewiring_weight_network_closure(2, 3), Weight { numerator: 1, denominator: 3 });
    assert_eq!(net.get_rewiring_weight_preferential_attachment(0, 2), Weight { numerator: 2, denominator: 1 });
    assert_eq!(net.get_rewiring_weight_preferential_attachment(2, 4), Weight { numerator: 0, denominator: 1 });
    assert_eq!(net.get_rewiring_weight(0, 0, 3), Weight { numerator: 2, denominator: 3 });
    assert_eq!(net.get_rewiring_weight(1, 0, 3), Weight { numerator: 1, denominator: 1 });
    assert_eq!(net.get_rewiring_weight(2, 0, 3), Weight { numerator: 0, denominator: 1 });
}

#[test]
fn table_of_ties_as_text() {
    let mut net = Network::new(12);
    net.add_tie(0, 1, true);
    net.add_tie(0, 11, false);
    net.add_tie(9, 10, false);
    let text = String::from_utf8(net.export_network_csv()).unwrap();
    assert_eq!(
        text,
        "SOURCE,TARGET,TIE_ENFORCED\n0,1,true\n0,11,false\n9,10,false\n\
         0,,\n1,,\n2,,\n3,,\n4,,\n5,,\n6,,\n7,,\n8,,\n9,,\n10,,\n11,,\n"
    );
    let empty = fdfirst::export::csv_of(&vec![], 0);
    assert_eq!(String::from_utf8(empty).unwrap(), "SOURCE,TARGET,TIE_ENFORCED\n");
    let mut digits = Vec::new();
    fdfirst::export::push_decimal(&mut digits, 0);
    fdfirst::export::push_decimal(&mut digits, 1024);
    fdfirst::export::push_decimal(&mut digits, 907);
    assert_eq!(digits, b"01024907".to_vec());
}

#[test]
fn analyzer_starts_empty_and_sets_distances() {
    let mut a = NetworkAnalyzer::new(3);
    assert_eq!(a.shortest_path, vec![vec![-1; 3]; 3]);
    assert_eq!(a.distance_total, 0);
    assert_eq!(a.degree, vec![0; 3]);
    let mut m = new_grid(3);
    set_tie(&mut m, 0, 2, true);
    a.set_shortest_path(&m);
    assert_eq!(a.shortest_path, vec![vec![0, -1, 1], vec![-1, 0, -1], vec![1, -1, 0]]);
    assert_eq!(a.distance_total, 0);
}
