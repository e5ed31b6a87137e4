use fdfirst::error::SimulationError;
use fdfirst::network_analyzer::NetworkAnalyzer;

fn relation(n: usize, ties: &[(usize, usize)]) -> Vec<Vec<bool>> {
    let mut m = vec![vec![false; n]; n];
    for &(a, b) in ties {
        m[a][b] = true;
        m[b][a] = true;
    }
    m
}

fn average_path_length(a: &NetworkAnalyzer) -> f64 {
    let pairs = (a.n * (a.n - 1) / 2) as f64;
    a.distance_total as f64 / pairs
}

fn efficiency(a: &NetworkAnalyzer) -> f64 {
    let pairs = (a.n * (a.n - 1) / 2) as f64;
    let mut sum = 0.0;
    for d in 1..a.n {
        sum += a.distance_histogram[d] as f64 / d as f64;
    }
    sum / pairs
}

fn shortest_path_variance(a: &NetworkAnalyzer) -> f64 {
    let n = a.n as f64;
    let mut variance = 0.0;
    for i in 0..a.n {
        let mean = a.path_sum[i] as f64 / n;
        let mean_square = a.path_square_sum[i] as f64 / n;
        variance += mean_square - mean * mean;
    }
    variance / n
}

fn closeness(a: &NetworkAnalyzer, i: usize) -> f64 {
    if a.closeness_sum[i] > 0 {
        (a.n as f64 - 1.0) / a.closeness_sum[i] as f64
    } else {
        0.0
    }
}

fn closeness_centralization(a: &NetworkAnalyzer) -> f64 {
    let n = a.n as f64;
    let mut max = f64::MIN;
    let mut sum = 0.0;
    for i in 0..a.n {
        let c = closeness(a, i);
        sum += c;
        if c > max {
            max = c;
        }
    }
    (max * n - sum) / ((n - 1.0) * (n - 2.0) / (2.0 * n - 3.0))
}

#[test]
fn complete_graph_of_four() {
    let m = relation(4, &[(0, 1), (0, 2), (0, 3), (1, 2), (1, 3), (2, 3)]);
    let mut a = NetworkAnalyzer::new(4);
    assert_eq!(a.set_network_metrics(&m), Ok(()));
    assert_eq!(average_path_length(&a), 1.0);
    assert_eq!(efficiency(&a), 1.0);
    for i in 0..4 {
        assert_eq!(a.degree[i], 3);
        assert_eq!(a.triangles[i], 3);
        let pairs = a.degree[i] * (a.degree[i] - 1) / 2;
        assert_eq!(a.triangles[i] as f64 / pairs as f64, 1.0);
    }
    assert_eq!(closeness_centralization(&a), 0.0);
    assert_eq!(a.distance_histogram, vec![0, 6, 0, 0]);
    assert_eq!(a.path_sum, vec![3, 3, 3, 3]);
    assert_eq!(a.path_square_sum, vec![3, 3, 3, 3]);
    assert_eq!(shortest_path_variance(&a), 0.1875);
}

#[test]
fn path_of_four() {
    let m = relation(4, &[(0, 1), (1, 2), (2, 3)]);
    let mut a = NetworkAnalyzer::new(4);
    assert_eq!(a.set_network_metrics(&m), Ok(()));
    assert_eq!(a.distance_total, 10);
    assert_eq!(average_path_length(&a), 10.0 / 6.0);
    assert_eq!(
        a.shortest_path,
        vec![vec![0, 1, 2, 3], vec![1, 0, 1, 2], vec![2, 1, 0, 1], vec![3, 2, 1, 0]]
    );
    assert_eq!(a.distance_histogram, vec![0, 3, 2, 1]);
    assert_eq!(a.closeness_sum, vec![6, 4, 4, 6]);
    assert_eq!(a.path_sum, vec![6, 4, 4, 6]);
    assert_eq!(a.path_square_sum, vec![14, 6, 6, 14]);
    assert_eq!(shortest_path_variance(&a), (14.0 / 4.0 - 2.25 + 6.0 / 4.0 - 1.0) * 2.0 / 4.0);
    assert_eq!(a.triangles, vec![0, 0, 0, 0]);
    assert_eq!(a.degree, vec![1, 2, 2, 1]);
}

#[test]
fn malformed_relation_is_refused() {
    let mut a = NetworkAnalyzer::new(3);
    let mut m = relation(3, &[(0, 1)]);
    m[1][0] = false;
    assert_eq!(a.set_network_metrics(&m), Err(SimulationError::MalformedRelation));
    let mut looped = relation(3, &[]);
    looped[2][2] = true;
    assert_eq!(a.set_network_metrics(&looped), Err(SimulationError::MalformedRelation));
    let small = relation(2, &[(0, 1)]);
    assert_eq!(a.set_network_metrics(&small), Err(SimulationError::MalformedRelation));
    assert_eq!(a.shortest_path, vec![vec![-1, -1, -1]; 3]);
}

#[test]
fn disconnected_pairs_do_not_count() {
    let m = relation(4, &[(0, 1), (2, 3)]);
    let mut a = NetworkAnalyzer::new(4);
    assert_eq!(a.set_network_metrics(&m), Ok(()));
    assert_eq!(a.distance_total, 2);
    assert_eq!(a.shortest_path[0], vec![0, 1, -1, -1]);
    assert_eq!(a.distance_histogram, vec![0, 2, 0, 0]);
    assert_eq!(a.closeness_sum, vec![1, 1, 1, 1]);
}
