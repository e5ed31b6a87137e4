use crate::error::SimulationError;
use crate::params::MAX_NODES;
use crate::paths::{all_distances, distance, law_distance_symmetric, lemma_distance_to_self};
use crate::relation::{
    check_tie_relation, degree_of, grid, indicator, is_square, is_symmetric, is_tie_relation, linked,
};
use crate::sums::{lemma_sum_bounds, sum_to};
use vstd::prelude::*;

verus! {

/// The distance from `i` to `j` where `j` can be reached from `i` and is
/// another node: zero otherwise.
pub open spec fn reach(g: Seq<Seq<bool>>, i: int, j: int) -> int {
    if distance(g, i, j) > 0 {
        distance(g, i, j)
    } else {
        0
    }
}

pub open spec fn closeness_term(g: Seq<Seq<bool>>, i: int) -> spec_fn(int) -> int {
    |j: int| reach(g, i, j)
}

/// The sum of the distances from `i` to every node that it reaches.
pub open spec fn closeness_sum(g: Seq<Seq<bool>>, i: int) -> int {
    sum_to(closeness_term(g, i), g.len() as int)
}

pub open spec fn upper_term(g: Seq<Seq<bool>>, i: int) -> spec_fn(int) -> int {
    |j: int| if i < j { reach(g, i, j) } else { 0int }
}

/// The sum of the distances from `i` to every node `j > i` that it reaches.
pub open spec fn upper_distance_sum(g: Seq<Seq<bool>>, i: int) -> int {
    sum_to(upper_term(g, i), g.len() as int)
}

pub open spec fn square_term(g: Seq<Seq<bool>>, i: int) -> spec_fn(int) -> int {
    |j: int| reach(g, i, j) * reach(g, i, j)
}

/// The sum of the squared distances from `i` to every node that it reaches.
pub open spec fn square_sum(g: Seq<Seq<bool>>, i: int) -> int {
    sum_to(square_term(g, i), g.len() as int)
}

pub open spec fn upper_distance_sums(g: Seq<Seq<bool>>) -> spec_fn(int) -> int {
    |i: int| upper_distance_sum(g, i)
}

/// The sum of the distances over all unordered pairs of nodes that are
/// connected.
pub open spec fn total_distance(g: Seq<Seq<bool>>) -> int {
    sum_to(upper_distance_sums(g), g.len() as int)
}

pub open spec fn pairs_at_term(g: Seq<Seq<bool>>, i: int, d: int) -> spec_fn(int) -> int {
    |j: int| if i < j && distance(g, i, j) == d { 1int } else { 0int }
}

pub open spec fn pairs_at_row(g: Seq<Seq<bool>>, d: int) -> spec_fn(int) -> int {
    |i: int| sum_to(pairs_at_term(g, i, d), g.len() as int)
}

/// The number of unordered pairs of nodes `i < j` with `j` at distance `d`
/// from `i`.
pub open spec fn pairs_at_distance(g: Seq<Seq<bool>>, d: int) -> int {
    sum_to(pairs_at_row(g, d), g.len() as int)
}

pub open spec fn triangle_inner(g: Seq<Seq<bool>>, i: int, j: int) -> spec_fn(int) -> int {
    |k: int| if j < k && linked(g, i, k) && linked(g, j, k) { 1int } else { 0int }
}

pub open spec fn triangle_outer(g: Seq<Seq<bool>>, i: int) -> spec_fn(int) -> int {
    |j: int| if linked(g, i, j) { sum_to(triangle_inner(g, i, j), g.len() as int) } else { 0int }
}

/// The number of unordered pairs of neighbours of `i` that are linked to each
/// other.
pub open spec fn triangles_at(g: Seq<Seq<bool>>, i: int) -> int {
    sum_to(triangle_outer(g, i), g.len() as int)
}

/// The statistics of one network, held as the exact integers from which the
/// published averages are quotients.
pub struct NetworkAnalyzer {
    /// Population size.
    pub n: usize,
    /// Distance between every two nodes; `-1` where there is no walk.
    pub shortest_path: Vec<Vec<i64>>,
    /// Sum of the distances over all connected unordered pairs.
    pub distance_total: u64,
    /// For each distance, the number of unordered pairs that far apart.
    pub distance_histogram: Vec<u64>,
    /// For each node, the sum of the distances to the nodes it reaches.
    pub closeness_sum: Vec<u64>,
    /// For each node, the sum of the distances to the nodes it reaches, as
    /// the variance of its distances needs it.
    pub path_sum: Vec<u64>,
    /// For each node, the sum of the squared distances to the nodes it
    /// reaches.
    pub path_square_sum: Vec<u64>,
    /// For each node, the number of linked pairs among its neighbours.
    pub triangles: Vec<u64>,
    /// For each node, the number of its neighbours.
    pub degree: Vec<usize>,
}

impl NetworkAnalyzer {
    /// Every table has one entry for each node.
    pub open spec fn wf(&self) -> bool {
        &&& self.n <= MAX_NODES
        &&& self.shortest_path@.len() == self.n
        &&& forall|i: int| 0 <= i < self.n ==> (#[trigger] self.shortest_path@[i])@.len() == self.n
        &&& self.distance_histogram@.len() == self.n
        &&& self.closeness_sum@.len() == self.n
        &&& self.path_sum@.len() == self.n
        &&& self.path_square_sum@.len() == self.n
        &&& self.triangles@.len() == self.n
        &&& self.degree@.len() == self.n
    }

    /// The tables hold the statistics of the relation `g`.
    pub open spec fn describes(&self, g: Seq<Seq<bool>>) -> bool {
        &&& self.wf()
        &&& g.len() == self.n
        &&& forall|i: int, j: int|
            0 <= i < self.n && 0 <= j < self.n ==> #[trigger] self.shortest_path@[i]@[j] == distance(
                g,
                i,
                j,
            )
        &&& self.distance_total == total_distance(g)
        &&& forall|d: int|
            0 <= d < self.n ==> #[trigger] self.distance_histogram@[d] == pairs_at_distance(g, d)
        &&& forall|i: int| 0 <= i < self.n ==> #[trigger] self.closeness_sum@[i] == closeness_sum(g, i)
        &&& forall|i: int| 0 <= i < self.n ==> #[trigger] self.path_sum@[i] == closeness_sum(g, i)
        &&& forall|i: int|
            0 <= i < self.n ==> #[trigger] self.path_square_sum@[i] == square_sum(g, i)
        &&& forall|i: int| 0 <= i < self.n ==> #[trigger] self.triangles@[i] == triangles_at(g, i)
        &&& forall|i: int| 0 <= i < self.n ==> #[trigger] self.degree@[i] == degree_of(g, i)
    }
}

/// Two analyzers that have looked at the same relation hold the same
/// statistics: the statistics depend on the relation alone.
pub proof fn law_metrics_deterministic(a: &NetworkAnalyzer, b: &NetworkAnalyzer, g: Seq<Seq<bool>>)
    requires
        a.describes(g),
        b.describes(g),
    ensures
        a.n == b.n,
        a.distance_total == b.distance_total,
        a.distance_histogram@ == b.distance_histogram@,
        a.closeness_sum@ == b.closeness_sum@,
        a.path_sum@ == b.path_sum@,
        a.path_square_sum@ == b.path_square_sum@,
        a.triangles@ == b.triangles@,
        a.degree@ == b.degree@,
        a.shortest_path@.len() == b.shortest_path@.len(),
        forall|i: int| 0 <= i < a.n ==> (#[trigger] a.shortest_path@[i])@ == b.shortest_path@[i]@,
{
    assert(a.distance_histogram@ =~= b.distance_histogram@);
    assert(a.closeness_sum@ =~= b.closeness_sum@);
    assert(a.path_sum@ =~= b.path_sum@);
    assert(a.path_square_sum@ =~= b.path_square_sum@);
    assert(a.triangles@ =~= b.triangles@);
    assert(a.degree@ =~= b.degree@);
    assert forall|i: int| 0 <= i < a.n implies (#[trigger] a.shortest_path@[i])@ == b.shortest_path@[i]@ by {
        assert(a.shortest_path@[i]@.len() == b.shortest_path@[i]@.len());
        assert forall|j: int| 0 <= j < a.n implies a.shortest_path@[i]@[j] == b.shortest_path@[i]@[j] by {
            assert(a.shortest_path@[i]@[j] == distance(g, i, j));
            assert(b.shortest_path@[i]@[j] == distance(g, i, j));
        }
        assert(a.shortest_path@[i]@ =~= b.shortest_path@[i]@);
    }
}

/// The table of distances that describes a symmetric relation is symmetric,
/// and holds zero for every node to itself.
pub proof fn law_distances_symmetric(a: &NetworkAnalyzer, g: Seq<Seq<bool>>, i: int, j: int)
    requires
        a.describes(g),
        is_symmetric(g),
        0 <= i < a.n,
        0 <= j < a.n,
    ensures
        a.shortest_path@[i]@[j] == a.shortest_path@[j]@[i],
        a.shortest_path@[i]@[i] == 0,
{
    law_distance_symmetric(g, i, j);
    lemma_distance_to_self(g, i);
    assert(a.shortest_path@[i]@[j] == distance(g, i, j));
    assert(a.shortest_path@[j]@[i] == distance(g, j, i));
    assert(a.shortest_path@[i]@[i] == distance(g, i, i));
}

/// `n` entries, each zero.
fn zeros(n: usize) -> (v: Vec<u64>)
    ensures
        v@.len() == n,
        forall|i: int| 0 <= i < n ==> #[trigger] v@[i] == 0,
{
    let mut v: Vec<u64> = Vec::new();
    let mut i: usize = 0;
    while i < n
        invariant
            i <= n,
            v@.len() == i,
            forall|k: int| 0 <= k < i ==> #[trigger] v@[k] == 0,
        decreases n - i,
    {
        v.push(0);
        i += 1;
    }
    v
}

/// The three sums of distances that start at node `i`: to all nodes, to the
/// later nodes, and of the squares to all nodes.
fn distance_sums_from(paths: &Vec<Vec<i64>>, i: usize, Ghost(g): Ghost<Seq<Seq<bool>>>) -> (sums: (
    u64,
    u64,
    u64,
))
    requires
        paths@.len() <= MAX_NODES,
        g.len() == paths@.len(),
        i < paths@.len(),
        paths@[i as int]@.len() == paths@.len(),
        forall|t: int|
            0 <= t < paths@.len() ==> #[trigger] paths@[i as int]@[t] == distance(g, i as int, t),
        forall|t: int| 0 <= t < paths@.len() ==> -1 <= #[trigger] paths@[i as int]@[t] < paths@.len(),
    ensures
        sums.0 == closeness_sum(g, i as int),
        sums.1 == upper_distance_sum(g, i as int),
        sums.2 == square_sum(g, i as int),
        sums.0 <= 1048576,
        sums.1 <= 1048576,
        sums.2 <= 1073741824,
{
    let n = paths.len();
    let row = &paths[i];
    let mut all: u64 = 0;
    let mut upper: u64 = 0;
    let mut square: u64 = 0;
    let mut j: usize = 0;
    while j < n
        invariant
            j <= n,
            n == paths@.len(),
            n <= 1024,
            n == g.len(),
            i < n,
            row == &paths@[i as int],
            row@.len() == n,
            forall|t: int| 0 <= t < n ==> #[trigger] row@[t] == distance(g, i as int, t),
            forall|t: int| 0 <= t < n ==> -1 <= #[trigger] row@[t] < n,
            all == sum_to(closeness_term(g, i as int), j as int),
            upper == sum_to(upper_term(g, i as int), j as int),
            square == sum_to(square_term(g, i as int), j as int),
            all <= j * 1024,
            upper <= j * 1024,
            square <= j * 1048576,
        decreases n - j,
    {
        let d = row[j];
        assert(d == distance(g, i as int, j as int));
        if d > 0 {
            let step: u64 = d as u64;
            assert(step * step <= 1048576) by (nonlinear_arith)
                requires
                    0 <= step <= 1024,
            ;
            all = all + step;
            square = square + step * step;
            if i < j {
                upper = upper + step;
            }
        }
        j += 1;
    }
    (all, upper, square)
}

/// For every distance below the population size, the number of unordered
/// pairs of nodes that far apart.
fn count_pairs_by_distance(paths: &Vec<Vec<i64>>, Ghost(g): Ghost<Seq<Seq<bool>>>) -> (histogram: Vec<
    u64,
>)
    requires
        paths@.len() <= MAX_NODES,
        g.len() == paths@.len(),
        forall|s: int| 0 <= s < paths@.len() ==> (#[trigger] paths@[s])@.len() == paths@.len(),
        forall|s: int, t: int|
            0 <= s < paths@.len() && 0 <= t < paths@.len() ==> #[trigger] paths@[s]@[t] == distance(
                g,
                s,
                t,
            ),
        forall|s: int, t: int|
            0 <= s < paths@.len() && 0 <= t < paths@.len() ==> -1 <= #[trigger] paths@[s]@[t]
                < paths@.len(),
    ensures
        histogram@.len() == paths@.len(),
        forall|d: int| 0 <= d < histogram@.len() ==> #[trigger] histogram@[d] == pairs_at_distance(g, d),
{
    let n = paths.len();
    let mut histogram = zeros(n);
    let mut i: usize = 0;
    while i < n
        invariant
            i <= n,
            n == paths@.len(),
            n <= 1024,
            n == g.len(),
            histogram@.len() == n,
            forall|s: int| 0 <= s < n ==> (#[trigger] paths@[s])@.len() == n,
            forall|s: int, t: int|
                0 <= s < n && 0 <= t < n ==> #[trigger] paths@[s]@[t] == distance(g, s, t),
            forall|s: int, t: int| 0 <= s < n && 0 <= t < n ==> -1 <= #[trigger] paths@[s]@[t] < n,
            forall|d: int|
                0 <= d < n ==> #[trigger] histogram@[d] == sum_to(pairs_at_row(g, d), i as int),
            forall|d: int| 0 <= d < n ==> #[trigger] histogram@[d] <= i * 1024,
        decreases n - i,
    {
        let row = &paths[i];
        let ghost start = histogram@;
        let mut j: usize = 0;
        while j < n
            invariant
                j <= n,
                i < n,
                n == paths@.len(),
                n <= 1024,
                n == g.len(),
                histogram@.len() == n,
                start.len() == n,
                row == &paths@[i as int],
                row@.len() == n,
                forall|t: int| 0 <= t < n ==> #[trigger] row@[t] == distance(g, i as int, t),
                forall|t: int| 0 <= t < n ==> -1 <= #[trigger] row@[t] < n,
                forall|d: int| 0 <= d < n ==> #[trigger] start[d] <= i * 1024,
                forall|d: int|
                    0 <= d < n ==> #[trigger] histogram@[d] == start[d] + sum_to(
                        pairs_at_term(g, i as int, d),
                        j as int,
                    ),
                forall|d: int| 0 <= d < n ==> #[trigger] histogram@[d] <= start[d] + j,
            decreases n - j,
        {
            let d = row[j];
            assert(d == distance(g, i as int, j as int));
            if i < j && d >= 0 {
                let slot: usize = d as usize;
                let ghost before = histogram@;
                histogram[slot] = histogram[slot] + 1;
                assert forall|e: int| 0 <= e < n implies #[trigger] histogram@[e] == start[e] + sum_to(
                    pairs_at_term(g, i as int, e),
                    j + 1,
                ) by {
                    assert(before[e] == start[e] + sum_to(pairs_at_term(g, i as int, e), j as int));
                }
            } else {
                assert forall|e: int| 0 <= e < n implies #[trigger] histogram@[e] == start[e] + sum_to(
                    pairs_at_term(g, i as int, e),
                    j + 1,
                ) by {}
            }
            j += 1;
        }
        i += 1;
    }
    histogram
}

/// The number of unordered pairs of neighbours of `i` that are linked to each
/// other.
fn count_triangles_at(network: &Vec<Vec<bool>>, i: usize) -> (count: u64)
    requires
        network@.len() <= MAX_NODES,
        is_square(grid(network), network@.len() as int),
        i < network@.len(),
    ensures
        count == triangles_at(grid(network), i as int),
{
    let n = network.len();
    let ghost g = grid(network);
    let mut count: u64 = 0;
    let mut j: usize = 0;
    while j < n
        invariant
            j <= n,
            i < n,
            n == network@.len(),
            n <= 1024,
            g == grid(network),
            is_square(g, n as int),
            count == sum_to(triangle_outer(g, i as int), j as int),
            count <= j * 1024,
        decreases n - j,
    {
        assert(g[i as int].len() == n);
        assert(g[j as int].len() == n);
        if network[i][j] {
            let mut inner: u64 = 0;
            let mut k: usize = j + 1;
            proof {
                let f = triangle_inner(g, i as int, j as int);
                assert forall|x: int| 0 <= x < j + 1 implies 0 <= #[trigger] f(x) <= 0 by {}
                lemma_sum_bounds(f, j + 1, 0, 0);
            }
            while k < n
                invariant
                    j < k <= n,
                    i < n,
                    n == network@.len(),
                    n <= 1024,
                    g == grid(network),
                    is_square(g, n as int),
                    inner == sum_to(triangle_inner(g, i as int, j as int), k as int),
                    inner <= k,
                decreases n - k,
            {
                assert(g[i as int].len() == n);
                assert(g[j as int].len() == n);
                if network[i][k] && network[j][k] {
                    inner = inner + 1;
                }
                k += 1;
            }
            count = count + inner;
        }
        j += 1;
    }
    count
}

/// The number of cells of row `i` that hold.
fn count_neighbours(network: &Vec<Vec<bool>>, i: usize) -> (count: usize)
    requires
        is_square(grid(network), network@.len() as int),
        i < network@.len(),
    ensures
        count == degree_of(grid(network), i as int),
        count <= network@.len(),
{
    let n = network.len();
    let ghost g = grid(network);
    let mut count: usize = 0;
    let mut j: usize = 0;
    assert(g[i as int].len() == n);
    while j < n
        invariant
            j <= n,
            i < n,
            n == network@.len(),
            g == grid(network),
            g[i as int].len() == n,
            count == sum_to(indicator(g[i as int]), j as int),
            count <= j,
        decreases n - j,
    {
        if network[i][j] {
            count = count + 1;
        }
        j += 1;
    }
    count
}

impl NetworkAnalyzer {
    /// An analyzer for `n` nodes that has looked at no network yet: every
    /// distance is `-1` and every count is zero.
    pub fn new(n: usize) -> (analyzer: NetworkAnalyzer)
        requires
            n <= MAX_NODES,
        ensures
            analyzer.wf(),
            analyzer.n == n,
            analyzer.distance_total == 0,
            forall|i: int, j: int|
                0 <= i < n && 0 <= j < n ==> #[trigger] analyzer.shortest_path@[i]@[j] == -1,
            forall|i: int|
                0 <= i < n ==> {
                    &&& #[trigger] analyzer.distance_histogram@[i] == 0
                    &&& analyzer.closeness_sum@[i] == 0
                    &&& analyzer.path_sum@[i] == 0
                    &&& analyzer.path_square_sum@[i] == 0
                    &&& analyzer.triangles@[i] == 0
                    &&& analyzer.degree@[i] == 0
                },
    {
        let mut shortest_path: Vec<Vec<i64>> = Vec::new();
        let mut degree: Vec<usize> = Vec::new();
        let mut i: usize = 0;
        while i < n
            invariant
                i <= n,
                shortest_path@.len() == i,
                degree@.len() == i,
                forall|r: int| 0 <= r < i ==> (#[trigger] shortest_path@[r])@.len() == n,
                forall|r: int, c: int| 0 <= r < i && 0 <= c < n ==> #[trigger] shortest_path@[r]@[c] == -1,
                forall|r: int| 0 <= r < i ==> #[trigger] degree@[r] == 0,
            decreases n - i,
        {
            let mut row: Vec<i64> = Vec::new();
            let mut j: usize = 0;
            while j < n
                invariant
                    j <= n,
                    row@.len() == j,
                    forall|c: int| 0 <= c < j ==> #[trigger] row@[c] == -1,
                decreases n - j,
            {
                row.push(-1);
                j += 1;
            }
            shortest_path.push(row);
            degree.push(0);
            i += 1;
        }
        NetworkAnalyzer {
            n,
            shortest_path,
            distance_total: 0,
            distance_histogram: zeros(n),
            closeness_sum: zeros(n),
            path_sum: zeros(n),
            path_square_sum: zeros(n),
            triangles: zeros(n),
            degree,
        }
    }

    /// Recomputes the table of distances from `network`.
    pub fn set_shortest_path(&mut self, network: &Vec<Vec<bool>>)
        requires
            old(self).wf(),
            is_square(grid(network), old(self).n as int),
        ensures
            final(self).wf(),
            forall|i: int, j: int|
                0 <= i < old(self).n && 0 <= j < old(self).n ==> #[trigger] final(self).shortest_path@[i]@[j] == distance(grid(network), i, j),
            *final(self) == (NetworkAnalyzer { shortest_path: final(self).shortest_path, ..*old(self) }),
    {
        self.shortest_path = all_distances(network);
    }

    /// Recomputes every statistic from `network`. A relation that is not
    /// symmetric, has a self-loop or is not over the analyzer's population is
    /// refused, and the analyzer keeps what it held.
    pub fn set_network_metrics(&mut self, network: &Vec<Vec<bool>>) -> (done: Result<
        (),
        SimulationError,
    >)
        requires
            old(self).wf(),
        ensures
            final(self).wf(),
            final(self).n == old(self).n,
            done is Ok <==> is_tie_relation(grid(network), old(self).n as int),
            done is Ok ==> final(self).describes(grid(network)),
            done is Err ==> done == Err::<(), SimulationError>(SimulationError::MalformedRelation)
                && *final(self) == *old(self),
    {
        let n = self.n;
        if !check_tie_relation(network, n) {
            return Err(SimulationError::MalformedRelation);
        }
        let ghost g = grid(network);
        let paths = all_distances(network);
        let histogram = count_pairs_by_distance(&paths, Ghost(g));
        let mut closeness: Vec<u64> = Vec::new();
        let mut path_sum: Vec<u64> = Vec::new();
        let mut path_square_sum: Vec<u64> = Vec::new();
        let mut triangles: Vec<u64> = Vec::new();
        let mut degree: Vec<usize> = Vec::new();
        let mut total: u64 = 0;
        let mut i: usize = 0;
        while i < n
            invariant
                i <= n,
                n <= 1024,
                n == network@.len(),
                n == paths@.len(),
                g == grid(network),
                is_square(g, n as int),
                forall|s: int| 0 <= s < n ==> (#[trigger] paths@[s])@.len() == n,
                forall|s: int, t: int|
                    0 <= s < n && 0 <= t < n ==> #[trigger] paths@[s]@[t] == distance(g, s, t),
                forall|s: int, t: int| 0 <= s < n && 0 <= t < n ==> -1 <= #[trigger] paths@[s]@[t] < n,
                closeness@.len() == i,
                path_sum@.len() == i,
                path_square_sum@.len() == i,
                triangles@.len() == i,
                degree@.len() == i,
                total == sum_to(upper_distance_sums(g), i as int),
                total <= i * 1048576,
                forall|k: int| 0 <= k < i ==> #[trigger] closeness@[k] == closeness_sum(g, k),
                forall|k: int| 0 <= k < i ==> #[trigger] path_sum@[k] == closeness_sum(g, k),
                forall|k: int| 0 <= k < i ==> #[trigger] path_square_sum@[k] == square_sum(g, k),
                forall|k: int| 0 <= k < i ==> #[trigger] triangles@[k] == triangles_at(g, k),
                forall|k: int| 0 <= k < i ==> #[trigger] degree@[k] == degree_of(g, k),
            decreases n - i,
        {
            let sums = distance_sums_from(&paths, i, Ghost(g));
            closeness.push(sums.0);
            path_sum.push(sums.0);
            path_square_sum.push(sums.2);
            triangles.push(count_triangles_at(network, i));
            degree.push(count_neighbours(network, i));
            total = total + sums.1;
            i += 1;
        }
        self.shortest_path = paths;
        self.distance_total = total;
        self.distance_histogram = histogram;
        self.closeness_sum = closeness;
        self.path_sum = path_sum;
        self.path_square_sum = path_square_sum;
        self.triangles = triangles;
        self.degree = degree;
        Ok(())
    }
}

} // verus!
