use crate::dyads::{is_dyad, is_dyad_list, lemma_dyad_list_length};
use crate::network::{lemma_degree_positive, Network};
use crate::relation::{degree_of, grid, linked, lemma_row_count_bounds};
use crate::roulette::{is_wheel, Weight, MAX_TICKETS, WEIGHT_SCALE};
use crate::sums::sum_to;
use vstd::prelude::*;

verus! {

pub open spec fn common_term(g: Seq<Seq<bool>>, i: int, j: int) -> spec_fn(int) -> int {
    |k: int| if linked(g, i, k) && linked(g, j, k) { 1int } else { 0int }
}

/// The number of nodes that are linked to both `i` and `j`.
pub open spec fn common_neighbours(g: Seq<Seq<bool>>, i: int, j: int) -> int {
    sum_to(common_term(g, i, j), g.len() as int)
}

pub open spec fn larger(a: int, b: int) -> int {
    if a >= b {
        a
    } else {
        b
    }
}

pub open spec fn smaller(a: int, b: int) -> int {
    if a <= b {
        a
    } else {
        b
    }
}

/// The weight that network closure gives the dyad: one more than the number
/// of common neighbours, over the larger of the two degrees, which counts
/// one more where the two are not tied.
pub open spec fn is_closure_weight(g: Seq<Seq<bool>>, i: int, j: int, w: Weight) -> bool {
    &&& w.numerator == 1 + common_neighbours(g, i, j)
    &&& w.denominator == larger(degree_of(g, i), degree_of(g, j)) + (if linked(g, i, j) {
        0int
    } else {
        1int
    })
}

/// The weight that preferential attachment gives the dyad: the smaller of
/// the two degrees.
pub open spec fn is_attachment_weight(g: Seq<Seq<bool>>, i: int, j: int, w: Weight) -> bool {
    w.numerator == smaller(degree_of(g, i), degree_of(g, j)) && w.denominator == 1
}

/// The weight of the dyad under the mechanism that `social_dynamics`
/// selects: zero for network closure, one for preferential attachment, and
/// a weight of zero under any other number.
pub open spec fn is_rewiring_weight(g: Seq<Seq<bool>>, social_dynamics: usize, i: int, j: int, w: Weight) -> bool {
    if social_dynamics == 0 {
        is_closure_weight(g, i, j, w)
    } else if social_dynamics == 1 {
        is_attachment_weight(g, i, j, w)
    } else {
        w.numerator == 0 && w.denominator == 1
    }
}

/// The tickets of the dyad under the mechanism that `social_dynamics`
/// selects.
pub open spec fn rewiring_tickets(g: Seq<Seq<bool>>, social_dynamics: usize, i: int, j: int) -> int {
    if social_dynamics == 0 {
        (1 + common_neighbours(g, i, j)) * WEIGHT_SCALE / (larger(degree_of(g, i), degree_of(g, j)) + (
        if linked(g, i, j) {
            0int
        } else {
            1int
        }))
    } else if social_dynamics == 1 {
        smaller(degree_of(g, i), degree_of(g, j)) * WEIGHT_SCALE
    } else {
        0
    }
}

impl Network {
    /// The number of nodes that are tied to both `i` and `j`.
    pub fn common_neighbours(&self, i: usize, j: usize) -> (count: usize)
        requires
            self.wf(),
            i < self.n,
            j < self.n,
        ensures
            count == common_neighbours(grid(&self.overall), i as int, j as int),
            count <= self.n,
    {
        let n = self.n;
        let ghost g = grid(&self.overall);
        let mut count: usize = 0;
        let mut k: usize = 0;
        while k < n
            invariant
                k <= n,
                n == self.n,
                i < n,
                j < n,
                self.wf(),
                g == grid(&self.overall),
                count == sum_to(common_term(g, i as int, j as int), k as int),
                count <= k,
            decreases n - k,
        {
            if self.is_tied(i, k) && self.is_tied(j, k) {
                count = count + 1;
            }
            k += 1;
        }
        count
    }

    /// The weight that network closure gives the dyad of `focal` and
    /// `target`.
    pub fn get_rewiring_weight_network_closure(&self, focal: usize, target: usize) -> (w: Weight)
        requires
            self.wf(),
            focal < self.n,
            target < self.n,
        ensures
            is_closure_weight(grid(&self.overall), focal as int, target as int, w),
            w.wf(),
    {
        let common = self.common_neighbours(focal, target);
        let tied = self.is_tied(focal, target);
        let df = self.degree[focal];
        let dt = self.degree[target];
        proof {
            let g = grid(&self.overall);
            assert(g[focal as int].len() == self.n && g[target as int].len() == self.n);
            lemma_row_count_bounds(g[focal as int]);
            lemma_row_count_bounds(g[target as int]);
            if tied {
                lemma_degree_positive(g, focal as int, target as int);
            }
        }
        let top = if df >= dt { df } else { dt };
        let extra: usize = if tied { 0 } else { 1 };
        Weight { numerator: (1 + common) as u64, denominator: (top + extra) as u64 }
    }

    /// The weight that preferential attachment gives the dyad of `focal` and
    /// `target`.
    pub fn get_rewiring_weight_preferential_attachment(&self, focal: usize, target: usize) -> (w:
        Weight)
        requires
            self.wf(),
            focal < self.n,
            target < self.n,
        ensures
            is_attachment_weight(grid(&self.overall), focal as int, target as int, w),
            w.wf(),
    {
        let df = self.degree[focal];
        let dt = self.degree[target];
        proof {
            let g = grid(&self.overall);
            assert(g[focal as int].len() == self.n && g[target as int].len() == self.n);
            lemma_row_count_bounds(g[focal as int]);
            lemma_row_count_bounds(g[target as int]);
        }
        let low = if df <= dt { df } else { dt };
        Weight { numerator: low as u64, denominator: 1 }
    }

    /// The weight of the dyad of `focal` and `target` under the mechanism
    /// that `social_dynamics` selects.
    pub fn get_rewiring_weight(&self, social_dynamics: usize, focal: usize, target: usize) -> (w:
        Weight)
        requires
            self.wf(),
            focal < self.n,
            target < self.n,
        ensures
            is_rewiring_weight(grid(&self.overall), social_dynamics, focal as int, target as int, w),
            w.wf(),
            w.spec_tickets() == rewiring_tickets(
                grid(&self.overall),
                social_dynamics,
                focal as int,
                target as int,
            ),
    {
        if social_dynamics == 0 {
            self.get_rewiring_weight_network_closure(focal, target)
        } else if social_dynamics == 1 {
            self.get_rewiring_weight_preferential_attachment(focal, target)
        } else {
            let w = Weight { numerator: 0, denominator: 1 };
            w
        }
    }
}

/// What entry `d` of the wheel of tie formation holds: the tickets of the
/// dyad where a tie may be formed, nothing elsewhere.
pub open spec fn formation_entry(net: &Network, social_dynamics: usize, cap: int, d: (usize, usize)) -> int {
    if net.can_form(cap, d.0 as int, d.1 as int) {
        rewiring_tickets(grid(&net.overall), social_dynamics, d.0 as int, d.1 as int)
    } else {
        0
    }
}

/// What entry `d` of the wheel of tie breaking holds before the weights are
/// turned round: the tickets of the dyad where it is an informal tie, nothing
/// elsewhere.
pub open spec fn breaking_entry(net: &Network, social_dynamics: usize, d: (usize, usize)) -> int {
    if linked(grid(&net.informal), d.0 as int, d.1 as int) {
        rewiring_tickets(grid(&net.overall), social_dynamics, d.0 as int, d.1 as int)
    } else {
        0
    }
}

/// For every dyad of the list, its tickets for tie formation.
pub fn formation_wheel(net: &Network, dyads: &Vec<(usize, usize)>, social_dynamics: usize, cap: usize) -> (wheel:
    Vec<u64>)
    requires
        net.wf(),
        is_dyad_list(dyads@, net.n as int),
    ensures
        wheel@.len() == dyads@.len(),
        is_wheel(wheel@),
        forall|k: int|
            0 <= k < wheel@.len() ==> #[trigger] wheel@[k] == formation_entry(
                net,
                social_dynamics,
                cap as int,
                dyads@[k],
            ),
{
    let len = dyads.len();
    let mut wheel: Vec<u64> = Vec::new();
    let mut k: usize = 0;
    proof {
        lemma_dyad_list_length(dyads@, net.n as int);
    }
    while k < len
        invariant
            k <= len,
            len == dyads@.len(),
            len <= 523776,
            net.wf(),
            is_dyad_list(dyads@, net.n as int),
            wheel@.len() == k,
            forall|x: int| 0 <= x < k ==> #[trigger] wheel@[x] <= MAX_TICKETS,
            forall|x: int|
                0 <= x < k ==> #[trigger] wheel@[x] == formation_entry(
                    net,
                    social_dynamics,
                    cap as int,
                    dyads@[x],
                ),
        decreases len - k,
    {
        let d = dyads[k];
        assert(is_dyad(net.n as int, dyads@[k as int]));
        if net.is_eligible(cap, d.0, d.1) {
            let w = net.get_rewiring_weight(social_dynamics, d.0, d.1);
            wheel.push(w.tickets());
        } else {
            wheel.push(0);
        }
        k += 1;
    }
    wheel
}

/// For every dyad of the list, one ticket where a tie may be formed.
pub fn eligibility_wheel(net: &Network, dyads: &Vec<(usize, usize)>, cap: usize) -> (wheel: Vec<u64>)
    requires
        net.wf(),
        is_dyad_list(dyads@, net.n as int),
    ensures
        wheel@.len() == dyads@.len(),
        is_wheel(wheel@),
        forall|k: int|
            0 <= k < wheel@.len() ==> #[trigger] wheel@[k] == (if net.can_form(
                cap as int,
                dyads@[k].0 as int,
                dyads@[k].1 as int,
            ) {
                1int
            } else {
                0int
            }),
{
    let len = dyads.len();
    let mut wheel: Vec<u64> = Vec::new();
    let mut k: usize = 0;
    proof {
        lemma_dyad_list_length(dyads@, net.n as int);
    }
    while k < len
        invariant
            k <= len,
            len == dyads@.len(),
            len <= 523776,
            net.wf(),
            is_dyad_list(dyads@, net.n as int),
            wheel@.len() == k,
            forall|x: int| 0 <= x < k ==> #[trigger] wheel@[x] <= 1,
            forall|x: int|
                0 <= x < k ==> #[trigger] wheel@[x] == (if net.can_form(
                    cap as int,
                    dyads@[x].0 as int,
                    dyads@[x].1 as int,
                ) {
                    1int
                } else {
                    0int
                }),
        decreases len - k,
    {
        let d = dyads[k];
        assert(is_dyad(net.n as int, dyads@[k as int]));
        if net.is_eligible(cap, d.0, d.1) {
            wheel.push(1);
        } else {
            wheel.push(0);
        }
        k += 1;
    }
    wheel
}

/// The largest of the first `k` entries; zero where there is none.
pub open spec fn largest_before(wheel: Seq<u64>, k: int) -> int
    decreases k,
{
    if k <= 0 {
        0
    } else {
        larger(largest_before(wheel, k - 1), wheel[k - 1] as int)
    }
}

/// The largest entry of the wheel; zero where it has none.
pub open spec fn largest_entry(wheel: Seq<u64>) -> int {
    largest_before(wheel, wheel.len() as int)
}

pub proof fn lemma_largest_bounds(wheel: Seq<u64>, k: int, x: int)
    requires
        0 <= x < k <= wheel.len(),
    ensures
        wheel[x] <= largest_before(wheel, k),
    decreases k,
{
    if x < k - 1 {
        lemma_largest_bounds(wheel, k - 1, x);
    }
}

/// For every dyad of the list, its tickets where it is an informal tie.
pub fn breaking_weights(net: &Network, dyads: &Vec<(usize, usize)>, social_dynamics: usize) -> (raw: (
    Vec<u64>,
    u64,
))
    requires
        net.wf(),
        is_dyad_list(dyads@, net.n as int),
    ensures
        raw.0@.len() == dyads@.len(),
        is_wheel(raw.0@),
        forall|k: int|
            0 <= k < raw.0@.len() ==> #[trigger] raw.0@[k] == breaking_entry(
                net,
                social_dynamics,
                dyads@[k],
            ),
        raw.1 == largest_entry(raw.0@),
{
    let len = dyads.len();
    let mut wheel: Vec<u64> = Vec::new();
    let mut top: u64 = 0;
    let mut k: usize = 0;
    proof {
        lemma_dyad_list_length(dyads@, net.n as int);
    }
    while k < len
        invariant
            k <= len,
            len == dyads@.len(),
            len <= 523776,
            net.wf(),
            is_dyad_list(dyads@, net.n as int),
            wheel@.len() == k,
            top == largest_before(wheel@, k as int),
            forall|x: int| 0 <= x < k ==> #[trigger] wheel@[x] <= MAX_TICKETS,
            forall|x: int|
                0 <= x < k ==> #[trigger] wheel@[x] == breaking_entry(net, social_dynamics, dyads@[x]),
        decreases len - k,
    {
        let d = dyads[k];
        assert(is_dyad(net.n as int, dyads@[k as int]));
        let ghost before = wheel@;
        let tickets = if net.is_informal(d.0, d.1) {
            net.get_rewiring_weight(social_dynamics, d.0, d.1).tickets()
        } else {
            0
        };
        wheel.push(tickets);
        proof {
            lemma_largest_agree(before, wheel@, k as int);
        }
        if tickets > top {
            top = tickets;
        }
        k += 1;
    }
    (wheel, top)
}

pub proof fn lemma_largest_agree(a: Seq<u64>, b: Seq<u64>, k: int)
    requires
        k <= a.len(),
        k <= b.len(),
        forall|x: int| 0 <= x < k ==> a[x] == b[x],
    ensures
        largest_before(a, k) == largest_before(b, k),
    decreases k,
{
    if k > 0 {
        lemma_largest_agree(a, b, k - 1);
    }
}

/// The wheel of tie breaking: for every informal tie, what its tickets lack
/// of the largest number of tickets.
pub fn breaking_wheel(net: &Network, dyads: &Vec<(usize, usize)>, raw: &Vec<u64>, top: u64) -> (wheel:
    Vec<u64>)
    requires
        net.wf(),
        is_dyad_list(dyads@, net.n as int),
        raw@.len() == dyads@.len(),
        is_wheel(raw@),
        top == largest_entry(raw@),
    ensures
        wheel@.len() == dyads@.len(),
        is_wheel(wheel@),
        forall|k: int|
            0 <= k < wheel@.len() ==> #[trigger] wheel@[k] == (if linked(
                grid(&net.informal),
                dyads@[k].0 as int,
                dyads@[k].1 as int,
            ) {
                top - raw@[k]
            } else {
                0int
            }),
{
    let len = dyads.len();
    let mut wheel: Vec<u64> = Vec::new();
    let mut k: usize = 0;
    while k < len
        invariant
            k <= len,
            len == dyads@.len(),
            len == raw@.len(),
            net.wf(),
            is_dyad_list(dyads@, net.n as int),
            is_wheel(raw@),
            top == largest_entry(raw@),
            wheel@.len() == k,
            forall|x: int| 0 <= x < k ==> #[trigger] wheel@[x] <= MAX_TICKETS,
            forall|x: int|
                0 <= x < k ==> #[trigger] wheel@[x] == (if linked(
                    grid(&net.informal),
                    dyads@[x].0 as int,
                    dyads@[x].1 as int,
                ) {
                    top - raw@[x]
                } else {
                    0int
                }),
        decreases len - k,
    {
        let d = dyads[k];
        assert(is_dyad(net.n as int, dyads@[k as int]));
        proof {
            lemma_largest_bounds(raw@, len as int, k as int);
            lemma_top_is_entry(raw@, len as int);
        }
        if net.is_informal(d.0, d.1) {
            wheel.push(top - raw[k]);
        } else {
            wheel.push(0);
        }
        k += 1;
    }
    wheel
}

pub proof fn lemma_top_is_entry(wheel: Seq<u64>, k: int)
    requires
        0 <= k <= wheel.len(),
        is_wheel(wheel),
    ensures
        0 <= largest_before(wheel, k) <= MAX_TICKETS,
    decreases k,
{
    if k > 0 {
        lemma_top_is_entry(wheel, k - 1);
        assert(wheel[k - 1] <= MAX_TICKETS);
    }
}

/// For every dyad of the list, one ticket where it is an informal tie.
pub fn informal_wheel(net: &Network, dyads: &Vec<(usize, usize)>) -> (wheel: Vec<u64>)
    requires
        net.wf(),
        is_dyad_list(dyads@, net.n as int),
    ensures
        wheel@.len() == dyads@.len(),
        is_wheel(wheel@),
        forall|k: int|
            0 <= k < wheel@.len() ==> #[trigger] wheel@[k] == (if linked(
                grid(&net.informal),
                dyads@[k].0 as int,
                dyads@[k].1 as int,
            ) {
                1int
            } else {
                0int
            }),
{
    let len = dyads.len();
    let mut wheel: Vec<u64> = Vec::new();
    let mut k: usize = 0;
    proof {
        lemma_dyad_list_length(dyads@, net.n as int);
    }
    while k < len
        invariant
            k <= len,
            len == dyads@.len(),
            len <= 523776,
            net.wf(),
            is_dyad_list(dyads@, net.n as int),
            wheel@.len() == k,
            forall|x: int| 0 <= x < k ==> #[trigger] wheel@[x] <= 1,
            forall|x: int|
                0 <= x < k ==> #[trigger] wheel@[x] == (if linked(
                    grid(&net.informal),
                    dyads@[x].0 as int,
                    dyads@[x].1 as int,
                ) {
                    1int
                } else {
                    0int
                }),
        decreases len - k,
    {
        let d = dyads[k];
        assert(is_dyad(net.n as int, dyads@[k as int]));
        if net.is_informal(d.0, d.1) {
            wheel.push(1);
        } else {
            wheel.push(0);
        }
        k += 1;
    }
    wheel
}

} // verus!
