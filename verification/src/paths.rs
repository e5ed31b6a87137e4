use crate::relation::{degree_of, grid, indicator, is_square, is_symmetric, linked};
use crate::sums::{lemma_sum_bounds, lemma_sum_change_one, sum_to};
use std::collections::VecDeque;
use vstd::prelude::*;

verus! {

/// There is a walk of exactly `k` ties from `s` to `t`.
pub open spec fn walk_exists(g: Seq<Seq<bool>>, s: int, t: int, k: nat) -> bool
    decreases k,
{
    if k == 0 {
        s == t
    } else {
        exists|u: int| walk_exists(g, s, u, (k - 1) as nat) && #[trigger] linked(g, u, t)
    }
}

/// Some walk leads from `s` to `t`.
pub open spec fn connected(g: Seq<Seq<bool>>, s: int, t: int) -> bool {
    exists|k: nat| walk_exists(g, s, t, k)
}

/// A walk of `k` ties leads from `s` to `t`, and no shorter one does.
pub open spec fn is_shortest(g: Seq<Seq<bool>>, s: int, t: int, k: nat) -> bool {
    walk_exists(g, s, t, k) && forall|j: nat| j < k ==> !walk_exists(g, s, t, j)
}

/// The number of ties on a shortest walk from `s` to `t`, or `-1` where no
/// walk leads from `s` to `t`.
pub open spec fn distance(g: Seq<Seq<bool>>, s: int, t: int) -> int {
    if connected(g, s, t) {
        (choose|k: nat| is_shortest(g, s, t, k)) as int
    } else {
        -1
    }
}

pub proof fn lemma_distance_of_shortest(g: Seq<Seq<bool>>, s: int, t: int, k: nat)
    requires
        is_shortest(g, s, t, k),
    ensures
        distance(g, s, t) == k,
{
    assert(connected(g, s, t));
    let c = choose|c: nat| is_shortest(g, s, t, c);
    assert(is_shortest(g, s, t, c));
    if c < k {
        assert(!walk_exists(g, s, t, c));
    }
    if k < c {
        assert(!walk_exists(g, s, t, k));
    }
}

pub proof fn lemma_distance_of_unreachable(g: Seq<Seq<bool>>, s: int, t: int)
    requires
        forall|k: nat| !walk_exists(g, s, t, k),
    ensures
        distance(g, s, t) == -1
{
}

/// The distance from a node to itself is zero.
pub proof fn lemma_distance_to_self(g: Seq<Seq<bool>>, s: int)
    ensures
        distance(g, s, s) == 0,
{
    assert(walk_exists(g, s, s, 0));
    lemma_distance_of_shortest(g, s, s, 0);
}

/// A walk can be lengthened at its start by a tie.
pub proof fn lemma_walk_prepend(g: Seq<Seq<bool>>, s: int, u: int, t: int, k: nat)
    requires
        linked(g, s, u),
        walk_exists(g, u, t, k),
    ensures
        walk_exists(g, s, t, k + 1),
    decreases k,
{
    if k == 0 {
        assert(walk_exists(g, s, s, 0));
        assert(linked(g, s, t));
    } else {
        let v = choose|v: int| walk_exists(g, u, v, (k - 1) as nat) && #[trigger] linked(g, v, t);
        lemma_walk_prepend(g, s, u, v, (k - 1) as nat);
        assert(linked(g, v, t));
    }
}

/// In a symmetric relation every walk can be gone backwards.
pub proof fn lemma_walk_reverse(g: Seq<Seq<bool>>, s: int, t: int, k: nat)
    requires
        is_symmetric(g),
        walk_exists(g, s, t, k),
    ensures
        walk_exists(g, t, s, k),
    decreases k,
{
    if k > 0 {
        let u = choose|u: int| walk_exists(g, s, u, (k - 1) as nat) && #[trigger] linked(g, u, t);
        lemma_walk_reverse(g, s, u, (k - 1) as nat);
        assert(linked(g, u, t));
        assert(linked(g, t, u));
        lemma_walk_prepend(g, t, u, s, (k - 1) as nat);
    }
}

/// Where a walk leads from `s` to `t`, a shortest one does, of at most the
/// same length.
pub proof fn lemma_shortest_exists(g: Seq<Seq<bool>>, s: int, t: int, k: nat) -> (d: nat)
    requires
        walk_exists(g, s, t, k),
    ensures
        d <= k,
        is_shortest(g, s, t, d),
        distance(g, s, t) == d,
    decreases k,
{
    if forall|j: nat| j < k ==> !walk_exists(g, s, t, j) {
        lemma_distance_of_shortest(g, s, t, k);
        k
    } else {
        let j = choose|j: nat| j < k && walk_exists(g, s, t, j);
        lemma_shortest_exists(g, s, t, j)
    }
}

/// In a symmetric relation the distance from `s` to `t` is the distance from
/// `t` to `s`.
pub proof fn law_distance_symmetric(g: Seq<Seq<bool>>, s: int, t: int)
    requires
        is_symmetric(g),
    ensures
        distance(g, s, t) == distance(g, t, s),
{
    if connected(g, s, t) {
        let k = choose|k: nat| walk_exists(g, s, t, k);
        let d = lemma_shortest_exists(g, s, t, k);
        lemma_walk_reverse(g, s, t, d);
        assert forall|j: nat| j < d implies !walk_exists(g, t, s, j) by {
            if walk_exists(g, t, s, j) {
                lemma_walk_reverse(g, t, s, j);
            }
        }
        lemma_distance_of_shortest(g, t, s, d);
    } else {
        assert forall|k: nat| !walk_exists(g, t, s, k) by {
            if walk_exists(g, t, s, k) {
                lemma_walk_reverse(g, t, s, k);
            }
        }
        lemma_distance_of_unreachable(g, t, s);
    }
}

/// A labelling of the nodes is closed where every node that a labelled node is
/// linked to is labelled too, with at most one more.
pub open spec fn is_closed_labelling(g: Seq<Seq<bool>>, label: Seq<i64>) -> bool {
    forall|u: int, w: int|
        0 <= u < label.len() && label[u] >= 0 && #[trigger] linked(g, u, w) ==> 0 <= w < label.len()
            && 0 <= label[w] <= label[u] + 1
}

/// Under a closed labelling that gives `s` zero, a node that a walk of `k` ties
/// reaches from `s` is labelled with at most `k`.
pub proof fn lemma_closed_labelling_bound(
    g: Seq<Seq<bool>>,
    label: Seq<i64>,
    s: int,
    t: int,
    k: nat,
)
    requires
        0 <= s < label.len(),
        label[s] == 0,
        is_closed_labelling(g, label),
        walk_exists(g, s, t, k),
    ensures
        0 <= t < label.len(),
        0 <= label[t] <= k,
    decreases k,
{
    if k > 0 {
        let u = choose|u: int| walk_exists(g, s, u, (k - 1) as nat) && #[trigger] linked(g, u, t);
        lemma_closed_labelling_bound(g, label, s, u, (k - 1) as nat);
        assert(linked(g, u, t));
    }
}

/// A closed labelling that gives `s` zero, and every labelled node a walk of
/// as many ties as its label, gives every node its distance from `s`.
pub proof fn lemma_labelling_is_distance(g: Seq<Seq<bool>>, label: Seq<i64>, s: int, t: int)
    requires
        0 <= s < label.len(),
        0 <= t < label.len(),
        label[s] == 0,
        is_closed_labelling(g, label),
        forall|v: int| 0 <= v < label.len() ==> (#[trigger] label[v]) >= -1,
        forall|v: int|
            0 <= v < label.len() && (#[trigger] label[v]) >= 0 ==> walk_exists(g, s, v, label[v] as nat),
    ensures
        label[t] == distance(g, s, t),
{
    if label[t] >= 0 {
        let d = label[t] as nat;
        assert forall|j: nat| j < d implies !walk_exists(g, s, t, j) by {
            if walk_exists(g, s, t, j) {
                lemma_closed_labelling_bound(g, label, s, t, j);
            }
        }
        lemma_distance_of_shortest(g, s, t, d);
    } else {
        assert forall|k: nat| !walk_exists(g, s, t, k) by {
            if walk_exists(g, s, t, k) {
                lemma_closed_labelling_bound(g, label, s, t, k);
            }
        }
        lemma_distance_of_unreachable(g, s, t);
    }
}

/// `adj` lists, for every node of `g` and in rising order, the nodes that it
/// is linked to.
pub open spec fn lists_neighbours(adj: &Vec<Vec<usize>>, g: Seq<Seq<bool>>) -> bool {
    &&& adj@.len() == g.len()
    &&& forall|u: int, k: int|
        0 <= u < adj@.len() && 0 <= k < adj@[u]@.len() ==> linked(g, u, #[trigger] adj@[u]@[k] as int)
    &&& forall|u: int, w: int| #[trigger] linked(g, u, w) ==> adj@[u]@.contains(w as usize)
    &&& forall|u: int, k: int, l: int|
        0 <= u < adj@.len() && 0 <= k < l < adj@[u]@.len() ==> (#[trigger] adj@[u]@[k]) < (
        #[trigger] adj@[u]@[l])
    &&& forall|u: int| 0 <= u < adj@.len() ==> (#[trigger] adj@[u])@.len() == degree_of(g, u)
}

/// The neighbours of every node, each list in rising order.
pub fn adjacency_lists(network: &Vec<Vec<bool>>) -> (adj: Vec<Vec<usize>>)
    requires
        is_square(grid(network), network@.len() as int),
    ensures
        lists_neighbours(&adj, grid(network)),
{
    let n = network.len();
    let ghost g = grid(network);
    let mut adj: Vec<Vec<usize>> = Vec::new();
    let mut i: usize = 0;
    while i < n
        invariant
            i <= n,
            n == network@.len(),
            g == grid(network),
            is_square(g, n as int),
            adj@.len() == i,
            forall|u: int, k: int|
                0 <= u < i && 0 <= k < adj@[u]@.len() ==> linked(g, u, #[trigger] adj@[u]@[k] as int),
            forall|u: int, w: int|
                0 <= u < i && #[trigger] linked(g, u, w) ==> adj@[u]@.contains(w as usize),
            forall|u: int, k: int, l: int|
                0 <= u < i && 0 <= k < l < adj@[u]@.len() ==> (#[trigger] adj@[u]@[k]) < (
                #[trigger] adj@[u]@[l]),
            forall|u: int| 0 <= u < i ==> (#[trigger] adj@[u])@.len() == degree_of(g, u),
        decreases n - i,
    {
        let mut list: Vec<usize> = Vec::new();
        let mut j: usize = 0;
        assert(g[i as int].len() == n);
        while j < n
            invariant
                j <= n,
                i < n,
                n == network@.len(),
                g == grid(network),
                g[i as int].len() == n,
                forall|k: int| 0 <= k < list@.len() ==> (#[trigger] list@[k]) < j && g[i as int][list@[k] as int],
                forall|w: int| 0 <= w < j && g[i as int][w] ==> list@.contains(w as usize),
                forall|k: int, l: int| 0 <= k < l < list@.len() ==> (#[trigger] list@[k]) < (#[trigger] list@[l]),
                list@.len() == sum_to(indicator(g[i as int]), j as int),
            decreases n - j,
        {
            let ghost before = list@;
            if network[i][j] {
                list.push(j);
                proof {
                    assert(list@[before.len() as int] == j);
                    assert forall|w: int| 0 <= w < j + 1 && g[i as int][w] implies list@.contains(
                        w as usize,
                    ) by {
                        if w < j {
                            assert(before.contains(w as usize));
                            let k = choose|k: int| 0 <= k < before.len() && before[k] == w as usize;
                            assert(list@[k] == w as usize);
                        }
                    }
                }
            } else {
                proof {
                    assert forall|w: int| 0 <= w < j + 1 && g[i as int][w] implies list@.contains(
                        w as usize,
                    ) by {}
                }
            }
            j += 1;
        }
        adj.push(list);
        proof {
            let u = i as int;
            assert forall|w: int| #[trigger] linked(g, u, w) implies adj@[u]@.contains(w as usize) by {}
        }
        i += 1;
    }
    adj
}

/// One for each node that `label` marks as reached, zero elsewhere.
pub open spec fn reached_indicator(label: Seq<i64>) -> spec_fn(int) -> int {
    |v: int| if 0 <= v < label.len() && label[v] >= 0 { 1int } else { 0int }
}

/// The distance from `s` to every node of `g`, by a breadth-first traversal
/// over the lists of neighbours. The queue holds the nodes that are reached
/// and not yet looked at; `order` remembers every node in the order in which
/// it was reached.
pub(crate) fn breadth_first_distances(adj: &Vec<Vec<usize>>, s: usize, Ghost(g): Ghost<Seq<Seq<bool>>>) -> (dist:
    Vec<i64>)
    requires
        lists_neighbours(adj, g),
        is_square(g, adj@.len() as int),
        s < adj@.len(),
        adj@.len() <= i64::MAX,
    ensures
        dist@.len() == adj@.len(),
        forall|t: int| 0 <= t < dist@.len() ==> #[trigger] dist@[t] == distance(g, s as int, t),
        forall|t: int| 0 <= t < dist@.len() ==> -1 <= #[trigger] dist@[t] < dist@.len(),
{
    let n = adj.len();
    let mut dist: Vec<i64> = Vec::new();
    let mut i: usize = 0;
    while i < n
        invariant
            i <= n,
            dist@.len() == i,
            forall|v: int| 0 <= v < i ==> #[trigger] dist@[v] == -1,
        decreases n - i,
    {
        dist.push(-1);
        i += 1;
    }
    proof {
        let f = reached_indicator(dist@);
        assert forall|v: int| 0 <= v < n implies 0 <= #[trigger] f(v) <= 0 by {}
        lemma_sum_bounds(f, n as int, 0, 0);
    }
    let ghost before = dist@;
    dist[s] = 0;
    let mut queue: VecDeque<usize> = VecDeque::new();
    queue.push_back(s);
    let ghost mut order: Seq<usize> = seq![s];
    let ghost mut place: Seq<int> = Seq::new(n as nat, |v: int| 0int);
    proof {
        lemma_sum_change_one(reached_indicator(before), reached_indicator(dist@), n as int, s as int);
        assert(walk_exists(g, s as int, s as int, 0));
    }
    let ghost mut head: int = 0;
    assert(queue@ =~= order.subrange(head, order.len() as int));
    while queue.len() > 0
        invariant
            queue@ == order.subrange(head, order.len() as int),
            0 <= head,
            n == adj@.len(),
            n <= i64::MAX,
            s < n,
            lists_neighbours(adj, g),
            is_square(g, n as int),
            dist@.len() == n,
            place.len() == n,
            head <= order.len(),
            order.len() == sum_to(reached_indicator(dist@), n as int),
            order.len() <= n,
            dist@[s as int] == 0,
            forall|v: int| 0 <= v < n ==> (#[trigger] dist@[v]) >= -1,
            forall|k: int| 0 <= k < order.len() ==> (#[trigger] order[k]) < n,
            forall|k: int| 0 <= k < order.len() ==> 0 <= dist@[(#[trigger] order[k]) as int] <= k,
            forall|v: int|
                0 <= v < n && (#[trigger] dist@[v]) >= 0 ==> 0 <= place[v] < order.len() && order[place[v]]
                    == v,
            forall|v: int|
                0 <= v < n && (#[trigger] dist@[v]) >= 0 ==> walk_exists(g, s as int, v, dist@[v] as nat),
            forall|k: int, l: int|
                0 <= k <= l < order.len() ==> dist@[(#[trigger] order[k]) as int] <= dist@[(
                #[trigger] order[l]) as int],
            forall|k: int|
                0 <= k < order.len() && head < order.len() ==> dist@[(#[trigger] order[k]) as int]
                    <= dist@[order[head] as int] + 1,
            forall|k: int, w: int|
                0 <= k < head && #[trigger] linked(g, (#[trigger] order[k]) as int, w) ==> 0 <= dist@[w]
                    <= dist@[order[k] as int] + 1,
        decreases n - head,
    {
        let v = queue.pop_front().unwrap();
        assert(v == order[head]);
        assert(queue@ =~= order.subrange(head + 1, order.len() as int));
        let dv = dist[v];
        let nbrs = &adj[v];
        let mut k: usize = 0;
        while k < nbrs.len()
            invariant
                n == adj@.len(),
                n <= i64::MAX,
                s < n,
                v < n,
                lists_neighbours(adj, g),
                is_square(g, n as int),
                nbrs == &adj@[v as int],
                k <= nbrs@.len(),
                queue@ == order.subrange(head + 1, order.len() as int),
                0 <= head,
                dist@.len() == n,
                place.len() == n,
                head < order.len(),
                v == order[head],
                dv == dist@[v as int],
                0 <= dv <= head,
                order.len() == sum_to(reached_indicator(dist@), n as int),
                order.len() <= n,
                dist@[s as int] == 0,
                forall|x: int| 0 <= x < n ==> (#[trigger] dist@[x]) >= -1,
                forall|x: int| 0 <= x < order.len() ==> (#[trigger] order[x]) < n,
                forall|x: int| 0 <= x < order.len() ==> 0 <= dist@[(#[trigger] order[x]) as int] <= x,
                forall|x: int|
                    0 <= x < n && (#[trigger] dist@[x]) >= 0 ==> 0 <= place[x] < order.len() && order[place[x]]
                        == x,
                forall|x: int|
                    0 <= x < n && (#[trigger] dist@[x]) >= 0 ==> walk_exists(
                        g,
                        s as int,
                        x,
                        dist@[x] as nat,
                    ),
                forall|x: int, l: int|
                    0 <= x <= l < order.len() ==> dist@[(#[trigger] order[x]) as int] <= dist@[(
                    #[trigger] order[l]) as int],
                forall|x: int|
                    0 <= x < order.len() ==> dist@[(#[trigger] order[x]) as int] <= dv + 1,
                forall|x: int, w: int|
                    0 <= x < head && #[trigger] linked(g, (#[trigger] order[x]) as int, w) ==> 0 <= dist@[w]
                        <= dist@[order[x] as int] + 1,
                forall|x: int| 0 <= x < k ==> 0 <= dist@[(#[trigger] nbrs@[x]) as int] <= dv + 1,
            decreases nbrs@.len() - k,
        {
            let w = nbrs[k];
            assert(linked(g, v as int, w as int));
            if dist[w] == -1 {
                let ghost old_dist = dist@;
                let ghost old_order = order;
                proof {
                    lemma_sum_change_one(
                        reached_indicator(old_dist),
                        reached_indicator(old_dist.update(w as int, (dv + 1) as i64)),
                        n as int,
                        w as int,
                    );
                    let f = reached_indicator(old_dist.update(w as int, (dv + 1) as i64));
                    assert forall|x: int| 0 <= x < n implies 0 <= #[trigger] f(x) <= 1 by {}
                    lemma_sum_bounds(f, n as int, 0, 1);
                }
                dist[w] = dv + 1;
                queue.push_back(w);
                proof {
                    order = order.push(w);
                    assert(queue@ =~= order.subrange(head + 1, order.len() as int));
                }
                proof {
                    place = place.update(w as int, old_order.len() as int);
                    assert forall|x: int| 0 <= x < order.len() implies 0 <= dist@[(
                    #[trigger] order[x]) as int] <= x by {
                        if x < old_order.len() {
                            assert(order[x] == old_order[x]);
                            assert(old_dist[old_order[x] as int] >= 0);
                        }
                    }
                    assert forall|x: int|
                        0 <= x < n && (#[trigger] dist@[x]) >= 0 implies 0 <= place[x] < order.len()
                        && order[place[x]] == x by {
                        if x != w {
                            assert(old_dist[x] >= 0);
                        }
                    }
                    assert forall|x: int|
                        0 <= x < n && (#[trigger] dist@[x]) >= 0 implies walk_exists(
                        g,
                        s as int,
                        x,
                        dist@[x] as nat,
                    ) by {
                        if x != w {
                            assert(old_dist[x] >= 0);
                        } else {
                            assert(walk_exists(g, s as int, v as int, dv as nat));
                            assert(linked(g, v as int, w as int));
                        }
                    }
                    assert forall|x: int, l: int| 0 <= x <= l < order.len() implies dist@[(
                    #[trigger] order[x]) as int] <= dist@[(#[trigger] order[l]) as int] by {
                        if x < old_order.len() {
                            assert(order[x] == old_order[x]);
                            assert(old_dist[old_order[x] as int] >= 0);
                        }
                        if l < old_order.len() {
                            assert(order[l] == old_order[l]);
                            assert(old_dist[old_order[l] as int] >= 0);
                        }
                    }
                    assert forall|x: int| 0 <= x < order.len() implies dist@[(
                    #[trigger] order[x]) as int] <= dv + 1 by {
                        if x < old_order.len() {
                            assert(order[x] == old_order[x]);
                            assert(old_dist[old_order[x] as int] >= 0);
                        }
                    }
                    assert forall|x: int, y: int|
                        0 <= x < head && #[trigger] linked(
                            g,
                            (#[trigger] order[x]) as int,
                            y,
                        ) implies 0 <= dist@[y] <= dist@[order[x] as int] + 1 by {
                        assert(order[x] == old_order[x]);
                        assert(old_dist[old_order[x] as int] >= 0);
                        assert(0 <= old_dist[y]);
                    }
                    assert forall|x: int| 0 <= x < k + 1 implies 0 <= dist@[(
                    #[trigger] nbrs@[x]) as int] <= dv + 1 by {
                        if x < k {
                            assert(0 <= old_dist[nbrs@[x] as int]);
                        }
                    }
                }
            } else {
                proof {
                    let p = place[w as int];
                    assert(order[p] == w);
                }
            }
            k += 1;
        }
        proof {
            assert forall|x: int, w: int|
                0 <= x < head + 1 && #[trigger] linked(g, (#[trigger] order[x]) as int, w) implies 0
                <= dist@[w] <= dist@[order[x] as int] + 1 by {
                if x == head {
                    assert(adj@[v as int]@.contains(w as usize));
                    let p = choose|p: int| 0 <= p < nbrs@.len() && nbrs@[p] == w as usize;
                    assert(0 <= dist@[nbrs@[p] as int] <= dv + 1);
                }
            }
            assert forall|x: int|
                0 <= x < order.len() && head + 1 < order.len() implies dist@[(
            #[trigger] order[x]) as int] <= dist@[order[head + 1] as int] + 1 by {
                assert(dist@[order[head] as int] <= dist@[order[head + 1] as int]);
            }
        }
        proof {
            head = head + 1;
        }
    }
    proof {
        assert(is_closed_labelling(g, dist@)) by {
            assert forall|u: int, w: int|
                0 <= u < dist@.len() && dist@[u] >= 0 && #[trigger] linked(g, u, w) implies 0 <= w
                < dist@.len() && 0 <= dist@[w] <= dist@[u] + 1 by {
                let p = place[u];
                assert(order[p] == u);
                assert(linked(g, order[p] as int, w));
                assert(g[u].len() == n);
            }
        }
        assert forall|t: int| 0 <= t < dist@.len() implies #[trigger] dist@[t] == distance(
            g,
            s as int,
            t,
        ) by {
            lemma_labelling_is_distance(g, dist@, s as int, t);
        }
        assert forall|t: int| 0 <= t < dist@.len() implies -1 <= #[trigger] dist@[t] < dist@.len() by {
            if dist@[t] >= 0 {
                let p = place[t];
                assert(order[p] == t);
            }
        }
    }
    dist
}

/// The distance between every two nodes of `network`: row `s` holds the
/// distances from `s`.
pub fn all_distances(network: &Vec<Vec<bool>>) -> (paths: Vec<Vec<i64>>)
    requires
        is_square(grid(network), network@.len() as int),
        network@.len() <= i64::MAX,
    ensures
        paths@.len() == network@.len(),
        forall|s: int| 0 <= s < paths@.len() ==> (#[trigger] paths@[s])@.len() == network@.len(),
        forall|s: int, t: int|
            0 <= s < paths@.len() && 0 <= t < paths@.len() ==> #[trigger] paths@[s]@[t] == distance(
                grid(network),
                s,
                t,
            ),
        forall|s: int, t: int|
            0 <= s < paths@.len() && 0 <= t < paths@.len() ==> -1 <= #[trigger] paths@[s]@[t]
                < paths@.len(),
{
    let n = network.len();
    let ghost g = grid(network);
    let adj = adjacency_lists(network);
    let mut paths: Vec<Vec<i64>> = Vec::new();
    let mut s: usize = 0;
    while s < n
        invariant
            s <= n,
            n == network@.len(),
            n == adj@.len(),
            n <= i64::MAX,
            g == grid(network),
            is_square(g, n as int),
            lists_neighbours(&adj, g),
            paths@.len() == s,
            forall|a: int| 0 <= a < s ==> (#[trigger] paths@[a])@.len() == n,
            forall|a: int, t: int|
                0 <= a < s && 0 <= t < n ==> #[trigger] paths@[a]@[t] == distance(g, a, t),
            forall|a: int, t: int| 0 <= a < s && 0 <= t < n ==> -1 <= #[trigger] paths@[a]@[t] < n,
        decreases n - s,
    {
        let row = breadth_first_distances(&adj, s, Ghost(g));
        paths.push(row);
        s += 1;
    }
    paths
}

} // verus!
