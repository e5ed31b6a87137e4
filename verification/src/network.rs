use crate::params::MAX_NODES;
use crate::relation::{
    copy_counters, copy_grid, degree_of, indicator, grid, is_empty_relation, is_square, is_tie_relation, lemma_row_count_bounds,
    lemma_row_count_union, lemma_row_count_update, lemma_tie_count_with_tie, lemma_with_tie_relation,
    linked, new_grid, row_count, set_tie, tie_count, with_tie,
};
use crate::sums::lemma_sum_zero;
use vstd::prelude::*;

verus! {

/// The ties of a population: all of them, split into the formal and the
/// informal ones, the mask of forbidden pairs, and for every node the
/// number of its ties of each kind.
pub struct Network {
    /// Population size.
    pub n: usize,
    /// Every tie, formal or informal.
    pub overall: Vec<Vec<bool>>,
    /// The enforced ties, which rewiring never touches.
    pub formal: Vec<Vec<bool>>,
    /// The flexible ties, which rewiring forms and breaks.
    pub informal: Vec<Vec<bool>>,
    /// The pairs between which no tie may be formed.
    pub limited: Vec<Vec<bool>>,
    /// For every node, the number of its ties.
    pub degree: Vec<usize>,
    /// For every node, the number of its formal ties.
    pub degree_formal: Vec<usize>,
    /// For every node, the number of its informal ties.
    pub degree_informal: Vec<usize>,
}

impl Network {
    /// All four relations are symmetric, without self-loops and over `n`
    /// nodes; every tie is either formal or informal, never both; and every
    /// counter equals the number of ties that its relation holds at its node.
    pub open spec fn wf(&self) -> bool {
        &&& 1 <= self.n <= MAX_NODES
        &&& is_tie_relation(grid(&self.overall), self.n as int)
        &&& is_tie_relation(grid(&self.formal), self.n as int)
        &&& is_tie_relation(grid(&self.informal), self.n as int)
        &&& is_tie_relation(grid(&self.limited), self.n as int)
        &&& forall|i: int, j: int|
            #[trigger] linked(grid(&self.overall), i, j) == (linked(grid(&self.formal), i, j) || linked(
                grid(&self.informal),
                i,
                j,
            ))
        &&& forall|i: int, j: int|
            !(#[trigger] linked(grid(&self.formal), i, j) && linked(grid(&self.informal), i, j))
        &&& self.degree@.len() == self.n
        &&& self.degree_formal@.len() == self.n
        &&& self.degree_informal@.len() == self.n
        &&& forall|i: int|
            0 <= i < self.n ==> #[trigger] self.degree@[i] == degree_of(grid(&self.overall), i)
        &&& forall|i: int|
            0 <= i < self.n ==> #[trigger] self.degree_formal@[i] == degree_of(grid(&self.formal), i)
        &&& forall|i: int|
            0 <= i < self.n ==> #[trigger] self.degree_informal@[i] == degree_of(
                grid(&self.informal),
                i,
            )
    }

    /// A new informal tie may be formed between `i` and `j`: they are two
    /// nodes that are not tied, the pair is not forbidden, and both have
    /// fewer than `cap` informal ties.
    pub open spec fn can_form(&self, cap: int, i: int, j: int) -> bool {
        &&& 0 <= i < self.n
        &&& 0 <= j < self.n
        &&& i != j
        &&& !linked(grid(&self.overall), i, j)
        &&& !linked(grid(&self.limited), i, j)
        &&& degree_of(grid(&self.informal), i) < cap
        &&& degree_of(grid(&self.informal), j) < cap
    }

    /// No new informal tie may be formed anywhere.
    pub open spec fn is_saturated(&self, cap: int) -> bool {
        forall|i: int, j: int| !#[trigger] self.can_form(cap, i, j)
    }

    /// Against `before`, no node has gained informal ties beyond `cap`, and
    /// every informal tie that is new joins two nodes that were not tied and
    /// are not a forbidden pair.
    pub open spec fn formed_within(&self, before: &Network, cap: int) -> bool {
        &&& forall|v: int|
            0 <= v < self.n ==> #[trigger] degree_of(grid(&self.informal), v) <= degree_of(
                grid(&before.informal),
                v,
            ) || degree_of(grid(&self.informal), v) <= cap
        &&& forall|i: int, j: int|
            #[trigger] linked(grid(&self.informal), i, j) && !linked(grid(&before.informal), i, j)
                ==> !linked(grid(&before.limited), i, j) && !linked(grid(&before.formal), i, j)
    }

    /// The same formal ties and the same forbidden pairs.
    pub open spec fn same_frame(&self, other: &Network) -> bool {
        &&& self.n == other.n
        &&& grid(&self.formal) == grid(&other.formal)
        &&& grid(&self.limited) == grid(&other.limited)
        &&& self.degree_formal@ == other.degree_formal@
    }

    /// The same ties of every kind and the same forbidden pairs.
    pub open spec fn same_ties(&self, other: &Network) -> bool {
        &&& self.same_frame(other)
        &&& grid(&self.overall) == grid(&other.overall)
        &&& grid(&self.informal) == grid(&other.informal)
        &&& self.degree@ == other.degree@
        &&& self.degree_informal@ == other.degree_informal@
    }
}

/// Every degree counter is the number of nodes that the node is tied to, and
/// is the sum of the formal and the informal counter.
pub proof fn law_degree_consistency(net: &Network, node: int)
    requires
        net.wf(),
        0 <= node < net.n,
    ensures
        net.degree@[node] == row_count(grid(&net.overall)[node]),
        net.degree_formal@[node] == row_count(grid(&net.formal)[node]),
        net.degree_informal@[node] == row_count(grid(&net.informal)[node]),
        net.degree@[node] == net.degree_formal@[node] + net.degree_informal@[node],
        net.degree@[node] < net.n,
{
    let o = grid(&net.overall);
    let f = grid(&net.formal);
    let i = grid(&net.informal);
    assert(o[node].len() == net.n);
    assert(f[node].len() == net.n);
    assert(i[node].len() == net.n);
    assert forall|j: int| 0 <= j < net.n implies #[trigger] o[node][j] == (f[node][j] || i[node][j]) by {
        assert(linked(o, node, j) == (linked(f, node, j) || linked(i, node, j)));
    }
    assert forall|j: int| 0 <= j < net.n implies !(#[trigger] f[node][j] && i[node][j]) by {
        assert(!(linked(f, node, j) && linked(i, node, j)));
    }
    lemma_row_count_union(f[node], i[node], o[node]);
    assert(!linked(o, node, node));
    lemma_row_count_update(o[node], node, true);
    lemma_row_count_bounds(o[node].update(node, true));
}

/// Ties run both ways, and no node is tied to itself.
pub proof fn law_relation_symmetry(net: &Network, i: int, j: int)
    requires
        net.wf(),
    ensures
        linked(grid(&net.overall), i, j) == linked(grid(&net.overall), j, i),
        linked(grid(&net.formal), i, j) == linked(grid(&net.formal), j, i),
        linked(grid(&net.informal), i, j) == linked(grid(&net.informal), j, i),
        !linked(grid(&net.overall), i, i),
{
    let o = grid(&net.overall);
    let f = grid(&net.formal);
    let g = grid(&net.informal);
    if linked(o, i, j) {
        assert(linked(o, j, i));
    }
    if linked(o, j, i) {
        assert(linked(o, i, j));
    }
    if linked(f, i, j) {
        assert(linked(f, j, i));
    }
    if linked(f, j, i) {
        assert(linked(f, i, j));
    }
    if linked(g, i, j) {
        assert(linked(g, j, i));
    }
    if linked(g, j, i) {
        assert(linked(g, i, j));
    }
}

/// `n` counters, each zero.
fn zero_counters(n: usize) -> (v: Vec<usize>)
    ensures
        v@.len() == n,
        forall|i: int| 0 <= i < n ==> #[trigger] v@[i] == 0,
{
    let mut v: Vec<usize> = Vec::new();
    let mut i: usize = 0;
    while i < n
        invariant
            i <= n,
            v@.len() == i,
            forall|k: int| 0 <= k < i ==> #[trigger] v@[k] == 0,
        decreases n - i,
    {
        v.push(0);
        i += 1;
    }
    v
}

/// In a relation that links nothing every node has the degree zero.
pub proof fn lemma_empty_degrees(g: Seq<Seq<bool>>, n: int, i: int)
    requires
        is_square(g, n),
        is_empty_relation(g),
        0 <= i < n,
    ensures
        degree_of(g, i) == 0,
{
    let f = indicator(g[i]);
    assert forall|j: int| 0 <= j < n implies #[trigger] f(j) == 0 by {
        assert(!linked(g, i, j));
    }
    lemma_sum_zero(f, n);
}

proof fn lemma_empty_is_tie_relation(g: Seq<Seq<bool>>, n: int)
    requires
        is_square(g, n),
        is_empty_relation(g),
    ensures
        is_tie_relation(g, n),
{
}

impl Network {
    /// A population of `n` nodes without any tie or forbidden pair.
    pub fn new(n: usize) -> (net: Network)
        requires
            1 <= n <= MAX_NODES,
        ensures
            net.wf(),
            net.n == n,
            is_empty_relation(grid(&net.overall)),
            is_empty_relation(grid(&net.formal)),
            is_empty_relation(grid(&net.informal)),
            is_empty_relation(grid(&net.limited)),
    {
        let net = Network {
            n,
            overall: new_grid(n),
            formal: new_grid(n),
            informal: new_grid(n),
            limited: new_grid(n),
            degree: zero_counters(n),
            degree_formal: zero_counters(n),
            degree_informal: zero_counters(n),
        };
        proof {
            lemma_empty_is_tie_relation(grid(&net.overall), n as int);
            lemma_empty_is_tie_relation(grid(&net.formal), n as int);
            lemma_empty_is_tie_relation(grid(&net.informal), n as int);
            lemma_empty_is_tie_relation(grid(&net.limited), n as int);
            assert forall|i: int| 0 <= i < n implies #[trigger] net.degree@[i] == degree_of(
                grid(&net.overall),
                i,
            ) by {
                lemma_empty_degrees(grid(&net.overall), n as int, i);
            }
            assert forall|i: int| 0 <= i < n implies #[trigger] net.degree_formal@[i] == degree_of(
                grid(&net.formal),
                i,
            ) by {
                lemma_empty_degrees(grid(&net.formal), n as int, i);
            }
            assert forall|i: int| 0 <= i < n implies #[trigger] net.degree_informal@[i] == degree_of(
                grid(&net.informal),
                i,
            ) by {
                lemma_empty_degrees(grid(&net.informal), n as int, i);
            }
        }
        net
    }

    /// A copy of the network.
    pub fn duplicate(&self) -> (copy: Network)
        requires
            self.wf(),
        ensures
            copy.wf(),
            copy.same_ties(self),
    {
        Network {
            n: self.n,
            overall: copy_grid(&self.overall),
            formal: copy_grid(&self.formal),
            informal: copy_grid(&self.informal),
            limited: copy_grid(&self.limited),
            degree: copy_counters(&self.degree),
            degree_formal: copy_counters(&self.degree_formal),
            degree_informal: copy_counters(&self.degree_informal),
        }
    }

    /// Whether `i` and `j` are tied.
    pub fn is_tied(&self, i: usize, j: usize) -> (tied: bool)
        requires
            self.wf(),
            i < self.n,
            j < self.n,
        ensures
            tied == linked(grid(&self.overall), i as int, j as int),
    {
        assert(grid(&self.overall)[i as int].len() == self.n);
        self.overall[i][j]
    }

    /// Whether `i` and `j` are tied formally.
    pub fn is_formal(&self, i: usize, j: usize) -> (tied: bool)
        requires
            self.wf(),
            i < self.n,
            j < self.n,
        ensures
            tied == linked(grid(&self.formal), i as int, j as int),
    {
        assert(grid(&self.formal)[i as int].len() == self.n);
        self.formal[i][j]
    }

    /// Whether `i` and `j` are tied informally.
    pub fn is_informal(&self, i: usize, j: usize) -> (tied: bool)
        requires
            self.wf(),
            i < self.n,
            j < self.n,
        ensures
            tied == linked(grid(&self.informal), i as int, j as int),
    {
        assert(grid(&self.informal)[i as int].len() == self.n);
        self.informal[i][j]
    }

    /// Whether a tie between `i` and `j` is forbidden.
    pub fn is_limited(&self, i: usize, j: usize) -> (forbidden: bool)
        requires
            self.wf(),
            i < self.n,
            j < self.n,
        ensures
            forbidden == linked(grid(&self.limited), i as int, j as int),
    {
        assert(grid(&self.limited)[i as int].len() == self.n);
        self.limited[i][j]
    }

    /// Whether a new informal tie may be formed between `i` and `j` when no
    /// node may have more than `cap` informal ties.
    pub fn is_eligible(&self, cap: usize, i: usize, j: usize) -> (eligible: bool)
        requires
            self.wf(),
            i < self.n,
            j < self.n,
        ensures
            eligible == self.can_form(cap as int, i as int, j as int),
    {
        i != j && !self.is_tied(i, j) && !self.is_limited(i, j) && self.degree_informal[i] < cap
            && self.degree_informal[j] < cap
    }
}

/// A node that is linked to another has a positive degree.
pub proof fn lemma_degree_positive(g: Seq<Seq<bool>>, i: int, j: int)
    requires
        linked(g, i, j),
    ensures
        1 <= degree_of(g, i) <= g[i].len(),
{
    lemma_row_count_update(g[i], j, false);
    lemma_row_count_bounds(g[i].update(j, false));
    lemma_row_count_bounds(g[i]);
}

/// What `with_tie` does to the degree of every node.
pub proof fn lemma_degrees_with_tie(g: Seq<Seq<bool>>, n: int, i: int, j: int, val: bool, k: int)
    requires
        is_tie_relation(g, n),
        0 <= i < n,
        0 <= j < n,
        i != j,
        0 <= k < n,
        linked(g, i, j) != val,
    ensures
        degree_of(with_tie(g, i, j, val), k) == degree_of(g, k) + (if k == i || k == j {
            if val {
                1int
            } else {
                -1int
            }
        } else {
            0int
        }),
        0 <= degree_of(g, k) <= n,
        (k == i || k == j) && val ==> degree_of(g, k) < n,
        (k == i || k == j) && !val ==> degree_of(g, k) > 0,
{
    let h = with_tie(g, i, j, val);
    assert(g[i].len() == n);
    assert(g[j].len() == n);
    assert(g[k].len() == n);
    lemma_row_count_bounds(g[k]);
    if linked(g, i, j) {
        assert(linked(g, j, i));
    }
    if linked(g, j, i) {
        assert(linked(g, i, j));
    }
    if k == i {
        lemma_row_count_update(g[i], j, val);
        assert(h[i] =~= g[i].update(j, val));
        lemma_row_count_bounds(h[i]);
    } else if k == j {
        lemma_row_count_update(g[j], i, val);
        assert(h[j] =~= g[j].update(i, val));
        lemma_row_count_bounds(h[j]);
    } else {
        assert(h[k] =~= g[k]);
    }
}

impl Network {
    /// Ties `i` and `j`, formally where `enforced` holds and informally where
    /// it does not.
    pub fn add_tie(&mut self, i: usize, j: usize, enforced: bool)
        requires
            old(self).wf(),
            i < old(self).n,
            j < old(self).n,
            i != j,
            !linked(grid(&old(self).overall), i as int, j as int),
        ensures
            final(self).wf(),
            final(self).n == old(self).n,
            grid(&final(self).overall) == with_tie(grid(&old(self).overall), i as int, j as int, true),
            grid(&final(self).formal) == (if enforced {
                with_tie(grid(&old(self).formal), i as int, j as int, true)
            } else {
                grid(&old(self).formal)
            }),
            grid(&final(self).informal) == (if enforced {
                grid(&old(self).informal)
            } else {
                with_tie(grid(&old(self).informal), i as int, j as int, true)
            }),
            grid(&final(self).limited) == grid(&old(self).limited),
            tie_count(grid(&final(self).overall)) == tie_count(grid(&old(self).overall)) + 1,
            tie_count(grid(&final(self).formal)) == tie_count(grid(&old(self).formal)) + (if enforced {
                1int
            } else {
                0int
            }),
            tie_count(grid(&final(self).informal)) == tie_count(grid(&old(self).informal)) + (
            if enforced {
                0int
            } else {
                1int
            }),
            !enforced ==> final(self).same_frame(old(self)),
    {
        let ghost n = self.n as int;
        let ghost o0 = grid(&self.overall);
        let ghost f0 = grid(&self.formal);
        let ghost g0 = grid(&self.informal);
        let ghost a = i as int;
        let ghost b = j as int;
        proof {
            assert(!linked(f0, a, b) && !linked(g0, a, b)) by {
                assert(linked(o0, a, b) == (linked(f0, a, b) || linked(g0, a, b)));
            }
            assert(o0[a].len() == n && o0[b].len() == n);
            assert(f0[a].len() == n && f0[b].len() == n);
            assert(g0[a].len() == n && g0[b].len() == n);
            lemma_with_tie_relation(o0, n, a, b, true);
            lemma_with_tie_relation(f0, n, a, b, true);
            lemma_with_tie_relation(g0, n, a, b, true);
            assert(!linked(o0, b, a)) by {
                if linked(o0, b, a) {
                    assert(linked(o0, a, b));
                }
            }
            assert(!linked(f0, b, a)) by {
                if linked(f0, b, a) {
                    assert(linked(f0, a, b));
                }
            }
            assert(!linked(g0, b, a)) by {
                if linked(g0, b, a) {
                    assert(linked(g0, a, b));
                }
            }
            lemma_tie_count_with_tie(o0, n, a, b, true);
            lemma_tie_count_with_tie(f0, n, a, b, true);
            lemma_tie_count_with_tie(g0, n, a, b, true);
            lemma_degrees_with_tie(o0, n, a, b, true, a);
            lemma_degrees_with_tie(o0, n, a, b, true, b);
            lemma_degrees_with_tie(f0, n, a, b, true, a);
            lemma_degrees_with_tie(f0, n, a, b, true, b);
            lemma_degrees_with_tie(g0, n, a, b, true, a);
            lemma_degrees_with_tie(g0, n, a, b, true, b);
        }
        set_tie(&mut self.overall, i, j, true);
        self.degree[i] = self.degree[i] + 1;
        self.degree[j] = self.degree[j] + 1;
        if enforced {
            set_tie(&mut self.formal, i, j, true);
            self.degree_formal[i] = self.degree_formal[i] + 1;
            self.degree_formal[j] = self.degree_formal[j] + 1;
        } else {
            set_tie(&mut self.informal, i, j, true);
            self.degree_informal[i] = self.degree_informal[i] + 1;
            self.degree_informal[j] = self.degree_informal[j] + 1;
        }
        proof {
            let o1 = grid(&self.overall);
            let f1 = grid(&self.formal);
            let g1 = grid(&self.informal);
            assert forall|x: int, y: int|
                #[trigger] linked(o1, x, y) == (linked(f1, x, y) || linked(g1, x, y)) by {
                assert(linked(o0, x, y) == (linked(f0, x, y) || linked(g0, x, y)));
            }
            assert forall|x: int, y: int| !(#[trigger] linked(f1, x, y) && linked(g1, x, y)) by {
                assert(!(linked(f0, x, y) && linked(g0, x, y)));
            }
            assert forall|k: int| 0 <= k < n implies #[trigger] self.degree@[k] == degree_of(o1, k) by {
                lemma_degrees_with_tie(o0, n, a, b, true, k);
            }
            assert forall|k: int| 0 <= k < n implies #[trigger] self.degree_formal@[k] == degree_of(
                f1,
                k,
            ) by {
                if enforced {
                    lemma_degrees_with_tie(f0, n, a, b, true, k);
                }
            }
            assert forall|k: int| 0 <= k < n implies #[trigger] self.degree_informal@[k] == degree_of(
                g1,
                k,
            ) by {
                if !enforced {
                    lemma_degrees_with_tie(g0, n, a, b, true, k);
                }
            }
        }
    }

    /// Breaks the informal tie between `i` and `j`.
    pub fn remove_informal_tie(&mut self, i: usize, j: usize)
        requires
            old(self).wf(),
            i < old(self).n,
            j < old(self).n,
            linked(grid(&old(self).informal), i as int, j as int),
        ensures
            final(self).wf(),
            final(self).same_frame(old(self)),
            grid(&final(self).overall) == with_tie(grid(&old(self).overall), i as int, j as int, false),
            grid(&final(self).informal) == with_tie(
                grid(&old(self).informal),
                i as int,
                j as int,
                false,
            ),
            tie_count(grid(&final(self).overall)) == tie_count(grid(&old(self).overall)) - 1,
            tie_count(grid(&final(self).informal)) == tie_count(grid(&old(self).informal)) - 1,
    {
        let ghost n = self.n as int;
        let ghost o0 = grid(&self.overall);
        let ghost f0 = grid(&self.formal);
        let ghost g0 = grid(&self.informal);
        let ghost a = i as int;
        let ghost b = j as int;
        proof {
            assert(linked(o0, a, b) && !linked(f0, a, b)) by {
                assert(linked(o0, a, b) == (linked(f0, a, b) || linked(g0, a, b)));
                assert(!(linked(f0, a, b) && linked(g0, a, b)));
            }
            assert(a != b) by {
                assert(!linked(g0, a, a));
            }
            assert(linked(g0, b, a));
            assert(linked(o0, b, a));
            assert(o0[a].len() == n && o0[b].len() == n);
            assert(g0[a].len() == n && g0[b].len() == n);
            lemma_with_tie_relation(o0, n, a, b, false);
            lemma_with_tie_relation(g0, n, a, b, false);
            lemma_tie_count_with_tie(o0, n, a, b, false);
            lemma_tie_count_with_tie(g0, n, a, b, false);
            lemma_degrees_with_tie(o0, n, a, b, false, a);
            lemma_degrees_with_tie(o0, n, a, b, false, b);
            lemma_degrees_with_tie(g0, n, a, b, false, a);
            lemma_degrees_with_tie(g0, n, a, b, false, b);
        }
        set_tie(&mut self.overall, i, j, false);
        set_tie(&mut self.informal, i, j, false);
        self.degree[i] = self.degree[i] - 1;
        self.degree[j] = self.degree[j] - 1;
        self.degree_informal[i] = self.degree_informal[i] - 1;
        self.degree_informal[j] = self.degree_informal[j] - 1;
        proof {
            let o1 = grid(&self.overall);
            let g1 = grid(&self.informal);
            assert forall|x: int, y: int|
                #[trigger] linked(o1, x, y) == (linked(f0, x, y) || linked(g1, x, y)) by {
                assert(linked(o0, x, y) == (linked(f0, x, y) || linked(g0, x, y)));
                if (x == a && y == b) || (x == b && y == a) {
                    assert(!linked(f0, a, b));
                    assert(!linked(f0, b, a)) by {
                        if linked(f0, b, a) {
                            assert(linked(f0, a, b));
                        }
                    }
                }
            }
            assert forall|x: int, y: int| !(#[trigger] linked(f0, x, y) && linked(g1, x, y)) by {
                assert(!(linked(f0, x, y) && linked(g0, x, y)));
            }
            assert forall|k: int| 0 <= k < n implies #[trigger] self.degree@[k] == degree_of(o1, k) by {
                lemma_degrees_with_tie(o0, n, a, b, false, k);
            }
            assert forall|k: int| 0 <= k < n implies #[trigger] self.degree_informal@[k] == degree_of(
                g1,
                k,
            ) by {
                lemma_degrees_with_tie(g0, n, a, b, false, k);
            }
        }
    }
}

} // verus!
