use crate::relation::{grid, is_tie_relation, lemma_with_tie_relation, linked, new_grid, set_tie};
use vstd::prelude::*;

verus! {

/// The node that `v` reports to, in a hierarchy where node `u` has the
/// children `u * span + 1` to `u * span + span`.
pub open spec fn parent_of(v: int, span: int) -> int {
    (v - 1) / span
}

/// The level of node `v`: one for the root, and one more than its parent's
/// for every other node.
pub open spec fn level_of_node(v: int, span: int) -> int
    decreases v,
    when span >= 1
    via level_of_node_decreases
{
    if v <= 0 {
        1
    } else {
        1 + level_of_node(parent_of(v, span), span)
    }
}

#[via_fn]
proof fn level_of_node_decreases(v: int, span: int) {
    if v > 0 {
        lemma_parent_below(v, span);
    }
}

pub proof fn lemma_parent_below(v: int, span: int)
    requires
        v >= 1,
        span >= 1,
    ensures
        0 <= parent_of(v, span) < v,
{
    assert(0 <= (v - 1) / span <= v - 1) by (nonlinear_arith)
        requires
            v >= 1,
            span >= 1,
    ;
}

/// The level of node `v` lies between one and `v + 1`.
pub proof fn lemma_level_bounds(v: int, span: int)
    requires
        v >= 0,
        span >= 1,
    ensures
        1 <= level_of_node(v, span) <= v + 1,
    decreases v,
{
    if v > 0 {
        lemma_parent_below(v, span);
        lemma_level_bounds(parent_of(v, span), span);
    }
}

/// `u` is the parent of `v`.
pub open spec fn tree_linked(n: int, span: int, u: int, v: int) -> bool {
    0 <= u < v < n && parent_of(v, span) == u
}

/// `v` is the first child of its parent.
pub open spec fn is_first_child(v: int, span: int) -> bool {
    v >= 1 && (v - 1) % span == 0
}

/// `v` is the last child of its parent among `n` nodes.
pub open spec fn is_last_child(n: int, v: int, span: int) -> bool {
    v >= 1 && (v == n - 1 || (v - 1) % span == span - 1)
}

/// `u < v` are children of one parent and stand next to each other in the
/// ring of its children.
pub open spec fn ring_linked(n: int, span: int, u: int, v: int) -> bool {
    &&& 1 <= u < v < n
    &&& parent_of(u, span) == parent_of(v, span)
    &&& (v == u + 1 || (is_first_child(u, span) && is_last_child(n, v, span)))
}

/// `u` and `v` are tied in the hierarchy of `n` nodes: one is the parent of
/// the other or, where `link_level` holds, they are neighbours in the ring of
/// their parent's children.
pub open spec fn hierarchy_linked(n: int, span: int, link_level: bool, u: int, v: int) -> bool {
    if u < v {
        tree_linked(n, span, u, v) || (link_level && ring_linked(n, span, u, v))
    } else {
        tree_linked(n, span, v, u) || (link_level && ring_linked(n, span, v, u))
    }
}

/// The ties of the hierarchy of `n` nodes as a relation.
pub open spec fn hierarchy_grid(n: int, span: int, link_level: bool) -> Seq<Seq<bool>> {
    Seq::new(
        n as nat,
        |u: int| Seq::new(n as nat, |v: int| u != v && hierarchy_linked(n, span, link_level, u, v)),
    )
}

/// The level of every node of a hierarchy of `n` nodes.
pub fn hierarchy_levels(n: usize, span: usize) -> (levels: Vec<usize>)
    requires
        span >= 1,
    ensures
        levels@.len() == n,
        forall|v: int| 0 <= v < n ==> #[trigger] levels@[v] == level_of_node(v, span as int),
{
    let mut levels: Vec<usize> = Vec::new();
    let mut v: usize = 0;
    while v < n
        invariant
            v <= n,
            span >= 1,
            levels@.len() == v,
            forall|u: int| 0 <= u < v ==> #[trigger] levels@[u] == level_of_node(u, span as int),
        decreases n - v,
    {
        if v == 0 {
            levels.push(1);
        } else {
            let parent = (v - 1) / span;
            proof {
                lemma_parent_below(v as int, span as int);
                lemma_level_bounds(parent as int, span as int);
            }
            let level = levels[parent] + 1;
            levels.push(level);
        }
        v += 1;
    }
    levels
}

/// Whether `u < v` are tied in the hierarchy of `n` nodes.
pub fn is_hierarchy_tie(n: usize, span: usize, link_level: bool, u: usize, v: usize) -> (tied: bool)
    requires
        span >= 1,
        u < v < n,
    ensures
        tied == hierarchy_linked(n as int, span as int, link_level, u as int, v as int),
{
    let parent = (v - 1) / span;
    if parent == u {
        return true;
    }
    if !link_level || u == 0 {
        return false;
    }
    if (u - 1) / span != parent {
        return false;
    }
    if v == u + 1 {
        return true;
    }
    (u - 1) % span == 0 && (v == n - 1 || (v - 1) % span == span - 1)
}

/// The ties of the hierarchy of `n` nodes.
pub fn hierarchy_relation(n: usize, span: usize, link_level: bool) -> (ties: Vec<Vec<bool>>)
    requires
        span >= 1,
    ensures
        is_tie_relation(grid(&ties), n as int),
        forall|u: int, v: int|
            #[trigger] linked(grid(&ties), u, v) == (0 <= u < n && 0 <= v < n && u != v
                && hierarchy_linked(n as int, span as int, link_level, u, v)),
        grid(&ties) == hierarchy_grid(n as int, span as int, link_level),
{
    let mut ties = new_grid(n);
    let mut u: usize = 0;
    while u < n
        invariant
            u <= n,
            span >= 1,
            is_tie_relation(grid(&ties), n as int),
            forall|a: int, b: int|
                #[trigger] linked(grid(&ties), a, b) == (0 <= a < n && 0 <= b < n && a != b && (a < u
                    || b < u) && hierarchy_linked(n as int, span as int, link_level, a, b)),
        decreases n - u,
    {
        let mut v: usize = u + 1;
        while v < n
            invariant
                u < v <= n,
                span >= 1,
                is_tie_relation(grid(&ties), n as int),
                forall|a: int, b: int|
                    #[trigger] linked(grid(&ties), a, b) == (0 <= a < n && 0 <= b < n && a != b && (a
                        < u || b < u || (a == u && b < v) || (b == u && a < v)) && hierarchy_linked(
                        n as int,
                        span as int,
                        link_level,
                        a,
                        b,
                    )),
            decreases n - v,
        {
            if is_hierarchy_tie(n, span, link_level, u, v) {
                let ghost before = grid(&ties);
                proof {
                    assert(before[u as int].len() == n && before[v as int].len() == n);
                    lemma_with_tie_relation(before, n as int, u as int, v as int, true);
                }
                set_tie(&mut ties, u, v, true);
            }
            v += 1;
        }
        u += 1;
    }
    proof {
        let g = grid(&ties);
        let h = hierarchy_grid(n as int, span as int, link_level);
        assert forall|a: int| 0 <= a < n implies g[a] =~= h[a] by {
            assert(g[a].len() == n);
            assert forall|b: int| 0 <= b < n implies g[a][b] == h[a][b] by {
                assert(linked(g, a, b) == g[a][b]);
            }
        }
        assert(g =~= h);
    }
    ties
}

/// Whether two levels are more than one apart.
pub open spec fn levels_apart(a: int, b: int) -> bool {
    a - b > 1 || b - a > 1
}

/// The pairs of nodes whose levels are more than one apart.
pub fn level_mask(levels: &Vec<usize>) -> (mask: Vec<Vec<bool>>)
    ensures
        is_tie_relation(grid(&mask), levels@.len() as int),
        forall|u: int, v: int|
            #[trigger] linked(grid(&mask), u, v) == (0 <= u < levels@.len() && 0 <= v < levels@.len()
                && levels_apart(levels@[u] as int, levels@[v] as int)),
{
    let n = levels.len();
    let mut mask = new_grid(n);
    let mut u: usize = 0;
    while u < n
        invariant
            u <= n,
            n == levels@.len(),
            is_tie_relation(grid(&mask), n as int),
            forall|a: int, b: int|
                #[trigger] linked(grid(&mask), a, b) == (0 <= a < n && 0 <= b < n && (a < u || b < u)
                    && levels_apart(levels@[a] as int, levels@[b] as int)),
        decreases n - u,
    {
        let mut v: usize = u + 1;
        while v < n
            invariant
                u < v <= n,
                n == levels@.len(),
                is_tie_relation(grid(&mask), n as int),
                forall|a: int, b: int|
                    #[trigger] linked(grid(&mask), a, b) == (0 <= a < n && 0 <= b < n && (a < u || b
                        < u || (a == u && b < v) || (b == u && a < v)) && levels_apart(
                        levels@[a] as int,
                        levels@[b] as int,
                    )),
            decreases n - v,
        {
            let a = levels[u];
            let b = levels[v];
            if (a > b && a - b > 1) || (b > a && b - a > 1) {
                let ghost before = grid(&mask);
                proof {
                    assert(before[u as int].len() == n && before[v as int].len() == n);
                    lemma_with_tie_relation(before, n as int, u as int, v as int, true);
                }
                set_tie(&mut mask, u, v, true);
            }
            v += 1;
        }
        u += 1;
    }
    mask
}

} // verus!
