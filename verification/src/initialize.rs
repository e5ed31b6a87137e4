use crate::dyads::{is_dyad, is_dyad_list, lemma_permuted_dyad_list};
use crate::network::{lemma_degrees_with_tie, Network};
use crate::rewiring::{can_form_in, has_room_for, lemma_saturated, lemma_saturated_is_complete};
use crate::params::{Probability, MAX_NODES};
use crate::random::{draw_row, flip, shuffle_pairs};
use crate::relation::{
    degree_of, grid, includes, is_empty_relation, is_tie_relation, lemma_complete_tie_count,
    lemma_with_tie_relation, linked, tie_count, with_tie,
};
use rand::rngs::ThreadRng;
use vstd::prelude::*;

verus! {

/// A network that holds exactly the ties of `skeleton`, each made formal
/// with probability `enforcement` and informal otherwise.
pub fn partition_ties(skeleton: &Vec<Vec<bool>>, enforcement: Probability, rng: &mut ThreadRng) -> (net:
    Network)
    requires
        1 <= skeleton@.len() <= MAX_NODES,
        is_tie_relation(grid(skeleton), skeleton@.len() as int),
        enforcement.wf(),
    ensures
        net.wf(),
        net.n == skeleton@.len(),
        grid(&net.overall) == grid(skeleton),
        is_empty_relation(grid(&net.limited)),
        enforcement.numerator == 0 ==> is_empty_relation(grid(&net.formal)),
        enforcement.numerator == enforcement.denominator ==> is_empty_relation(grid(&net.informal)),
{
    let n = skeleton.len();
    let ghost s = grid(skeleton);
    let mut net = Network::new(n);
    let mut i: usize = 0;
    while i < n
        invariant
            i <= n,
            n == skeleton@.len(),
            s == grid(skeleton),
            is_tie_relation(s, n as int),
            enforcement.wf(),
            net.wf(),
            net.n == n,
            is_empty_relation(grid(&net.limited)),
            enforcement.numerator == 0 ==> is_empty_relation(grid(&net.formal)),
            enforcement.numerator == enforcement.denominator ==> is_empty_relation(
                grid(&net.informal),
            ),
            forall|a: int, b: int|
                #[trigger] linked(grid(&net.overall), a, b) == (linked(s, a, b) && (a < i || b < i)),
        decreases n - i,
    {
        let mut j: usize = i + 1;
        while j < n
            invariant
                i < j <= n,
                n == skeleton@.len(),
                s == grid(skeleton),
                is_tie_relation(s, n as int),
                enforcement.wf(),
                net.wf(),
                net.n == n,
                is_empty_relation(grid(&net.limited)),
                enforcement.numerator == 0 ==> is_empty_relation(grid(&net.formal)),
                enforcement.numerator == enforcement.denominator ==> is_empty_relation(
                    grid(&net.informal),
                ),
                forall|a: int, b: int|
                    #[trigger] linked(grid(&net.overall), a, b) == (linked(s, a, b) && (a < i || b < i
                        || (a == i && b < j) || (b == i && a < j))),
            decreases n - j,
        {
            assert(s[i as int].len() == n);
            if skeleton[i][j] {
                let ghost o0 = grid(&net.overall);
                proof {
                    assert(linked(s, i as int, j as int));
                    assert(linked(s, j as int, i as int));
                    assert(!linked(o0, i as int, j as int));
                    lemma_with_tie_relation(o0, n as int, i as int, j as int, true);
                }
                let enforced = flip(rng, enforcement);
                net.add_tie(i, j, enforced);
            } else {
                proof {
                    assert(!linked(s, i as int, j as int));
                    assert(!linked(s, j as int, i as int)) by {
                        if linked(s, j as int, i as int) {
                            assert(linked(s, i as int, j as int));
                        }
                    }
                }
            }
            j += 1;
        }
        i += 1;
    }
    proof {
        let o = grid(&net.overall);
        assert forall|a: int| 0 <= a < n implies o[a] =~= s[a] by {
            assert(o[a].len() == n && s[a].len() == n);
            assert forall|b: int| 0 <= b < n implies o[a][b] == s[a][b] by {
                assert(linked(o, a, b) == o[a][b]);
                assert(linked(s, a, b) == s[a][b]);
            }
        }
        assert(o =~= s);
    }
    net
}

/// A pair that may get a tie after another pair was tied might have got one
/// before, and is not the pair that was tied.
pub proof fn lemma_can_form_after_add(
    before: &Network,
    after: &Network,
    cap: int,
    i: int,
    j: int,
    a: int,
    b: int,
)
    requires
        before.wf(),
        after.n == before.n,
        0 <= i < before.n,
        0 <= j < before.n,
        i != j,
        !linked(grid(&before.overall), i, j),
        grid(&after.overall) == with_tie(grid(&before.overall), i, j, true),
        grid(&after.limited) == grid(&before.limited),
        grid(&after.informal) == grid(&before.informal) || grid(&after.informal) == with_tie(
            grid(&before.informal),
            i,
            j,
            true,
        ),
        after.can_form(cap, a, b),
    ensures
        before.can_form(cap, a, b),
        !((a == i && b == j) || (a == j && b == i)),
{
    let n = before.n as int;
    let o0 = grid(&before.overall);
    let g0 = grid(&before.informal);
    lemma_with_tie_relation(o0, n, i, j, true);
    assert(!linked(g0, i, j)) by {
        assert(linked(o0, i, j) == (linked(grid(&before.formal), i, j) || linked(g0, i, j)));
    }
    if grid(&after.informal) != g0 {
        lemma_degrees_with_tie(g0, n, i, j, true, a);
        lemma_degrees_with_tie(g0, n, i, j, true, b);
    }
    assert(degree_of(g0, a) <= degree_of(grid(&after.informal), a));
    assert(degree_of(g0, b) <= degree_of(grid(&after.informal), b));
    assert(linked(grid(&after.overall), i, j));
    assert(linked(grid(&after.overall), j, i));
}

/// All ties, the formal ties, the informal ties, and the number of ties
/// added.
pub type ExtraState = (Seq<Seq<bool>>, Seq<Seq<bool>>, Seq<Seq<bool>>, int);

/// What one pass over the first `k` dyads of `order` makes of a network:
/// each dyad in turn is tied where a tie may be formed and fewer than `quota`
/// ties have been added; the tie is formal where the next unused entry of
/// `enforced` holds, and informal where it does not.
pub open spec fn extras_state(
    overall: Seq<Seq<bool>>,
    formal: Seq<Seq<bool>>,
    informal: Seq<Seq<bool>>,
    limited: Seq<Seq<bool>>,
    order: Seq<(usize, usize)>,
    enforced: Seq<bool>,
    cap: int,
    quota: int,
    k: int,
) -> ExtraState
    decreases k,
{
    if k <= 0 {
        (overall, formal, informal, 0)
    } else {
        let prev = extras_state(overall, formal, informal, limited, order, enforced, cap, quota, k - 1);
        let i = order[k - 1].0 as int;
        let j = order[k - 1].1 as int;
        if prev.3 < quota && can_form_in(prev.0, prev.2, limited, cap, i, j) {
            if enforced[prev.3] {
                (with_tie(prev.0, i, j, true), with_tie(prev.1, i, j, true), prev.2, prev.3 + 1)
            } else {
                (with_tie(prev.0, i, j, true), prev.1, with_tie(prev.2, i, j, true), prev.3 + 1)
            }
        } else {
            prev
        }
    }
}

/// Once the quota is met, the rest of the pass changes nothing.
pub proof fn lemma_extras_settled(
    overall: Seq<Seq<bool>>,
    formal: Seq<Seq<bool>>,
    informal: Seq<Seq<bool>>,
    limited: Seq<Seq<bool>>,
    order: Seq<(usize, usize)>,
    enforced: Seq<bool>,
    cap: int,
    quota: int,
    k: int,
    later: int,
)
    requires
        0 <= k <= later,
        extras_state(overall, formal, informal, limited, order, enforced, cap, quota, k).3 == quota,
    ensures
        extras_state(overall, formal, informal, limited, order, enforced, cap, quota, later)
            == extras_state(overall, formal, informal, limited, order, enforced, cap, quota, k),
    decreases later - k,
{
    if k < later {
        lemma_extras_settled(
            overall,
            formal,
            informal,
            limited,
            order,
            enforced,
            cap,
            quota,
            k,
            later - 1,
        );
    }
}

/// Every entry of `draws` holds.
pub open spec fn all_hold(draws: Seq<bool>) -> bool {
    forall|x: int| 0 <= x < draws.len() ==> #[trigger] draws[x]
}

/// No entry of `draws` holds.
pub open spec fn none_holds(draws: Seq<bool>) -> bool {
    forall|x: int| 0 <= x < draws.len() ==> !#[trigger] draws[x]
}

/// Every node has fewer than `cap` informal ties.
pub open spec fn all_below_cap(net: &Network, cap: int) -> bool {
    forall|v: int| 0 <= v < net.n ==> #[trigger] degree_of(grid(&net.informal), v) < cap
}

/// Where every node has fewer informal ties than the cap and no pair is
/// forbidden, a network that takes no more ties links every two nodes.
pub proof fn lemma_saturated_below_cap(net: &Network, cap: int)
    requires
        net.wf(),
        net.is_saturated(cap),
        all_below_cap(net, cap),
        is_empty_relation(grid(&net.limited)),
    ensures
        2 * tie_count(grid(&net.overall)) == net.n * (net.n - 1),
{
    let o = grid(&net.overall);
    let n = net.n as int;
    assert forall|i: int, j: int| 0 <= i < n && 0 <= j < n && i != j implies #[trigger] linked(o, i, j) by {
        if !linked(o, i, j) {
            assert(degree_of(grid(&net.informal), i) < cap);
            assert(degree_of(grid(&net.informal), j) < cap);
            assert(!linked(grid(&net.limited), i, j));
            assert(net.can_form(cap, i, j));
        }
    }
    lemma_complete_tie_count(o, n);
}

/// One pass over the dyads in the given order: each dyad in turn is tied
/// where a tie may be formed, until `quota` ties are added. The tie that is
/// added as number `a` is formal where `enforced[a]` holds and informal
/// where it does not.
pub fn place_extra_ties(
    net: &mut Network,
    order: &Vec<(usize, usize)>,
    enforced: &Vec<bool>,
    cap: usize,
    quota: usize,
) -> (added: usize)
    requires
        old(net).wf(),
        is_dyad_list(order@, old(net).n as int),
        enforced@.len() >= quota || enforced@.len() >= order@.len(),
    ensures
        final(net).wf(),
        final(net).n == old(net).n,
        grid(&final(net).limited) == grid(&old(net).limited),
        (
            grid(&final(net).overall),
            grid(&final(net).formal),
            grid(&final(net).informal),
            added as int,
        ) == extras_state(
            grid(&old(net).overall),
            grid(&old(net).formal),
            grid(&old(net).informal),
            grid(&old(net).limited),
            order@,
            enforced@,
            cap as int,
            quota as int,
            order@.len() as int,
        ),
        added <= quota,
        quota == 0 ==> final(net).same_ties(old(net)),
        includes(grid(&final(net).overall), grid(&old(net).overall)),
        tie_count(grid(&final(net).overall)) == tie_count(grid(&old(net).overall)) + added,
        none_holds(enforced@) ==> grid(&final(net).formal) == grid(&old(net).formal),
        all_hold(enforced@) ==> grid(&final(net).informal) == grid(&old(net).informal),
        quota > 0 && added < quota ==> final(net).is_saturated(cap as int),
        has_room_for(old(net), cap as int, quota as int) ==> added == quota,
        all_hold(enforced@) && all_below_cap(old(net), cap as int) && is_empty_relation(
            grid(&old(net).limited),
        ) && 2 * (quota + tie_count(grid(&old(net).overall))) <= old(net).n * (old(net).n - 1) ==> added
            == quota,
        forall|v: int|
            0 <= v < old(net).n ==> #[trigger] degree_of(grid(&final(net).informal), v) <= degree_of(
                grid(&old(net).informal),
                v,
            ) || degree_of(grid(&final(net).informal), v) <= cap,
{
    let mut added: usize = 0;
    let len = order.len();
    let ghost s0 = (grid(&net.overall), grid(&net.formal), grid(&net.informal));
    let ghost l0 = grid(&net.limited);
    let mut k: usize = 0;
    while k < len && added < quota
        invariant
            k <= len,
            len == order@.len(),
            added <= quota,
            added <= k,
            enforced@.len() >= quota || enforced@.len() >= len,
            s0 == (grid(&old(net).overall), grid(&old(net).formal), grid(&old(net).informal)),
            l0 == grid(&old(net).limited),
            net.wf(),
            net.n == old(net).n,
            is_dyad_list(order@, net.n as int),
            grid(&net.limited) == l0,
            (grid(&net.overall), grid(&net.formal), grid(&net.informal), added as int) == extras_state(
                s0.0,
                s0.1,
                s0.2,
                l0,
                order@,
                enforced@,
                cap as int,
                quota as int,
                k as int,
            ),
            added == 0 ==> net.same_ties(old(net)),
            includes(grid(&net.overall), grid(&old(net).overall)),
            tie_count(grid(&net.overall)) == tie_count(grid(&old(net).overall)) + added,
            none_holds(enforced@) ==> grid(&net.formal) == grid(&old(net).formal),
            all_hold(enforced@) ==> grid(&net.informal) == grid(&old(net).informal),
            forall|x: int|
                0 <= x < k ==> !net.can_form(cap as int, (#[trigger] order@[x]).0 as int, order@[x].1 as int),
            forall|v: int|
                0 <= v < net.n ==> #[trigger] degree_of(grid(&net.informal), v) <= degree_of(
                    grid(&old(net).informal),
                    v,
                ) || degree_of(grid(&net.informal), v) <= cap,
        decreases len - k,
    {
        let d = order[k];
        assert(is_dyad(net.n as int, order@[k as int]));
        proof {
            assert(net.can_form(cap as int, d.0 as int, d.1 as int) == can_form_in(
                grid(&net.overall),
                grid(&net.informal),
                l0,
                cap as int,
                d.0 as int,
                d.1 as int,
            ));
        }
        if net.is_eligible(cap, d.0, d.1) {
            let ghost o0 = grid(&net.overall);
            let ghost net0 = *net;
            let formal = enforced[added];
            net.add_tie(d.0, d.1, formal);
            proof {
                assert forall|x: int| 0 <= x < k + 1 implies !net.can_form(
                    cap as int,
                    (#[trigger] order@[x]).0 as int,
                    order@[x].1 as int,
                ) by {
                    if net.can_form(cap as int, order@[x].0 as int, order@[x].1 as int) {
                        lemma_can_form_after_add(
                            &net0,
                            net,
                            cap as int,
                            d.0 as int,
                            d.1 as int,
                            order@[x].0 as int,
                            order@[x].1 as int,
                        );
                    }
                }
                assert forall|v: int| 0 <= v < net.n implies #[trigger] degree_of(
                    grid(&net.informal),
                    v,
                ) <= degree_of(grid(&old(net).informal), v) || degree_of(grid(&net.informal), v)
                    <= cap by {
                    if grid(&net.informal) != grid(&net0.informal) {
                        lemma_degrees_with_tie(
                            grid(&net0.informal),
                            net.n as int,
                            d.0 as int,
                            d.1 as int,
                            true,
                            v,
                        );
                        assert(!linked(grid(&net0.informal), d.0 as int, d.1 as int)) by {
                            assert(linked(grid(&net0.overall), d.0 as int, d.1 as int) == (linked(
                                grid(&net0.formal),
                                d.0 as int,
                                d.1 as int,
                            ) || linked(grid(&net0.informal), d.0 as int, d.1 as int)));
                        }
                    }
                    assert(degree_of(grid(&net0.informal), v) <= degree_of(
                        grid(&old(net).informal),
                        v,
                    ) || degree_of(grid(&net0.informal), v) <= cap);
                }
                lemma_with_tie_relation(o0, net.n as int, d.0 as int, d.1 as int, true);
                assert forall|a: int, b: int| #[trigger] linked(grid(&old(net).overall), a, b) implies linked(
                    grid(&net.overall),
                    a,
                    b,
                ) by {
                    assert(linked(o0, a, b));
                }
            }
            added = added + 1;
        }
        k += 1;
    }
    proof {
        if k < len {
            lemma_extras_settled(
                s0.0,
                s0.1,
                s0.2,
                l0,
                order@,
                enforced@,
                cap as int,
                quota as int,
                k as int,
                len as int,
            );
        }
        if added < quota {
            lemma_saturated(net, order@, cap as int);
            if has_room_for(old(net), cap as int, quota as int) {
                lemma_saturated_is_complete(net, cap as int);
            }
            if all_hold(enforced@) && all_below_cap(old(net), cap as int) && is_empty_relation(l0) {
                lemma_saturated_below_cap(net, cap as int);
            }
        }
    }
    added
}

/// The extra ties were placed by one pass in the order `order` with the
/// draws `enforced`, and `added` of them were.
pub open spec fn is_extras_run(
    before: &Network,
    after: &Network,
    order: Seq<(usize, usize)>,
    enforced: Seq<bool>,
    cap: int,
    quota: int,
    added: int,
) -> bool {
    &&& is_dyad_list(order, before.n as int)
    &&& (grid(&after.overall), grid(&after.formal), grid(&after.informal), added) == extras_state(
        grid(&before.overall),
        grid(&before.formal),
        grid(&before.informal),
        grid(&before.limited),
        order,
        enforced,
        cap,
        quota,
        order.len() as int,
    )
}

/// Goes once through the dyads in a fresh random order and ties each pair
/// that may get a tie, until `quota` ties are added; each new tie is made
/// formal with probability `enforcement` and informal otherwise.
pub fn add_extra_ties(
    net: &mut Network,
    dyads: &mut Vec<(usize, usize)>,
    rng: &mut ThreadRng,
    enforcement: Probability,
    cap: usize,
    quota: usize,
) -> (added: usize)
    requires
        old(net).wf(),
        is_dyad_list(old(dyads)@, old(net).n as int),
        enforcement.wf(),
    ensures
        final(net).wf(),
        final(net).n == old(net).n,
        is_dyad_list(final(dyads)@, old(net).n as int),
        added <= quota,
        quota == 0 ==> final(net).same_ties(old(net)),
        grid(&final(net).limited) == grid(&old(net).limited),
        includes(grid(&final(net).overall), grid(&old(net).overall)),
        tie_count(grid(&final(net).overall)) == tie_count(grid(&old(net).overall)) + added,
        enforcement.numerator == 0 ==> grid(&final(net).formal) == grid(&old(net).formal),
        enforcement.numerator == enforcement.denominator ==> grid(&final(net).informal) == grid(
            &old(net).informal,
        ),
        quota > 0 && added < quota ==> final(net).is_saturated(cap as int),
        has_room_for(old(net), cap as int, quota as int) ==> added == quota,
        enforcement.numerator == enforcement.denominator && all_below_cap(old(net), cap as int)
            && is_empty_relation(grid(&old(net).limited)) && 2 * (quota + tie_count(
            grid(&old(net).overall),
        )) <= old(net).n * (old(net).n - 1) ==> added == quota,
        forall|v: int|
            0 <= v < old(net).n ==> #[trigger] degree_of(grid(&final(net).informal), v) <= degree_of(
                grid(&old(net).informal),
                v,
            ) || degree_of(grid(&final(net).informal), v) <= cap,
        exists|order: Seq<(usize, usize)>, enforced: Seq<bool>| #[trigger]
            is_extras_run(old(net), final(net), order, enforced, cap as int, quota as int, added as int),
{
    if quota > 0 {
        let ghost before = dyads@;
        shuffle_pairs(rng, dyads);
        proof {
            lemma_permuted_dyad_list(before, dyads@, net.n as int);
        }
    }
    let count = if quota < dyads.len() { quota } else { dyads.len() };
    let enforced = draw_row(rng, enforcement, count);
    let added = place_extra_ties(net, dyads, &enforced, cap, quota);
    proof {
        assert(is_extras_run(old(net), net, dyads@, enforced@, cap as int, quota as int, added as int));
    }
    added
}

} // verus!
