use crate::dyads::{is_dyad, is_dyad_list, lemma_permuted_dyad_list, pair};
use crate::network::{law_degree_consistency, law_relation_symmetry, lemma_degrees_with_tie, Network};
use crate::random::{draw_below, shuffle_pairs};
use crate::relation::{
    degree_of, grid, includes, is_complete, lemma_complete_tie_count, lemma_untied_degree, is_empty_relation, lemma_empty_tie_count, lemma_tie_count_bounds,
    lemma_with_tie_relation, linked, tie_count, with_tie,
};
use crate::roulette::{count_tickets, is_wheel, roulette_pick, ticket_term, total_tickets, wins};
use crate::sums::lemma_sum_zero_terms;
use crate::weights::{
    breaking_entry, breaking_weights, breaking_wheel, eligibility_wheel, formation_entry,
    formation_wheel, informal_wheel, largest_before, largest_entry, rewiring_tickets,
};
use rand::rngs::ThreadRng;
use vstd::prelude::*;

verus! {

/// How many ties a round of rewiring formed and how many it broke.
#[derive(Clone, Copy, Debug, PartialEq, Eq, Structural)]
pub struct Rewired {
    pub formed: usize,
    pub broken: usize,
}

/// Where none of the listed dyads may get a tie, no pair of nodes may.
pub proof fn lemma_saturated(net: &Network, dyads: Seq<(usize, usize)>, cap: int)
    requires
        net.wf(),
        is_dyad_list(dyads, net.n as int),
        forall|k: int|
            0 <= k < dyads.len() ==> !net.can_form(cap, (#[trigger] dyads[k]).0 as int, dyads[k].1 as int),
    ensures
        net.is_saturated(cap),
{
    assert forall|i: int, j: int| !#[trigger] net.can_form(cap, i, j) by {
        if net.can_form(cap, i, j) {
            law_relation_symmetry(net, i, j);
            let o = grid(&net.limited);
            if linked(o, j, i) {
                assert(linked(o, i, j));
            }
            let a = if i < j { i } else { j };
            let b = if i < j { j } else { i };
            assert(net.can_form(cap, a, b));
            assert(dyads.contains(pair(a, b)));
            let k = choose|k: int| 0 <= k < dyads.len() && dyads[k] == pair(a, b);
            assert(!net.can_form(cap, dyads[k].0 as int, dyads[k].1 as int));
        }
    }
}

/// Neither the cap nor the mask stands in the way of `count` more ties: the
/// cap is at least `n - 1`, no pair is forbidden, and `count` is at most the
/// number of pairs that are not tied.
pub open spec fn has_room_for(net: &Network, cap: int, count: int) -> bool {
    &&& cap >= net.n - 1
    &&& is_empty_relation(grid(&net.limited))
    &&& 2 * (count + tie_count(grid(&net.overall))) <= net.n * (net.n - 1)
}

/// With a cap of at least `n - 1` and no forbidden pair, a network that
/// takes no more ties links every two nodes, and so holds `n * (n - 1) / 2`
/// ties.
pub proof fn lemma_saturated_is_complete(net: &Network, cap: int)
    requires
        net.wf(),
        net.is_saturated(cap),
        cap >= net.n - 1,
        is_empty_relation(grid(&net.limited)),
    ensures
        is_complete(grid(&net.overall), net.n as int),
        2 * tie_count(grid(&net.overall)) == net.n * (net.n - 1),
{
    let o = grid(&net.overall);
    let n = net.n as int;
    assert forall|i: int, j: int| 0 <= i < n && 0 <= j < n && i != j implies #[trigger] linked(o, i, j) by {
        if !linked(o, i, j) {
            assert(!linked(o, j, i)) by {
                if linked(o, j, i) {
                    assert(linked(o, i, j));
                }
            }
            lemma_untied_degree(o, n, i, j);
            lemma_untied_degree(o, n, j, i);
            law_degree_consistency(net, i);
            law_degree_consistency(net, j);
            assert(!linked(grid(&net.limited), i, j));
            assert(net.can_form(cap, i, j));
        }
    }
    lemma_complete_tie_count(o, n);
}

/// Where none of the listed dyads is an informal tie, there is no informal
/// tie.
pub proof fn lemma_no_informal_tie(net: &Network, dyads: Seq<(usize, usize)>)
    requires
        net.wf(),
        is_dyad_list(dyads, net.n as int),
        forall|k: int|
            0 <= k < dyads.len() ==> !linked(
                grid(&net.informal),
                (#[trigger] dyads[k]).0 as int,
                dyads[k].1 as int,
            ),
    ensures
        is_empty_relation(grid(&net.informal)),
        tie_count(grid(&net.informal)) == 0,
{
    let g = grid(&net.informal);
    assert forall|i: int, j: int| !#[trigger] linked(g, i, j) by {
        if linked(g, i, j) {
            law_relation_symmetry(net, i, j);
            assert(!linked(g, i, i));
            let a = if i < j { i } else { j };
            let b = if i < j { j } else { i };
            assert(linked(g, a, b));
            assert(dyads.contains(pair(a, b)));
            let k = choose|k: int| 0 <= k < dyads.len() && dyads[k] == pair(a, b);
            assert(!linked(g, dyads[k].0 as int, dyads[k].1 as int));
        }
    }
    lemma_empty_tie_count(g);
}

/// Forming an informal tie where one may be formed keeps a network within
/// what `formed_within` allows.
pub proof fn lemma_formed_within_step(
    start: &Network,
    before: &Network,
    after: &Network,
    cap: int,
    i: int,
    j: int,
)
    requires
        before.wf(),
        before.same_frame(start),
        after.same_frame(start),
        before.formed_within(start, cap),
        before.can_form(cap, i, j),
        grid(&after.informal) == with_tie(grid(&before.informal), i, j, true),
    ensures
        after.formed_within(start, cap),
{
    let g0 = grid(&before.informal);
    let n = before.n as int;
    lemma_with_tie_relation(g0, n, i, j, true);
    assert(!linked(g0, i, j)) by {
        assert(linked(grid(&before.overall), i, j) == (linked(grid(&before.formal), i, j) || linked(
            g0,
            i,
            j,
        )));
    }
    assert forall|v: int| 0 <= v < after.n implies #[trigger] degree_of(grid(&after.informal), v)
        <= degree_of(grid(&start.informal), v) || degree_of(grid(&after.informal), v) <= cap by {
        lemma_degrees_with_tie(g0, n, i, j, true, v);
        assert(degree_of(g0, v) <= degree_of(grid(&start.informal), v) || degree_of(g0, v) <= cap);
    }
    assert forall|a: int, b: int|
        #[trigger] linked(grid(&after.informal), a, b) && !linked(
            grid(&start.informal),
            a,
            b,
        ) implies !linked(grid(&start.limited), a, b) && !linked(grid(&start.formal), a, b) by {
        if (a == i && b == j) || (a == j && b == i) {
            law_relation_symmetry(before, i, j);
            let l = grid(&before.limited);
            if linked(l, j, i) {
                assert(linked(l, i, j));
            }
            assert(linked(grid(&before.overall), i, j) == (linked(grid(&before.formal), i, j)
                || linked(g0, i, j)));
        } else {
            assert(linked(g0, a, b));
        }
    }
}

/// Breaking an informal tie keeps a network within what `formed_within`
/// allows.
pub proof fn lemma_formed_within_break(
    start: &Network,
    before: &Network,
    after: &Network,
    cap: int,
    i: int,
    j: int,
)
    requires
        before.wf(),
        before.same_frame(start),
        after.same_frame(start),
        before.formed_within(start, cap),
        0 <= i < before.n,
        0 <= j < before.n,
        linked(grid(&before.informal), i, j),
        grid(&after.informal) == with_tie(grid(&before.informal), i, j, false),
    ensures
        after.formed_within(start, cap),
{
    let g0 = grid(&before.informal);
    let n = before.n as int;
    assert(i != j) by {
        assert(!linked(g0, i, i));
    }
    lemma_with_tie_relation(g0, n, i, j, false);
    assert forall|v: int| 0 <= v < after.n implies #[trigger] degree_of(grid(&after.informal), v)
        <= degree_of(grid(&start.informal), v) || degree_of(grid(&after.informal), v) <= cap by {
        lemma_degrees_with_tie(g0, n, i, j, false, v);
        assert(degree_of(g0, v) <= degree_of(grid(&start.informal), v) || degree_of(g0, v) <= cap);
    }
    assert forall|a: int, b: int|
        #[trigger] linked(grid(&after.informal), a, b) && !linked(
            grid(&start.informal),
            a,
            b,
        ) implies !linked(grid(&start.limited), a, b) && !linked(grid(&start.formal), a, b) by {
        assert(linked(g0, a, b));
    }
}

/// A network that has lost informal ties since it was within what
/// `formed_within` allows is still within it.
pub proof fn lemma_formed_within_shrink(start: &Network, before: &Network, after: &Network, cap: int)
    requires
        before.same_frame(start),
        after.same_frame(start),
        before.formed_within(start, cap),
        includes(grid(&before.informal), grid(&after.informal)),
        forall|v: int|
            0 <= v < before.n ==> #[trigger] degree_of(grid(&after.informal), v) <= degree_of(
                grid(&before.informal),
                v,
            ),
    ensures
        after.formed_within(start, cap),
{
    assert forall|v: int| 0 <= v < after.n implies #[trigger] degree_of(grid(&after.informal), v)
        <= degree_of(grid(&start.informal), v) || degree_of(grid(&after.informal), v) <= cap by {
        assert(degree_of(grid(&before.informal), v) <= degree_of(grid(&start.informal), v)
            || degree_of(grid(&before.informal), v) <= cap);
    }
    assert forall|a: int, b: int|
        #[trigger] linked(grid(&after.informal), a, b) && !linked(
            grid(&start.informal),
            a,
            b,
        ) implies !linked(grid(&start.limited), a, b) && !linked(grid(&start.formal), a, b) by {
        assert(linked(grid(&before.informal), a, b));
    }
}

/// No dyad on which a tie may be formed holds a ticket of the mechanism.
pub open spec fn no_formation_tickets(net: &Network, social_dynamics: usize, cap: int) -> bool {
    forall|a: int, b: int|
        0 <= a < b < net.n && net.can_form(cap, a, b) ==> #[trigger] rewiring_tickets(
            grid(&net.overall),
            social_dynamics,
            a,
            b,
        ) == 0
}

/// `after` is `before` with one informal tie formed between `i < j`, on
/// which a tie could be formed and which held tickets of the mechanism,
/// unless no dyad did.
pub open spec fn formed_at(
    before: &Network,
    after: &Network,
    social_dynamics: usize,
    cap: int,
    i: int,
    j: int,
) -> bool {
    &&& 0 <= i < j < before.n
    &&& before.can_form(cap, i, j)
    &&& grid(&after.overall) == with_tie(grid(&before.overall), i, j, true)
    &&& grid(&after.informal) == with_tie(grid(&before.informal), i, j, true)
    &&& (rewiring_tickets(grid(&before.overall), social_dynamics, i, j) > 0 || no_formation_tickets(
        before,
        social_dynamics,
        cap,
    ))
}

/// `after` is `before` with one informal tie formed as the mechanism forms
/// it.
pub open spec fn formed_one(before: &Network, after: &Network, social_dynamics: usize, cap: int) -> bool {
    exists|i: int, j: int| #[trigger] formed_at(before, after, social_dynamics, cap, i, j)
}

/// Step `k` of `trace` forms one informal tie as the mechanism forms it.
pub open spec fn formed_step(trace: Seq<Network>, k: int, social_dynamics: usize, cap: int) -> bool {
    formed_one(&trace[k], &trace[k + 1], social_dynamics, cap)
}

/// `trace` leads from `first` to `last` in `steps` steps, each of which
/// forms one informal tie as the mechanism forms it.
pub open spec fn is_formation_trace(
    trace: Seq<Network>,
    first: Network,
    last: Network,
    social_dynamics: usize,
    cap: int,
    steps: int,
) -> bool {
    &&& trace.len() == steps + 1
    &&& trace[0] == first
    &&& trace[steps] == last
    &&& forall|k: int| 0 <= k < steps ==> #[trigger] formed_step(trace, k, social_dynamics, cap)
}

/// Some informal tie holds more tickets of the mechanism than `t`.
pub open spec fn heavier_tie_exists(net: &Network, social_dynamics: usize, t: int) -> bool {
    exists|a: int, b: int|
        0 <= a < b < net.n && linked(grid(&net.informal), a, b) && #[trigger] rewiring_tickets(
            grid(&net.overall),
            social_dynamics,
            a,
            b,
        ) > t
}

/// Every informal tie holds `t` tickets of the mechanism.
pub open spec fn all_ties_hold(net: &Network, social_dynamics: usize, t: int) -> bool {
    forall|a: int, b: int|
        0 <= a < b < net.n && linked(grid(&net.informal), a, b) ==> #[trigger] rewiring_tickets(
            grid(&net.overall),
            social_dynamics,
            a,
            b,
        ) == t
}

/// `after` is `before` with the informal tie between `i < j` broken, which
/// did not hold the most tickets of the mechanism among the informal ties,
/// unless all held the same.
pub open spec fn broke_at(before: &Network, after: &Network, social_dynamics: usize, i: int, j: int) -> bool {
    &&& 0 <= i < j < before.n
    &&& linked(grid(&before.informal), i, j)
    &&& grid(&after.overall) == with_tie(grid(&before.overall), i, j, false)
    &&& grid(&after.informal) == with_tie(grid(&before.informal), i, j, false)
    &&& (heavier_tie_exists(
        before,
        social_dynamics,
        rewiring_tickets(grid(&before.overall), social_dynamics, i, j),
    ) || all_ties_hold(
        before,
        social_dynamics,
        rewiring_tickets(grid(&before.overall), social_dynamics, i, j),
    ))
}

/// `after` is `before` with one informal tie broken as the mechanism breaks
/// it.
pub open spec fn broke_one(before: &Network, after: &Network, social_dynamics: usize) -> bool {
    exists|i: int, j: int| #[trigger] broke_at(before, after, social_dynamics, i, j)
}

/// Step `k` of `trace` breaks one informal tie as the mechanism breaks it.
pub open spec fn broke_step(trace: Seq<Network>, k: int, social_dynamics: usize) -> bool {
    broke_one(&trace[k], &trace[k + 1], social_dynamics)
}

/// `trace` leads from `first` to `last` in `steps` steps, each of which
/// breaks one informal tie as the mechanism breaks it.
pub open spec fn is_breaking_trace(
    trace: Seq<Network>,
    first: Network,
    last: Network,
    social_dynamics: usize,
    steps: int,
) -> bool {
    &&& trace.len() == steps + 1
    &&& trace[0] == first
    &&& trace[steps] == last
    &&& forall|k: int| 0 <= k < steps ==> #[trigger] broke_step(trace, k, social_dynamics)
}

/// Where the wheel of tie formation holds no ticket, no dyad on which a tie
/// may be formed holds one.
pub proof fn lemma_no_formation_tickets(
    net: &Network,
    dyads: Seq<(usize, usize)>,
    wheel: Seq<u64>,
    social_dynamics: usize,
    cap: int,
)
    requires
        net.wf(),
        is_dyad_list(dyads, net.n as int),
        wheel.len() == dyads.len(),
        forall|k: int|
            0 <= k < wheel.len() ==> #[trigger] wheel[k] == formation_entry(
                net,
                social_dynamics,
                cap,
                dyads[k],
            ),
        total_tickets(wheel) == 0,
    ensures
        no_formation_tickets(net, social_dynamics, cap),
{
    let f = ticket_term(wheel);
    assert forall|k: int| 0 <= k < wheel.len() implies 0 <= #[trigger] f(k) by {}
    lemma_sum_zero_terms(f, wheel.len() as int);
    assert forall|a: int, b: int| 0 <= a < b < net.n && net.can_form(cap, a, b) implies #[trigger] rewiring_tickets(
        grid(&net.overall),
        social_dynamics,
        a,
        b,
    ) == 0 by {
        assert(dyads.contains(pair(a, b)));
        let k = choose|k: int| 0 <= k < dyads.len() && dyads[k] == pair(a, b);
        assert(f(k) == 0);
        assert(wheel[k] == formation_entry(net, social_dynamics, cap, dyads[k]));
    }
}

/// Where the largest of the first `k` entries is not zero, one of them is it.
pub proof fn lemma_largest_attained(wheel: Seq<u64>, k: int) -> (x: int)
    requires
        0 <= k <= wheel.len(),
        largest_before(wheel, k) > 0,
    ensures
        0 <= x < k,
        wheel[x] == largest_before(wheel, k),
    decreases k,
{
    if wheel[k - 1] as int == largest_before(wheel, k) {
        k - 1
    } else {
        lemma_largest_attained(wheel, k - 1)
    }
}

/// A tie that holds tickets on the wheel of tie breaking does not hold the
/// most tickets of the mechanism among the informal ties.
pub proof fn lemma_heavier_tie(
    net: &Network,
    dyads: Seq<(usize, usize)>,
    raw: Seq<u64>,
    social_dynamics: usize,
    place: int,
)
    requires
        net.wf(),
        is_dyad_list(dyads, net.n as int),
        raw.len() == dyads.len(),
        forall|k: int|
            0 <= k < raw.len() ==> #[trigger] raw[k] == breaking_entry(net, social_dynamics, dyads[k]),
        0 <= place < raw.len(),
        raw[place] < largest_entry(raw),
        linked(grid(&net.informal), dyads[place].0 as int, dyads[place].1 as int),
    ensures
        heavier_tie_exists(
            net,
            social_dynamics,
            rewiring_tickets(
                grid(&net.overall),
                social_dynamics,
                dyads[place].0 as int,
                dyads[place].1 as int,
            ),
        ),
{
    let x = lemma_largest_attained(raw, raw.len() as int);
    assert(raw[x] == breaking_entry(net, social_dynamics, dyads[x]));
    assert(raw[place] == breaking_entry(net, social_dynamics, dyads[place]));
    assert(is_dyad(net.n as int, dyads[x]));
    let a = dyads[x].0 as int;
    let b = dyads[x].1 as int;
    assert(linked(grid(&net.informal), a, b));
    assert(rewiring_tickets(grid(&net.overall), social_dynamics, a, b) > rewiring_tickets(
        grid(&net.overall),
        social_dynamics,
        dyads[place].0 as int,
        dyads[place].1 as int,
    ));
}

/// Where the wheel of tie breaking holds no ticket, every informal tie holds
/// the largest number of tickets of the mechanism.
pub proof fn lemma_all_ties_hold(
    net: &Network,
    dyads: Seq<(usize, usize)>,
    raw: Seq<u64>,
    wheel: Seq<u64>,
    social_dynamics: usize,
)
    requires
        net.wf(),
        is_dyad_list(dyads, net.n as int),
        raw.len() == dyads.len(),
        wheel.len() == dyads.len(),
        forall|k: int|
            0 <= k < raw.len() ==> #[trigger] raw[k] == breaking_entry(net, social_dynamics, dyads[k]),
        forall|k: int|
            0 <= k < wheel.len() ==> #[trigger] wheel[k] == (if linked(
                grid(&net.informal),
                dyads[k].0 as int,
                dyads[k].1 as int,
            ) {
                largest_entry(raw) - raw[k]
            } else {
                0int
            }),
        total_tickets(wheel) == 0,
    ensures
        all_ties_hold(net, social_dynamics, largest_entry(raw)),
{
    let f = ticket_term(wheel);
    assert forall|k: int| 0 <= k < wheel.len() implies 0 <= #[trigger] f(k) by {}
    lemma_sum_zero_terms(f, wheel.len() as int);
    assert forall|a: int, b: int|
        0 <= a < b < net.n && linked(grid(&net.informal), a, b) implies #[trigger] rewiring_tickets(
        grid(&net.overall),
        social_dynamics,
        a,
        b,
    ) == largest_entry(raw) by {
        assert(dyads.contains(pair(a, b)));
        let k = choose|k: int| 0 <= k < dyads.len() && dyads[k] == pair(a, b);
        assert(f(k) == 0);
        assert(wheel[k] == largest_entry(raw) - raw[k]);
        assert(raw[k] == breaking_entry(net, social_dynamics, dyads[k]));
    }
}

/// Forms the informal tie that the ticket wins on the wheel, and returns its
/// place in the list of dyads.
pub fn form_chosen_tie(net: &mut Network, dyads: &Vec<(usize, usize)>, wheel: &Vec<u64>, ticket: u64) -> (place:
    usize)
    requires
        old(net).wf(),
        is_dyad_list(dyads@, old(net).n as int),
        wheel@.len() == dyads@.len(),
        is_wheel(wheel@),
        ticket < total_tickets(wheel@),
        forall|k: int|
            0 <= k < wheel@.len() && #[trigger] wheel@[k] > 0 ==> !linked(
                grid(&old(net).overall),
                dyads@[k].0 as int,
                dyads@[k].1 as int,
            ),
    ensures
        wins(wheel@, ticket as int, place as int),
        final(net).wf(),
        final(net).same_frame(old(net)),
        grid(&final(net).overall) == with_tie(
            grid(&old(net).overall),
            dyads@[place as int].0 as int,
            dyads@[place as int].1 as int,
            true,
        ),
        grid(&final(net).informal) == with_tie(
            grid(&old(net).informal),
            dyads@[place as int].0 as int,
            dyads@[place as int].1 as int,
            true,
        ),
        tie_count(grid(&final(net).overall)) == tie_count(grid(&old(net).overall)) + 1,
        tie_count(grid(&final(net).informal)) == tie_count(grid(&old(net).informal)) + 1,
{
    let place = roulette_pick(wheel, ticket);
    let d = dyads[place];
    assert(is_dyad(net.n as int, dyads@[place as int]));
    net.add_tie(d.0, d.1, false);
    place
}

/// Breaks the informal tie that the ticket wins on the wheel, and returns its
/// place in the list of dyads.
pub fn break_chosen_tie(net: &mut Network, dyads: &Vec<(usize, usize)>, wheel: &Vec<u64>, ticket: u64) -> (place:
    usize)
    requires
        old(net).wf(),
        is_dyad_list(dyads@, old(net).n as int),
        wheel@.len() == dyads@.len(),
        is_wheel(wheel@),
        ticket < total_tickets(wheel@),
        forall|k: int|
            0 <= k < wheel@.len() && #[trigger] wheel@[k] > 0 ==> linked(
                grid(&old(net).informal),
                dyads@[k].0 as int,
                dyads@[k].1 as int,
            ),
    ensures
        wins(wheel@, ticket as int, place as int),
        final(net).wf(),
        final(net).same_frame(old(net)),
        grid(&final(net).overall) == with_tie(
            grid(&old(net).overall),
            dyads@[place as int].0 as int,
            dyads@[place as int].1 as int,
            false,
        ),
        grid(&final(net).informal) == with_tie(
            grid(&old(net).informal),
            dyads@[place as int].0 as int,
            dyads@[place as int].1 as int,
            false,
        ),
        tie_count(grid(&final(net).overall)) == tie_count(grid(&old(net).overall)) - 1,
        tie_count(grid(&final(net).informal)) == tie_count(grid(&old(net).informal)) - 1,
{
    let place = roulette_pick(wheel, ticket);
    let d = dyads[place];
    assert(is_dyad(net.n as int, dyads@[place as int]));
    net.remove_informal_tie(d.0, d.1);
    place
}

/// Forms up to `quota` informal ties, one at a time, each on a dyad drawn
/// with a chance in proportion to its tickets among those where a tie may be
/// formed, or evenly among them where none has a ticket. Stops early where
/// no tie may be formed any more.
pub fn form_ties(
    net: &mut Network,
    dyads: &mut Vec<(usize, usize)>,
    rng: &mut ThreadRng,
    social_dynamics: usize,
    cap: usize,
    quota: usize,
) -> (formed: usize)
    requires
        old(net).wf(),
        is_dyad_list(old(dyads)@, old(net).n as int),
    ensures
        final(net).wf(),
        final(net).same_frame(old(net)),
        is_dyad_list(final(dyads)@, old(net).n as int),
        formed <= quota,
        formed < quota ==> final(net).is_saturated(cap as int),
        tie_count(grid(&final(net).overall)) == tie_count(grid(&old(net).overall)) + formed,
        tie_count(grid(&final(net).informal)) == tie_count(grid(&old(net).informal)) + formed,
        includes(grid(&final(net).informal), grid(&old(net).informal)),
        includes(grid(&final(net).overall), grid(&old(net).overall)),
        final(net).formed_within(old(net), cap as int),
        exists|trace: Seq<Network>| #[trigger]
            is_formation_trace(trace, *old(net), *final(net), social_dynamics, cap as int, formed as int),
        has_room_for(old(net), cap as int, quota as int) ==> formed == quota,
{
    let mut formed: usize = 0;
    let ghost mut trace: Seq<Network> = seq![*net];
    while formed < quota
        invariant
            is_formation_trace(trace, *old(net), *net, social_dynamics, cap as int, formed as int),
            formed <= quota,
            net.wf(),
            net.same_frame(old(net)),
            is_dyad_list(dyads@, net.n as int),
            tie_count(grid(&net.overall)) == tie_count(grid(&old(net).overall)) + formed,
            tie_count(grid(&net.informal)) == tie_count(grid(&old(net).informal)) + formed,
            includes(grid(&net.informal), grid(&old(net).informal)),
            includes(grid(&net.overall), grid(&old(net).overall)),
            net.formed_within(old(net), cap as int),
        ensures
            is_formation_trace(trace, *old(net), *net, social_dynamics, cap as int, formed as int),
            formed <= quota,
            formed < quota ==> net.is_saturated(cap as int),
            net.formed_within(old(net), cap as int),
            net.wf(),
            net.same_frame(old(net)),
            is_dyad_list(dyads@, net.n as int),
            tie_count(grid(&net.overall)) == tie_count(grid(&old(net).overall)) + formed,
            tie_count(grid(&net.informal)) == tie_count(grid(&old(net).informal)) + formed,
            includes(grid(&net.informal), grid(&old(net).informal)),
            includes(grid(&net.overall), grid(&old(net).overall)),
        decreases quota - formed,
    {
        let mut wheel = formation_wheel(net, dyads, social_dynamics, cap);
        let mut total = count_tickets(&wheel);
        if total == 0 {
            let ghost before = dyads@;
            proof {
                lemma_no_formation_tickets(net, dyads@, wheel@, social_dynamics, cap as int);
            }
            shuffle_pairs(rng, dyads);
            proof {
                lemma_permuted_dyad_list(before, dyads@, net.n as int);
            }
            wheel = eligibility_wheel(net, dyads, cap);
            total = count_tickets(&wheel);
            if total == 0 {
                proof {
                    let f = ticket_term(wheel@);
                    assert forall|k: int| 0 <= k < wheel@.len() implies 0 <= #[trigger] f(k) by {}
                    lemma_sum_zero_terms(f, wheel@.len() as int);
                    assert forall|k: int| 0 <= k < dyads@.len() implies !net.can_form(
                        cap as int,
                        (#[trigger] dyads@[k]).0 as int,
                        dyads@[k].1 as int,
                    ) by {
                        assert(f(k) == 0);
                        assert(wheel@[k] == 0);
                    }
                    lemma_saturated(net, dyads@, cap as int);
                }
                break ;
            }
        }
        let ticket = draw_below(rng, total);
        let ghost o0 = grid(&net.overall);
        let ghost g0 = grid(&net.informal);
        let ghost net0 = *net;
        assert forall|k: int| 0 <= k < wheel@.len() && #[trigger] wheel@[k] > 0 implies net.can_form(
            cap as int,
            dyads@[k].0 as int,
            dyads@[k].1 as int,
        ) && (rewiring_tickets(
            grid(&net.overall),
            social_dynamics,
            dyads@[k].0 as int,
            dyads@[k].1 as int,
        ) > 0 || no_formation_tickets(net, social_dynamics, cap as int)) by {}
        let place = form_chosen_tie(net, dyads, &wheel, ticket);
        proof {
            let d = dyads@[place as int];
            assert(is_dyad(net.n as int, d));
            assert(net0.can_form(cap as int, d.0 as int, d.1 as int));
            assert(formed_at(&net0, net, social_dynamics, cap as int, d.0 as int, d.1 as int));
            let longer = trace.push(*net);
            assert forall|k: int| 0 <= k < formed + 1 implies #[trigger] formed_step(
                longer,
                k,
                social_dynamics,
                cap as int,
            ) by {
                if k < formed {
                    assert(formed_step(trace, k, social_dynamics, cap as int));
                }
            }
            trace = longer;
            lemma_formed_within_step(old(net), &net0, net, cap as int, d.0 as int, d.1 as int);
            lemma_with_tie_relation(o0, net.n as int, d.0 as int, d.1 as int, true);
            lemma_with_tie_relation(g0, net.n as int, d.0 as int, d.1 as int, true);
            assert forall|i: int, j: int| #[trigger] linked(grid(&old(net).informal), i, j) implies linked(
                grid(&net.informal),
                i,
                j,
            ) by {
                assert(linked(g0, i, j));
            }
            assert forall|i: int, j: int| #[trigger] linked(grid(&old(net).overall), i, j) implies linked(
                grid(&net.overall),
                i,
                j,
            ) by {
                assert(linked(o0, i, j));
            }
        }
        formed = formed + 1;
    }
    proof {
        if formed < quota && has_room_for(old(net), cap as int, quota as int) {
            lemma_saturated_is_complete(net, cap as int);
        }
    }
    formed
}

/// Breaks up to `quota` informal ties, one at a time, each drawn with a
/// chance in proportion to what its tickets lack of the largest number of
/// tickets among the informal ties, or evenly among them where that leaves
/// no ticket. Stops early where no informal tie is left.
pub fn break_ties(
    net: &mut Network,
    dyads: &mut Vec<(usize, usize)>,
    rng: &mut ThreadRng,
    social_dynamics: usize,
    quota: usize,
) -> (broken: usize)
    requires
        old(net).wf(),
        is_dyad_list(old(dyads)@, old(net).n as int),
    ensures
        final(net).wf(),
        final(net).same_frame(old(net)),
        is_dyad_list(final(dyads)@, old(net).n as int),
        broken <= quota,
        broken <= tie_count(grid(&old(net).informal)),
        broken == quota || broken == tie_count(grid(&old(net).informal)),
        broken < quota ==> is_empty_relation(grid(&final(net).informal)),
        tie_count(grid(&final(net).overall)) == tie_count(grid(&old(net).overall)) - broken,
        tie_count(grid(&final(net).informal)) == tie_count(grid(&old(net).informal)) - broken,
        includes(grid(&old(net).informal), grid(&final(net).informal)),
        includes(grid(&old(net).overall), grid(&final(net).overall)),
        forall|v: int|
            0 <= v < old(net).n ==> #[trigger] degree_of(grid(&final(net).informal), v) <= degree_of(
                grid(&old(net).informal),
                v,
            ),
        exists|trace: Seq<Network>| #[trigger]
            is_breaking_trace(trace, *old(net), *final(net), social_dynamics, broken as int),
{
    let mut broken: usize = 0;
    let ghost mut trace: Seq<Network> = seq![*net];
    while broken < quota
        invariant
            is_breaking_trace(trace, *old(net), *net, social_dynamics, broken as int),
            broken <= quota,
            net.wf(),
            net.same_frame(old(net)),
            is_dyad_list(dyads@, net.n as int),
            tie_count(grid(&net.overall)) == tie_count(grid(&old(net).overall)) - broken,
            tie_count(grid(&net.informal)) == tie_count(grid(&old(net).informal)) - broken,
            includes(grid(&old(net).informal), grid(&net.informal)),
            includes(grid(&old(net).overall), grid(&net.overall)),
            forall|v: int|
                0 <= v < net.n ==> #[trigger] degree_of(grid(&net.informal), v) <= degree_of(
                    grid(&old(net).informal),
                    v,
                ),
        ensures
            is_breaking_trace(trace, *old(net), *net, social_dynamics, broken as int),
            forall|v: int|
                0 <= v < net.n ==> #[trigger] degree_of(grid(&net.informal), v) <= degree_of(
                    grid(&old(net).informal),
                    v,
                ),
            broken <= quota,
            broken < quota ==> is_empty_relation(grid(&net.informal)) && tie_count(grid(&net.informal))
                == 0,
            net.wf(),
            net.same_frame(old(net)),
            is_dyad_list(dyads@, net.n as int),
            tie_count(grid(&net.overall)) == tie_count(grid(&old(net).overall)) - broken,
            tie_count(grid(&net.informal)) == tie_count(grid(&old(net).informal)) - broken,
            includes(grid(&old(net).informal), grid(&net.informal)),
            includes(grid(&old(net).overall), grid(&net.overall)),
        decreases quota - broken,
    {
        let raw = breaking_weights(net, dyads, social_dynamics);
        let mut wheel = breaking_wheel(net, dyads, &raw.0, raw.1);
        let mut total = count_tickets(&wheel);
        let ghost top = raw.1 as int;
        let ghost level = total == 0;
        proof {
            if total > 0 {
                assert forall|k: int| 0 <= k < wheel@.len() && #[trigger] wheel@[k] > 0 implies linked(
                    grid(&net.informal),
                    dyads@[k].0 as int,
                    dyads@[k].1 as int,
                ) && heavier_tie_exists(
                    net,
                    social_dynamics,
                    rewiring_tickets(
                        grid(&net.overall),
                        social_dynamics,
                        dyads@[k].0 as int,
                        dyads@[k].1 as int,
                    ),
                ) by {
                    lemma_heavier_tie(net, dyads@, raw.0@, social_dynamics, k);
                }
            }
        }
        if total == 0 {
            let ghost before = dyads@;
            proof {
                lemma_all_ties_hold(net, dyads@, raw.0@, wheel@, social_dynamics);
            }
            shuffle_pairs(rng, dyads);
            proof {
                lemma_permuted_dyad_list(before, dyads@, net.n as int);
            }
            wheel = informal_wheel(net, dyads);
            total = count_tickets(&wheel);
            if total == 0 {
                proof {
                    let f = ticket_term(wheel@);
                    assert forall|k: int| 0 <= k < wheel@.len() implies 0 <= #[trigger] f(k) by {}
                    lemma_sum_zero_terms(f, wheel@.len() as int);
                    assert forall|k: int| 0 <= k < dyads@.len() implies !linked(
                        grid(&net.informal),
                        (#[trigger] dyads@[k]).0 as int,
                        dyads@[k].1 as int,
                    ) by {
                        assert(f(k) == 0);
                        assert(wheel@[k] == 0);
                    }
                    lemma_no_informal_tie(net, dyads@);
                }
                break ;
            }
        }
        let ticket = draw_below(rng, total);
        let ghost o0 = grid(&net.overall);
        let ghost g0 = grid(&net.informal);
        let ghost net0 = *net;
        let place = break_chosen_tie(net, dyads, &wheel, ticket);
        proof {
            let d = dyads@[place as int];
            assert(is_dyad(net.n as int, d));
            assert(wheel@[place as int] > 0);
            assert(linked(g0, d.0 as int, d.1 as int));
            if level {
                assert(all_ties_hold(&net0, social_dynamics, top));
                assert(rewiring_tickets(
                    grid(&net0.overall),
                    social_dynamics,
                    d.0 as int,
                    d.1 as int,
                ) == top);
            }
            assert(broke_at(&net0, net, social_dynamics, d.0 as int, d.1 as int));
            let longer = trace.push(*net);
            assert forall|k: int| 0 <= k < broken + 1 implies #[trigger] broke_step(
                longer,
                k,
                social_dynamics,
            ) by {
                if k < broken {
                    assert(broke_step(trace, k, social_dynamics));
                }
            }
            trace = longer;
            assert forall|v: int| 0 <= v < net.n implies #[trigger] degree_of(grid(&net.informal), v)
                <= degree_of(grid(&old(net).informal), v) by {
                lemma_degrees_with_tie(g0, net.n as int, d.0 as int, d.1 as int, false, v);
                assert(degree_of(g0, v) <= degree_of(grid(&old(net).informal), v));
            }
            lemma_with_tie_relation(o0, net.n as int, d.0 as int, d.1 as int, false);
            lemma_with_tie_relation(g0, net.n as int, d.0 as int, d.1 as int, false);
            assert forall|i: int, j: int| #[trigger] linked(grid(&net.informal), i, j) implies linked(
                grid(&old(net).informal),
                i,
                j,
            ) by {
                assert(linked(g0, i, j));
            }
            assert forall|i: int, j: int| #[trigger] linked(grid(&net.overall), i, j) implies linked(
                grid(&old(net).overall),
                i,
                j,
            ) by {
                assert(linked(o0, i, j));
            }
        }
        broken = broken + 1;
    }
    proof {
        lemma_tie_count_bounds(grid(&net.informal), net.n as int);
    }
    broken
}

/// A new informal tie may be formed between `i` and `j` in a network with
/// the ties `overall`, the informal ties `informal` and the forbidden pairs
/// `limited`.
pub open spec fn can_form_in(
    overall: Seq<Seq<bool>>,
    informal: Seq<Seq<bool>>,
    limited: Seq<Seq<bool>>,
    cap: int,
    i: int,
    j: int,
) -> bool {
    &&& 0 <= i < overall.len()
    &&& 0 <= j < overall.len()
    &&& i != j
    &&& !linked(overall, i, j)
    &&& !linked(limited, i, j)
    &&& degree_of(informal, i) < cap
    &&& degree_of(informal, j) < cap
}

/// All ties, the informal ties, and the number of ties formed and broken.
pub type PassState = (Seq<Seq<bool>>, Seq<Seq<bool>>, int, int);

/// What one pass over the first `k` dyads of `order` makes of a network:
/// each dyad in turn is broken where it is an informal tie and fewer than
/// `to_break` ties have been broken, and otherwise tied informally where a
/// tie may be formed and fewer than `to_form` have been formed.
pub open spec fn pass_state(
    overall: Seq<Seq<bool>>,
    informal: Seq<Seq<bool>>,
    limited: Seq<Seq<bool>>,
    order: Seq<(usize, usize)>,
    cap: int,
    to_form: int,
    to_break: int,
    k: int,
) -> PassState
    decreases k,
{
    if k <= 0 {
        (overall, informal, 0, 0)
    } else {
        let prev = pass_state(overall, informal, limited, order, cap, to_form, to_break, k - 1);
        let i = order[k - 1].0 as int;
        let j = order[k - 1].1 as int;
        if prev.3 < to_break && linked(prev.1, i, j) {
            (with_tie(prev.0, i, j, false), with_tie(prev.1, i, j, false), prev.2, prev.3 + 1)
        } else if prev.2 < to_form && can_form_in(prev.0, prev.1, limited, cap, i, j) {
            (with_tie(prev.0, i, j, true), with_tie(prev.1, i, j, true), prev.2 + 1, prev.3)
        } else {
            prev
        }
    }
}

/// Once both quotas are met, the rest of the pass changes nothing.
pub proof fn lemma_pass_settled(
    overall: Seq<Seq<bool>>,
    informal: Seq<Seq<bool>>,
    limited: Seq<Seq<bool>>,
    order: Seq<(usize, usize)>,
    cap: int,
    to_form: int,
    to_break: int,
    k: int,
    later: int,
)
    requires
        0 <= k <= later,
        pass_state(overall, informal, limited, order, cap, to_form, to_break, k).2 == to_form,
        pass_state(overall, informal, limited, order, cap, to_form, to_break, k).3 == to_break,
    ensures
        pass_state(overall, informal, limited, order, cap, to_form, to_break, later) == pass_state(
            overall,
            informal,
            limited,
            order,
            cap,
            to_form,
            to_break,
            k,
        ),
    decreases later - k,
{
    if k < later {
        lemma_pass_settled(overall, informal, limited, order, cap, to_form, to_break, k, later - 1);
    }
}

/// One pass over the dyads in the given order: each dyad in turn is broken
/// where it is an informal tie and ties are left to break, and otherwise
/// tied informally where a tie may be formed and ties are left to form.
pub fn rewire_pass(
    net: &mut Network,
    order: &Vec<(usize, usize)>,
    cap: usize,
    to_form: usize,
    to_break: usize,
) -> (done: Rewired)
    requires
        old(net).wf(),
        is_dyad_list(order@, old(net).n as int),
    ensures
        final(net).wf(),
        final(net).same_frame(old(net)),
        (grid(&final(net).overall), grid(&final(net).informal), done.formed as int, done.broken as int)
            == pass_state(
            grid(&old(net).overall),
            grid(&old(net).informal),
            grid(&old(net).limited),
            order@,
            cap as int,
            to_form as int,
            to_break as int,
            order@.len() as int,
        ),
        done.formed <= to_form,
        done.broken <= to_break,
        tie_count(grid(&final(net).overall)) == tie_count(grid(&old(net).overall)) + done.formed
            - done.broken,
        tie_count(grid(&final(net).informal)) == tie_count(grid(&old(net).informal)) + done.formed
            - done.broken,
        final(net).formed_within(old(net), cap as int),
        done.formed == 0 && done.broken == 0 && to_form > 0 ==> final(net).is_saturated(cap as int),
        done.formed == 0 && done.broken == 0 && to_break > 0 ==> is_empty_relation(
            grid(&final(net).informal),
        ),
{
    let len = order.len();
    let ghost o0 = grid(&net.overall);
    let ghost g0 = grid(&net.informal);
    let ghost l0 = grid(&net.limited);
    let mut formed: usize = 0;
    let mut broken: usize = 0;
    let mut k: usize = 0;
    while k < len && (formed < to_form || broken < to_break)
        invariant
            k <= len,
            len == order@.len(),
            formed <= to_form,
            broken <= to_break,
            o0 == grid(&old(net).overall),
            g0 == grid(&old(net).informal),
            l0 == grid(&old(net).limited),
            net.wf(),
            net.same_frame(old(net)),
            is_dyad_list(order@, net.n as int),
            (grid(&net.overall), grid(&net.informal), formed as int, broken as int) == pass_state(
                o0,
                g0,
                l0,
                order@,
                cap as int,
                to_form as int,
                to_break as int,
                k as int,
            ),
            formed == 0 && broken == 0 ==> forall|x: int|
                0 <= x < k ==> (to_break > 0 ==> !linked(
                    grid(&net.informal),
                    (#[trigger] order@[x]).0 as int,
                    order@[x].1 as int,
                )) && (to_form > 0 ==> !net.can_form(
                    cap as int,
                    order@[x].0 as int,
                    order@[x].1 as int,
                )),
            tie_count(grid(&net.overall)) == tie_count(o0) + formed - broken,
            tie_count(grid(&net.informal)) == tie_count(g0) + formed - broken,
            net.formed_within(old(net), cap as int),
        decreases len - k,
    {
        let d = order[k];
        assert(is_dyad(net.n as int, order@[k as int]));
        let ghost net0 = *net;
        proof {
            assert(net.can_form(cap as int, d.0 as int, d.1 as int) == can_form_in(
                grid(&net.overall),
                grid(&net.informal),
                l0,
                cap as int,
                d.0 as int,
                d.1 as int,
            ));
        }
        if broken < to_break && net.is_informal(d.0, d.1) {
            net.remove_informal_tie(d.0, d.1);
            proof {
                lemma_formed_within_break(old(net), &net0, net, cap as int, d.0 as int, d.1 as int);
            }
            broken = broken + 1;
        } else if formed < to_form && net.is_eligible(cap, d.0, d.1) {
            net.add_tie(d.0, d.1, false);
            proof {
                lemma_formed_within_step(old(net), &net0, net, cap as int, d.0 as int, d.1 as int);
            }
            formed = formed + 1;
        }
        k += 1;
    }
    proof {
        if k < len {
            lemma_pass_settled(
                o0,
                g0,
                l0,
                order@,
                cap as int,
                to_form as int,
                to_break as int,
                k as int,
                len as int,
            );
        }
        if formed == 0 && broken == 0 {
            if to_break > 0 {
                lemma_no_informal_tie(net, order@);
            }
            if to_form > 0 {
                lemma_saturated(net, order@, cap as int);
            }
        }
    }
    Rewired { formed, broken }
}

/// What the first `r` rounds make of a network, where round `r` is a pass in
/// the order `orders[r]` with the quotas that the rounds before it have left.
pub open spec fn run_state(
    overall: Seq<Seq<bool>>,
    informal: Seq<Seq<bool>>,
    limited: Seq<Seq<bool>>,
    orders: Seq<Seq<(usize, usize)>>,
    cap: int,
    num_formation: int,
    num_break: int,
    r: int,
) -> PassState
    decreases r,
{
    if r <= 0 {
        (overall, informal, 0, 0)
    } else {
        let prev = run_state(overall, informal, limited, orders, cap, num_formation, num_break, r - 1);
        let round = pass_state(
            prev.0,
            prev.1,
            limited,
            orders[r - 1],
            cap,
            num_formation - prev.2,
            num_break - prev.3,
            orders[r - 1].len() as int,
        );
        (round.0, round.1, prev.2 + round.2, prev.3 + round.3)
    }
}

/// Random rewiring led from `before` to `after` by passes in the orders
/// `orders`, each a list of all dyads; it formed `formed` and broke `broken`
/// ties, and it ended with both quotas met or after a round that changed
/// nothing.
pub open spec fn is_random_run(
    before: &Network,
    after: &Network,
    orders: Seq<Seq<(usize, usize)>>,
    cap: int,
    num_formation: int,
    num_break: int,
    formed: int,
    broken: int,
) -> bool {
    let rounds = orders.len() as int;
    let end = run_state(
        grid(&before.overall),
        grid(&before.informal),
        grid(&before.limited),
        orders,
        cap,
        num_formation,
        num_break,
        rounds,
    );
    let last = run_state(
        grid(&before.overall),
        grid(&before.informal),
        grid(&before.limited),
        orders,
        cap,
        num_formation,
        num_break,
        rounds - 1,
    );
    &&& forall|r: int| 0 <= r < rounds ==> is_dyad_list(#[trigger] orders[r], before.n as int)
    &&& end == (grid(&after.overall), grid(&after.informal), formed, broken)
    &&& (formed == num_formation && broken == num_break) || (rounds > 0 && last.2 == formed && last.3
        == broken)
}

/// The first `r` rounds depend on the first `r` orders only.
pub proof fn lemma_run_prefix(
    overall: Seq<Seq<bool>>,
    informal: Seq<Seq<bool>>,
    limited: Seq<Seq<bool>>,
    orders: Seq<Seq<(usize, usize)>>,
    more: Seq<Seq<(usize, usize)>>,
    cap: int,
    num_formation: int,
    num_break: int,
    r: int,
)
    requires
        0 <= r <= orders.len() <= more.len(),
        forall|x: int| 0 <= x < orders.len() ==> #[trigger] more[x] == orders[x],
    ensures
        run_state(overall, informal, limited, more, cap, num_formation, num_break, r) == run_state(
            overall,
            informal,
            limited,
            orders,
            cap,
            num_formation,
            num_break,
            r,
        ),
    decreases r,
{
    if r > 0 {
        lemma_run_prefix(overall, informal, limited, orders, more, cap, num_formation, num_break, r - 1);
        assert(more[r - 1] == orders[r - 1]);
    }
}

/// Goes through the dyads in a fresh random order, again and again, breaking
/// each informal tie it meets while ties are left to break, and otherwise
/// forming a tie where one may be formed while ties are left to form. Stops
/// when both quotas are met, or after a round in which nothing could be done.
pub fn random_rewire(
    net: &mut Network,
    dyads: &mut Vec<(usize, usize)>,
    rng: &mut ThreadRng,
    cap: usize,
    num_formation: usize,
    num_break: usize,
) -> (done: Rewired)
    requires
        old(net).wf(),
        is_dyad_list(old(dyads)@, old(net).n as int),
    ensures
        final(net).wf(),
        final(net).same_frame(old(net)),
        is_dyad_list(final(dyads)@, old(net).n as int),
        done.formed <= num_formation,
        done.broken <= num_break,
        done.formed < num_formation ==> final(net).is_saturated(cap as int),
        done.broken < num_break ==> is_empty_relation(grid(&final(net).informal)),
        tie_count(grid(&final(net).overall)) == tie_count(grid(&old(net).overall)) + done.formed
            - done.broken,
        tie_count(grid(&final(net).informal)) == tie_count(grid(&old(net).informal)) + done.formed
            - done.broken,
        final(net).formed_within(old(net), cap as int),
        exists|orders: Seq<Seq<(usize, usize)>>| #[trigger]
            is_random_run(
                old(net),
                final(net),
                orders,
                cap as int,
                num_formation as int,
                num_break as int,
                done.formed as int,
                done.broken as int,
            ),
{
    let mut to_form: usize = num_formation;
    let mut to_break: usize = num_break;
    let ghost o0 = grid(&net.overall);
    let ghost g0 = grid(&net.informal);
    let ghost l0 = grid(&net.limited);
    let ghost mut orders: Seq<Seq<(usize, usize)>> = Seq::empty();
    let ghost mut stalled = false;
    while to_form > 0 || to_break > 0
        invariant_except_break
            !stalled,
        invariant
            to_form <= num_formation,
            to_break <= num_break,
            o0 == grid(&old(net).overall),
            g0 == grid(&old(net).informal),
            l0 == grid(&old(net).limited),
            net.wf(),
            net.same_frame(old(net)),
            is_dyad_list(dyads@, net.n as int),
            forall|r: int| 0 <= r < orders.len() ==> is_dyad_list(#[trigger] orders[r], net.n as int),
            run_state(
                o0,
                g0,
                l0,
                orders,
                cap as int,
                num_formation as int,
                num_break as int,
                orders.len() as int,
            ) == (
                grid(&net.overall),
                grid(&net.informal),
                num_formation - to_form,
                num_break - to_break,
            ),
            tie_count(grid(&net.overall)) == tie_count(o0) + (num_formation - to_form) - (num_break
                - to_break),
            tie_count(grid(&net.informal)) == tie_count(g0) + (num_formation - to_form) - (num_break
                - to_break),
            net.formed_within(old(net), cap as int),
        ensures
            to_form <= num_formation,
            to_break <= num_break,
            to_form > 0 ==> net.is_saturated(cap as int),
            to_break > 0 ==> is_empty_relation(grid(&net.informal)),
            net.wf(),
            net.same_frame(old(net)),
            is_dyad_list(dyads@, net.n as int),
            forall|r: int| 0 <= r < orders.len() ==> is_dyad_list(#[trigger] orders[r], net.n as int),
            run_state(
                o0,
                g0,
                l0,
                orders,
                cap as int,
                num_formation as int,
                num_break as int,
                orders.len() as int,
            ) == (
                grid(&net.overall),
                grid(&net.informal),
                num_formation - to_form,
                num_break - to_break,
            ),
            (to_form == 0 && to_break == 0) || (stalled && orders.len() > 0 && run_state(
                o0,
                g0,
                l0,
                orders,
                cap as int,
                num_formation as int,
                num_break as int,
                orders.len() - 1,
            ).2 == num_formation - to_form && run_state(
                o0,
                g0,
                l0,
                orders,
                cap as int,
                num_formation as int,
                num_break as int,
                orders.len() - 1,
            ).3 == num_break - to_break),
            tie_count(grid(&net.overall)) == tie_count(o0) + (num_formation - to_form) - (num_break
                - to_break),
            tie_count(grid(&net.informal)) == tie_count(g0) + (num_formation - to_form) - (num_break
                - to_break),
            net.formed_within(old(net), cap as int),
        decreases to_form + to_break,
    {
        let ghost before = dyads@;
        shuffle_pairs(rng, dyads);
        proof {
            lemma_permuted_dyad_list(before, dyads@, net.n as int);
        }
        let ghost start = *net;
        let round = rewire_pass(net, dyads, cap, to_form, to_break);
        proof {
            let longer = orders.push(dyads@);
            lemma_run_prefix(
                o0,
                g0,
                l0,
                orders,
                longer,
                cap as int,
                num_formation as int,
                num_break as int,
                orders.len() as int,
            );
            assert(longer[orders.len() as int] == dyads@);
            assert forall|r: int| 0 <= r < longer.len() implies is_dyad_list(
                #[trigger] longer[r],
                net.n as int,
            ) by {
                if r < orders.len() {
                    assert(longer[r] == orders[r]);
                }
            }
            lemma_formed_within_chain(old(net), &start, net, cap as int);
            orders = longer;
        }
        to_form = to_form - round.formed;
        to_break = to_break - round.broken;
        if round.formed == 0 && round.broken == 0 {
            proof {
                stalled = true;
            }
            break ;
        }
    }
    let done = Rewired { formed: num_formation - to_form, broken: num_break - to_break };
    proof {
        assert(is_random_run(
            old(net),
            net,
            orders,
            cap as int,
            num_formation as int,
            num_break as int,
            done.formed as int,
            done.broken as int,
        ));
    }
    done
}

/// A network that is within what `formed_within` allows of a network that
/// is itself within it, is within it.
pub proof fn lemma_formed_within_chain(start: &Network, before: &Network, after: &Network, cap: int)
    requires
        before.same_frame(start),
        after.same_frame(start),
        before.formed_within(start, cap),
        after.formed_within(before, cap),
    ensures
        after.formed_within(start, cap),
{
    assert forall|v: int| 0 <= v < after.n implies #[trigger] degree_of(grid(&after.informal), v)
        <= degree_of(grid(&start.informal), v) || degree_of(grid(&after.informal), v) <= cap by {
        assert(degree_of(grid(&before.informal), v) <= degree_of(grid(&start.informal), v)
            || degree_of(grid(&before.informal), v) <= cap);
    }
    assert forall|a: int, b: int|
        #[trigger] linked(grid(&after.informal), a, b) && !linked(
            grid(&start.informal),
            a,
            b,
        ) implies !linked(grid(&start.limited), a, b) && !linked(grid(&start.formal), a, b) by {
        if linked(grid(&before.informal), a, b) {
        }
    }
}

} // verus!
