use crate::sums::{lemma_sum_bounds, lemma_sum_monotone, sum_to};
use vstd::prelude::*;

verus! {

/// The factor by which a weight is scaled when it is turned into a whole
/// number of tickets. Weights are ratios of small integers; the wheel works
/// on whole tickets, so each weight is held in fixed point with 32 binary
/// places and what lies beyond them is cut off.
pub const WEIGHT_SCALE: u64 = 4294967296;

/// The largest number of tickets that one entry of a wheel may hold.
pub const MAX_TICKETS: u64 = 8796093022208;

/// The largest number of entries of a wheel.
pub const MAX_ENTRIES: usize = 1048576;

/// The weight of a dyad as the exact ratio `numerator / denominator`.
#[derive(Clone, Copy, Debug, PartialEq, Eq, Structural)]
pub struct Weight {
    pub numerator: u64,
    pub denominator: u64,
}

impl Weight {
    /// The denominator is positive and the numerator small enough for the
    /// tickets to be counted.
    pub open spec fn wf(&self) -> bool {
        0 < self.denominator && self.numerator <= 2048
    }

    /// The weight in tickets: the ratio times the scale, rounded down.
    pub open spec fn spec_tickets(&self) -> int {
        self.numerator * WEIGHT_SCALE / (self.denominator as int)
    }

    /// The weight in tickets.
    pub fn tickets(&self) -> (count: u64)
        requires
            self.wf(),
        ensures
            count == self.spec_tickets(),
            count <= MAX_TICKETS,
    {
        let scaled: u64 = self.numerator * WEIGHT_SCALE;
        let count = scaled / self.denominator;
        assert(count <= scaled) by (nonlinear_arith)
            requires
                count == scaled / self.denominator,
                self.denominator > 0,
        ;
        count
    }
}

pub open spec fn ticket_term(wheel: Seq<u64>) -> spec_fn(int) -> int {
    |k: int| if 0 <= k < wheel.len() { wheel[k] as int } else { 0int }
}

/// The tickets of the first `k` entries of the wheel together.
pub open spec fn tickets_before(wheel: Seq<u64>, k: int) -> int {
    sum_to(ticket_term(wheel), k)
}

/// All tickets of the wheel together.
pub open spec fn total_tickets(wheel: Seq<u64>) -> int {
    tickets_before(wheel, wheel.len() as int)
}

/// The ticket numbered `ticket`, counting from zero through the entries in
/// order, belongs to entry `entry`.
pub open spec fn wins(wheel: Seq<u64>, ticket: int, entry: int) -> bool {
    0 <= entry < wheel.len() && tickets_before(wheel, entry) <= ticket < tickets_before(wheel, entry + 1)
}

/// A wheel small enough for its tickets to be counted.
pub open spec fn is_wheel(wheel: Seq<u64>) -> bool {
    wheel.len() <= MAX_ENTRIES && forall|k: int| 0 <= k < wheel.len() ==> #[trigger] wheel[k] <= MAX_TICKETS
}

pub proof fn lemma_wheel_bounds(wheel: Seq<u64>, k: int)
    requires
        is_wheel(wheel),
        0 <= k <= wheel.len(),
    ensures
        0 <= tickets_before(wheel, k) <= total_tickets(wheel) <= 1048576 * 8796093022208,
        tickets_before(wheel, k) <= k * 8796093022208,
{
    let f = ticket_term(wheel);
    assert forall|i: int| 0 <= i < wheel.len() implies 0 <= #[trigger] f(i) <= 8796093022208 by {
        assert(wheel[i] <= MAX_TICKETS);
    }
    lemma_sum_bounds(f, wheel.len() as int, 0, 8796093022208);
    lemma_sum_bounds(f, k, 0, 8796093022208);
    lemma_sum_monotone(f, k, wheel.len() as int);
}

/// Every ticket belongs to at most one entry.
pub proof fn law_one_winner(wheel: Seq<u64>, ticket: int, a: int, b: int)
    requires
        is_wheel(wheel),
        wins(wheel, ticket, a),
        wins(wheel, ticket, b),
    ensures
        a == b,
{
    let f = ticket_term(wheel);
    assert forall|i: int| 0 <= i < wheel.len() implies 0 <= #[trigger] f(i) by {}
    if a < b {
        lemma_sum_monotone(f, a + 1, b);
    }
    if b < a {
        lemma_sum_monotone(f, b + 1, a);
    }
}

/// All tickets of the wheel together.
pub fn count_tickets(wheel: &Vec<u64>) -> (total: u64)
    requires
        is_wheel(wheel@),
    ensures
        total == total_tickets(wheel@),
{
    let n = wheel.len();
    let mut total: u64 = 0;
    let mut k: usize = 0;
    while k < n
        invariant
            k <= n,
            n == wheel@.len(),
            is_wheel(wheel@),
            total == tickets_before(wheel@, k as int),
            total <= k * 8796093022208,
        decreases n - k,
    {
        assert(wheel@[k as int] <= MAX_TICKETS);
        total = total + wheel[k];
        k += 1;
    }
    total
}

/// The entry that the ticket numbered `ticket` belongs to.
pub fn roulette_pick(wheel: &Vec<u64>, ticket: u64) -> (entry: usize)
    requires
        is_wheel(wheel@),
        ticket < total_tickets(wheel@),
    ensures
        wins(wheel@, ticket as int, entry as int),
        wheel@[entry as int] > 0,
{
    let n = wheel.len();
    let mut passed: u64 = 0;
    let mut k: usize = 0;
    loop
        invariant
            k < n,
            n == wheel@.len(),
            is_wheel(wheel@),
            ticket < total_tickets(wheel@),
            passed == tickets_before(wheel@, k as int),
            passed <= ticket,
        decreases n - k,
    {
        proof {
            lemma_wheel_bounds(wheel@, k + 1);
        }
        let next = passed + wheel[k];
        if ticket < next {
            return k;
        }
        proof {
            if k + 1 == n {
                assert(tickets_before(wheel@, n as int) == total_tickets(wheel@));
            }
        }
        passed = next;
        k += 1;
    }
}

} // verus!
