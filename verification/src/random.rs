use crate::params::Probability;
use rand::rngs::ThreadRng;
use rand::seq::SliceRandom;
use rand::Rng;
use vstd::prelude::*;

verus! {

/// `rand::rngs::ThreadRng`, the handle on a thread's random source. Its
/// inside is not looked at.
#[verifier::external_type_specification]
#[verifier::external_body]
pub struct ExThreadRng(rand::rngs::ThreadRng);

/// `rand::thread_rng`: a handle on the random source of the current thread.
/// Nothing is claimed of it. The call fails only where the system cannot
/// seed the source, which no argument decides.
#[verifier::external_body]
pub(crate) fn thread_source() -> ThreadRng {
    rand::thread_rng()
}

/// `Rng::gen_ratio`: a draw that holds with probability
/// `numerator / denominator`. The claim is what the method documents: with a
/// numerator of zero the draw never holds, with a numerator equal to the
/// denominator it always holds. The inputs on which the method panics, a
/// denominator of zero and a numerator above the denominator, are left out.
#[verifier::external_body]
pub(crate) fn draw_ratio(rng: &mut ThreadRng, numerator: u32, denominator: u32) -> (hit: bool)
    requires
        0 < denominator,
        numerator <= denominator,
    ensures
        numerator == 0 ==> !hit,
        numerator == denominator ==> hit,
{
    rng.gen_ratio(numerator, denominator)
}

/// `Rng::gen::<bool>`: a fair coin. Nothing is claimed of the outcome.
#[verifier::external_body]
pub(crate) fn draw_bit(rng: &mut ThreadRng) -> bool {
    rng.gen::<bool>()
}

/// `Rng::gen_range` on the half-open range from zero to `bound`: the claim is
/// that the draw lies in the range. An empty range, on which the method
/// panics, is left out.
#[verifier::external_body]
pub(crate) fn draw_below(rng: &mut ThreadRng, bound: u64) -> (ticket: u64)
    requires
        0 < bound,
    ensures
        ticket < bound,
{
    rng.gen_range(0..bound)
}

/// `SliceRandom::shuffle`: reorders the list in place by swaps, so the list
/// holds the same pairs afterwards, each as often as before.
#[verifier::external_body]
pub(crate) fn shuffle_pairs(rng: &mut ThreadRng, pairs: &mut Vec<(usize, usize)>)
    ensures
        final(pairs)@.to_multiset() == old(pairs)@.to_multiset(),
{
    pairs.shuffle(rng)
}

/// A draw that holds with probability `p`: never where `p` is zero, always
/// where `p` is one.
pub(crate) fn flip(rng: &mut ThreadRng, p: Probability) -> (hit: bool)
    requires
        p.wf(),
    ensures
        p.numerator == 0 ==> !hit,
        p.numerator == p.denominator ==> hit,
{
    draw_ratio(rng, p.numerator, p.denominator)
}

/// `count` draws, each of which holds with probability `p`: none holds where
/// `p` is zero, all hold where `p` is one.
pub(crate) fn draw_row(rng: &mut ThreadRng, p: Probability, count: usize) -> (draws: Vec<bool>)
    requires
        p.wf(),
    ensures
        draws@.len() == count,
        p.numerator == 0 ==> forall|k: int| 0 <= k < count ==> !(#[trigger] draws@[k]),
        p.numerator == p.denominator ==> forall|k: int| 0 <= k < count ==> #[trigger] draws@[k],
{
    let mut draws: Vec<bool> = Vec::new();
    let mut c: usize = 0;
    while c < count
        invariant
            c <= count,
            p.wf(),
            draws@.len() == c,
            p.numerator == 0 ==> forall|k: int| 0 <= k < c ==> !(#[trigger] draws@[k]),
            p.numerator == p.denominator ==> forall|k: int| 0 <= k < c ==> #[trigger] draws@[k],
        decreases count - c,
    {
        let hit = flip(rng, p);
        draws.push(hit);
        c += 1;
    }
    draws
}

/// A matrix of `rows` by `cols` fair coin flips.
pub(crate) fn draw_bits(rng: &mut ThreadRng, rows: usize, cols: usize) -> (bits: Vec<Vec<bool>>)
    ensures
        bits@.len() == rows,
        forall|r: int| 0 <= r < rows ==> (#[trigger] bits@[r])@.len() == cols,
{
    let mut bits: Vec<Vec<bool>> = Vec::new();
    let mut r: usize = 0;
    while r < rows
        invariant
            r <= rows,
            bits@.len() == r,
            forall|k: int| 0 <= k < r ==> (#[trigger] bits@[k])@.len() == cols,
        decreases rows - r,
    {
        let mut row: Vec<bool> = Vec::new();
        let mut c: usize = 0;
        while c < cols
            invariant
                c <= cols,
                row@.len() == c,
            decreases cols - c,
        {
            let bit = draw_bit(rng);
            row.push(bit);
            c += 1;
        }
        bits.push(row);
        r += 1;
    }
    bits
}

/// A matrix of `rows` by `cols` draws, each of which holds with probability
/// `p`: none holds where `p` is zero, all hold where `p` is one.
pub(crate) fn draw_flips(rng: &mut ThreadRng, p: Probability, rows: usize, cols: usize) -> (flips:
    Vec<Vec<bool>>)
    requires
        p.wf(),
    ensures
        flips@.len() == rows,
        forall|r: int| 0 <= r < rows ==> (#[trigger] flips@[r])@.len() == cols,
        p.numerator == 0 ==> forall|r: int, c: int|
            0 <= r < rows && 0 <= c < cols ==> !(#[trigger] flips@[r]@[c]),
        p.numerator == p.denominator ==> forall|r: int, c: int|
            0 <= r < rows && 0 <= c < cols ==> #[trigger] flips@[r]@[c],
{
    let mut flips: Vec<Vec<bool>> = Vec::new();
    let mut r: usize = 0;
    while r < rows
        invariant
            r <= rows,
            p.wf(),
            flips@.len() == r,
            forall|k: int| 0 <= k < r ==> (#[trigger] flips@[k])@.len() == cols,
            p.numerator == 0 ==> forall|k: int, c: int|
                0 <= k < r && 0 <= c < cols ==> !(#[trigger] flips@[k]@[c]),
            p.numerator == p.denominator ==> forall|k: int, c: int|
                0 <= k < r && 0 <= c < cols ==> #[trigger] flips@[k]@[c],
        decreases rows - r,
    {
        let mut row: Vec<bool> = Vec::new();
        let mut c: usize = 0;
        while c < cols
            invariant
                c <= cols,
                p.wf(),
                row@.len() == c,
                p.numerator == 0 ==> forall|k: int| 0 <= k < c ==> !(#[trigger] row@[k]),
                p.numerator == p.denominator ==> forall|k: int| 0 <= k < c ==> #[trigger] row@[k],
            decreases cols - c,
        {
            let hit = flip(rng, p);
            row.push(hit);
            c += 1;
        }
        flips.push(row);
        r += 1;
    }
    flips
}

} // verus!
