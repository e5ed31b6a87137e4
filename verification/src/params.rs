use vstd::prelude::*;

verus! {

/// The largest population that the arithmetic of this crate is proved for.
/// The wheel of rewiring counts one entry for each of the `n * (n - 1) / 2`
/// dyads, each of up to `(n + 1) * 2^32` tickets, in 64 bits; that holds up
/// to some two thousand nodes, and 1024 is the power of two within it. The
/// sums of distances and of their squares, of at most `n^3`, fit with room
/// to spare.
pub const MAX_NODES: usize = 1024;

/// The largest number of elements that reality and a belief may have. A
/// score is at most that number and is held in a `usize`, which may have no
/// more than 32 bits; the sum of the scores of at most `MAX_NODES` agents
/// then fits in 64 bits.
pub const MAX_ELEMENTS: usize = 4294967295;

/// A probability held as an exact ratio `numerator / denominator`.
#[derive(Clone, Copy, Debug)]
pub struct Probability {
    pub numerator: u32,
    pub denominator: u32,
}

impl Probability {
    /// A probability lies between zero and one and has a positive denominator.
    pub open spec fn wf(&self) -> bool {
        0 < self.denominator && self.numerator <= self.denominator
    }

    /// The ratio `numerator / denominator`, or `None` where that is no probability.
    pub fn new(numerator: u32, denominator: u32) -> (p: Option<Probability>)
        ensures
            p.is_some() <==> (0 < denominator && numerator <= denominator),
            p matches Some(q) ==> q.numerator == numerator && q.denominator == denominator && q.wf(),
    {
        if denominator > 0 && numerator <= denominator {
            Some(Probability { numerator, denominator })
        } else {
            None
        }
    }
}

/// The constants that every instance of one experiment shares.
#[derive(Clone, Copy, Debug)]
pub struct Config {
    /// Population size.
    pub n: usize,
    /// Number of bundles in reality and in each belief.
    pub m_of_bundle: usize,
    /// Number of elements in each bundle.
    pub m_in_bundle: usize,
    /// The most informal ties that rewiring lets a node have.
    pub informal_max_num: usize,
    /// Ties formed, and ties broken, in each step.
    pub informal_rewiring_num: usize,
    /// Extra ties added to the hierarchy at initialization.
    pub num_addition: usize,
    /// Whether the children of each node are linked in a ring.
    pub link_level: bool,
    /// Whether ties between nodes more than one level apart are forbidden.
    pub limit_level: bool,
    /// Probability with which an agent adopts a differing element.
    pub p_learning: Probability,
}

impl Config {
    /// The population and the number of elements are within what the
    /// arithmetic is proved for, and the learning probability is a
    /// probability.
    pub open spec fn wf(&self) -> bool {
        &&& 1 <= self.n <= MAX_NODES
        &&& self.m_of_bundle * self.m_in_bundle <= MAX_ELEMENTS
        &&& self.p_learning.wf()
    }

    /// Whether the configuration is one that the simulation accepts.
    pub fn is_valid(&self) -> (ok: bool)
        ensures
            ok == self.wf(),
    {
        let of: u128 = self.m_of_bundle as u128;
        let within: u128 = self.m_in_bundle as u128;
        assert(of * within <= 0xffff_ffff_ffff_ffff * 0xffff_ffff_ffff_ffff) by (nonlinear_arith)
            requires
                of <= 0xffff_ffff_ffff_ffff,
                within <= 0xffff_ffff_ffff_ffff,
        ;
        1 <= self.n && self.n <= MAX_NODES && of * within <= 4294967295
            && self.p_learning.denominator > 0 && self.p_learning.numerator
            <= self.p_learning.denominator
    }
}

/// The values that a run starts from before any file has been named.
#[derive(Clone, Debug)]
pub struct Globals {
    /// Milliseconds since the epoch at which the run began.
    pub tic: u128,
    /// Name of the output file, once one is chosen.
    pub filename: Option<String>,
    /// Directory of the tabular exports, once one is chosen.
    pub path_csv: Option<String>,
}

/// The globals of a run that began at `now_millis`: no file is named yet.
pub fn initialize_globals(now_millis: u128) -> (globals: Globals)
    ensures
        globals.tic == now_millis,
        globals.filename is None,
        globals.path_csv is None,
{
    Globals { tic: now_millis, filename: None, path_csv: None }
}

/// How many values each swept parameter takes, and how many time steps a
/// run has.
#[derive(Clone, Copy, Debug)]
pub struct SweepShape {
    pub num_social_dynamics: usize,
    pub length_span: usize,
    pub length_enforcement: usize,
    pub length_turbulence: usize,
    pub length_turnover: usize,
    pub time: usize,
}

/// One index into each swept parameter.
pub type Combination = (usize, usize, usize, usize, usize);

/// One index into each swept parameter, and a time step.
pub type TimedCombination = (usize, usize, usize, usize, usize, usize);

impl SweepShape {
    /// Every index of `c` lies within its parameter.
    pub open spec fn holds(&self, c: Combination) -> bool {
        &&& c.0 < self.num_social_dynamics
        &&& c.1 < self.length_span
        &&& c.2 < self.length_enforcement
        &&& c.3 < self.length_turbulence
        &&& c.4 < self.length_turnover
    }

    /// The place of `c` when all combinations are listed with the first
    /// index changing slowest and the last fastest.
    pub open spec fn rank(&self, c: Combination) -> int {
        (((c.0 * self.length_span + c.1) * self.length_enforcement + c.2) * self.length_turbulence
            + c.3) * self.length_turnover + c.4
    }

    /// Every index of `c` lies within its parameter, and its time step
    /// within the run.
    pub open spec fn holds_timed(&self, c: TimedCombination) -> bool {
        self.holds((c.0, c.1, c.2, c.3, c.4)) && c.5 < self.time
    }

    /// The place of `c` when the time steps of each combination are listed
    /// together, in the order of the combinations.
    pub open spec fn rank_timed(&self, c: TimedCombination) -> int {
        self.rank((c.0, c.1, c.2, c.3, c.4)) * self.time + c.5
    }

    /// The number of combinations.
    pub open spec fn count(&self) -> int {
        self.rank((self.num_social_dynamics, 0, 0, 0, 0))
    }
}

/// All combinations of parameter indices, without and with time steps.
#[derive(Clone, Debug)]
pub struct IndexCombinations {
    pub combinations: Vec<Combination>,
    pub combinations_with_time: Vec<TimedCombination>,
}

proof fn lemma_next_block(x: int, l: int)
    ensures
        (x + 1) * l == x * l + l,
{
    assert((x + 1) * l == x * l + l) by (nonlinear_arith);
}

/// Lists every combination of parameter indices, each at the place that its
/// rank gives, and the same with every time step.
pub fn initialize_once_cells(shape: &SweepShape) -> (cells: IndexCombinations)
    ensures
        cells.combinations@.len() == shape.count(),
        forall|k: int|
            0 <= k < cells.combinations@.len() ==> shape.holds(#[trigger] cells.combinations@[k])
                && shape.rank(cells.combinations@[k]) == k,
        cells.combinations_with_time@.len() == shape.count() * shape.time,
        forall|k: int|
            0 <= k < cells.combinations_with_time@.len() ==> shape.holds_timed(
                #[trigger] cells.combinations_with_time@[k],
            ) && shape.rank_timed(cells.combinations_with_time@[k]) == k,
{
    let mut combinations: Vec<Combination> = Vec::new();
    let mut timed: Vec<TimedCombination> = Vec::new();
    let mut a: usize = 0;
    proof {
        lemma_next_block(-1, shape.length_span as int);
        lemma_next_block(-1, shape.length_enforcement as int);
        lemma_next_block(-1, shape.length_turbulence as int);
        lemma_next_block(-1, shape.length_turnover as int);
        lemma_next_block(-1, shape.time as int);
    }
    while a < shape.num_social_dynamics
        invariant
            a <= shape.num_social_dynamics,
            combinations@.len() == shape.rank((a, 0, 0, 0, 0)),
            timed@.len() == combinations@.len() * shape.time,
            forall|k: int|
                0 <= k < combinations@.len() ==> shape.holds(#[trigger] combinations@[k])
                    && shape.rank(combinations@[k]) == k,
            forall|k: int|
                0 <= k < timed@.len() ==> shape.holds_timed(#[trigger] timed@[k])
                    && shape.rank_timed(timed@[k]) == k,
        decreases shape.num_social_dynamics - a,
    {
        let mut b: usize = 0;
        while b < shape.length_span
            invariant
                a < shape.num_social_dynamics,
                b <= shape.length_span,
                combinations@.len() == shape.rank((a, b, 0, 0, 0)),
                timed@.len() == combinations@.len() * shape.time,
                forall|k: int|
                    0 <= k < combinations@.len() ==> shape.holds(#[trigger] combinations@[k])
                        && shape.rank(combinations@[k]) == k,
                forall|k: int|
                    0 <= k < timed@.len() ==> shape.holds_timed(#[trigger] timed@[k])
                        && shape.rank_timed(timed@[k]) == k,
            decreases shape.length_span - b,
        {
            let mut c: usize = 0;
            while c < shape.length_enforcement
                invariant
                    a < shape.num_social_dynamics,
                    b < shape.length_span,
                    c <= shape.length_enforcement,
                    combinations@.len() == shape.rank((a, b, c, 0, 0)),
                    timed@.len() == combinations@.len() * shape.time,
                    forall|k: int|
                        0 <= k < combinations@.len() ==> shape.holds(#[trigger] combinations@[k])
                            && shape.rank(combinations@[k]) == k,
                    forall|k: int|
                        0 <= k < timed@.len() ==> shape.holds_timed(#[trigger] timed@[k])
                            && shape.rank_timed(timed@[k]) == k,
                decreases shape.length_enforcement - c,
            {
                let mut d: usize = 0;
                while d < shape.length_turbulence
                    invariant
                        a < shape.num_social_dynamics,
                        b < shape.length_span,
                        c < shape.length_enforcement,
                        d <= shape.length_turbulence,
                        combinations@.len() == shape.rank((a, b, c, d, 0)),
                        timed@.len() == combinations@.len() * shape.time,
                        forall|k: int|
                            0 <= k < combinations@.len() ==> shape.holds(
                                #[trigger] combinations@[k],
                            ) && shape.rank(combinations@[k]) == k,
                        forall|k: int|
                            0 <= k < timed@.len() ==> shape.holds_timed(#[trigger] timed@[k])
                                && shape.rank_timed(timed@[k]) == k,
                    decreases shape.length_turbulence - d,
                {
                    let mut e: usize = 0;
                    while e < shape.length_turnover
                        invariant
                            a < shape.num_social_dynamics,
                            b < shape.length_span,
                            c < shape.length_enforcement,
                            d < shape.length_turbulence,
                            e <= shape.length_turnover,
                            combinations@.len() == shape.rank((a, b, c, d, e)),
                            timed@.len() == combinations@.len() * shape.time,
                            forall|k: int|
                                0 <= k < combinations@.len() ==> shape.holds(
                                    #[trigger] combinations@[k],
                                ) && shape.rank(combinations@[k]) == k,
                            forall|k: int|
                                0 <= k < timed@.len() ==> shape.holds_timed(#[trigger] timed@[k])
                                    && shape.rank_timed(timed@[k]) == k,
                        decreases shape.length_turnover - e,
                    {
                        let ghost place = combinations@.len() as int;
                        let mut t: usize = 0;
                        while t < shape.time
                            invariant
                                a < shape.num_social_dynamics,
                                b < shape.length_span,
                                c < shape.length_enforcement,
                                d < shape.length_turbulence,
                                e < shape.length_turnover,
                                t <= shape.time,
                                place == shape.rank((a, b, c, d, e)),
                                timed@.len() == place * shape.time + t,
                                forall|k: int|
                                    0 <= k < timed@.len() ==> shape.holds_timed(
                                        #[trigger] timed@[k],
                                    ) && shape.rank_timed(timed@[k]) == k,
                            decreases shape.time - t,
                        {
                            timed.push((a, b, c, d, e, t));
                            t += 1;
                        }
                        combinations.push((a, b, c, d, e));
                        proof {
                            lemma_next_block(place, shape.time as int);
                        }
                        e += 1;
                    }
                    proof {
                        let x = ((a * shape.length_span + b) * shape.length_enforcement + c)
                            * shape.length_turbulence + d;
                        lemma_next_block(x, shape.length_turnover as int);
                    }
                    d += 1;
                }
                proof {
                    let x = (a * shape.length_span + b) * shape.length_enforcement + c;
                    lemma_next_block(x, shape.length_turbulence as int);
                }
                c += 1;
            }
            proof {
                let x = a * shape.length_span + b;
                lemma_next_block(x, shape.length_enforcement as int);
            }
            b += 1;
        }
        proof {
            lemma_next_block(a as int, shape.length_span as int);
        }
        a += 1;
    }
    IndexCombinations { combinations, combinations_with_time: timed }
}

} // verus!
