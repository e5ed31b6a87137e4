use vstd::prelude::*;

verus! {

/// Why an operation of the simulation could not do all that was asked.
#[derive(Clone, Copy, Debug, PartialEq, Eq, Structural)]
pub enum SimulationError {
    /// A quota of ties to form or to break was larger than the network could
    /// take. The counts say how many ties were formed and broken before
    /// nothing eligible was left.
    NoEligibleCandidates { formed: usize, broken: usize },
    /// The relation handed in is not a symmetric relation without self-loops
    /// over exactly the expected number of nodes.
    MalformedRelation,
}

} // verus!
