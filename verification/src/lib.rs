pub mod agents;
pub mod belief;
pub mod dyads;
pub mod dynamics;
pub mod error;
pub mod export;
pub mod hierarchy;
pub mod initialize;
pub mod learning;
pub mod network;
pub mod network_analyzer;
pub mod params;
pub mod preference;
pub mod paths;
pub mod random;
pub mod relation;
pub mod rewiring;
pub mod roulette;
pub mod scenario;
pub mod sums;
pub mod weights;
