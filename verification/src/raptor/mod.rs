pub mod backward;
pub mod geojson;
pub mod journey;
pub mod private_bus;

pub use backward::BackwardRaptor;
pub use journey::{parse_time, JourneySummary};
pub use private_bus::PrivateBusPlanner;

use vstd::prelude::*;

verus! {

/// A journey planner over a transit network.
pub trait RaptorAlgorithm {
    type Journey;

    /// The best journey between two stops leaving at `departure_time`, if any.
    fn find_journey(&self, origin: u32, destination: u32, departure_time: u32) -> Option<Self::Journey>;
}

/// What a planned journey reports about itself.
pub trait RaptorJourney {
    /// The total travel time.
    fn total_time(&self) -> u32;

    /// The number of transfers.
    fn num_transfers(&self) -> usize;

    /// A readable summary.
    fn summary(&self) -> String;
}

} // verus!
