pub mod bits;
pub mod data;
pub mod raptor;
pub mod text;

pub use data::structures::{Network, Route, RouteId, Stop, StopId, Time, Transfer};
pub use raptor::backward::BackwardRaptor;
pub mod cli;
