//! A discrete-tick road-traffic simulation over a directed graph of nodes.
//!
//! The network is a directed graph whose nodes carry fixed-point integer
//! positions.  Shortest routes between entry and exit nodes are precomputed
//! by breadth-first search; vehicles advance along those routes each tick,
//! held back by the vehicle ahead and by an exclusive per-node reservation
//! that arbitrates shared intersections.

mod geometry;
mod graph;
mod ids;
mod limiter;
mod paths;
mod random;
mod reservations;
mod simulation;
mod vehicle;

pub use geometry::Position;
pub use geometry::COORD_LIMIT;

pub use graph::Edge;
pub use graph::InvalidGraph;
pub use graph::Node;
pub use graph::NodeGraph;
pub use ids::VehicleIdGenerator;
pub use limiter::VehicleSpawnLimiter;
pub use paths::PathEntry;
pub use reservations::ReservationTable;
pub use reservations::VehicleSnap;
pub use simulation::InvalidConfig;
pub use simulation::SimConfig;
pub use simulation::Simulation;
pub use simulation::TickReport;
pub use vehicle::Vehicle;
pub use vehicle::VehicleState;
