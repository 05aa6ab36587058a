//! Verified core of a discrete billiard simulation: the placement of the
//! balls on their starting grid, the search for the earliest collisions of a
//! time step, and the run state of a simulation that drives two billiards.

pub mod collision;
pub mod grid;
pub mod simulation;
