//! The simulation engine of a small artificial-life world: an entity registry
//! that holds each cell's receptors, the resource rules of a cell's energy and
//! health, and the tick that drives receptors against peers and sweeps dead
//! cells away.

pub mod ecs;
pub mod cell;
pub mod pass;
pub mod receptor;
pub mod simulation;
pub mod timing;
