//! Decision core of a grid-exploring agent: a sparse map of observed tiles,
//! position tracking, a door detector and a breadth-first frontier search.

pub mod grid;
pub mod store;
pub mod explore;
pub mod door;
pub mod agent;
