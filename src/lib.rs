//! A grid world in which agents walk at random or head for the nearest
//! destination along a shortest path found by breadth-first search.

pub mod square;
pub mod grid;
pub mod search;
pub mod parse;
pub mod walk;
pub mod sim;
