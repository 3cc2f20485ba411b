//! Simulation core of a match-three puzzle: a grid of typed tokens, detection
//! of runs of three, swap validation, gravity refill, and a crafting cauldron
//! that consumes matched tokens against a recipe.

pub mod random;
pub mod matcher;
pub mod grid;
pub mod detector;
pub mod gravity;
pub mod board;
pub mod cauldron;
pub mod animate;
pub mod selection;
