//! Monkey Miner's game rules: the maze grid, its generation, the searches
//! over it, the placement of items, the rat's decisions and the run's
//! bookkeeping.

pub mod maze;
mod random;
pub mod generate;
pub mod layout;
pub mod search;
pub mod placement;
pub mod rat;
pub mod run;

