//! Enumerates the paths of adjacent cells on a 5×5 letter grid that spell
//! words of a lexicon, with a verified depth-first search that prunes every
//! branch whose letters begin no word.
pub mod grid;
pub mod laws;
pub mod lexicon;
pub mod search;

pub use grid::{generate_grid, GridError, Letter, SIZE};
pub use search::get_combos;
