//! A verified solver core for Klondike patience (draw-3, unlimited redeals).
//!
//! The crate models one game position compactly (stock, waste, seven
//! columns, four foundation counters), enumerates and applies legal moves,
//! fingerprints positions for cycle detection, and runs a bounded
//! depth-first search that either produces a winning move sequence or
//! reports why the search stopped.

pub mod canonical_decks;
pub mod card;
pub mod display;
pub mod game;
pub mod moves;
pub mod pysol_decks;
pub mod search;
pub mod stats;
pub mod tableau;
pub mod text;
