//! A verified rules engine for Klondike solitaire.
//!
//! The library models the full game state (stock, waste, four foundations,
//! seven tableau piles and an undo log) and proves that every operation
//! preserves the game's invariants: the 52 cards are always partitioned
//! across the piles, foundations grow in suit from the ace, and the face-up
//! portion of every tableau pile is a descending, colour-alternating run.

pub mod card;
pub mod rules;
pub mod state;
pub mod undo;
pub mod moves;
pub mod deal;
pub mod laws;
pub mod input;
