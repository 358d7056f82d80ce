//! Decision engine for a 4-player, partnership trick-taking card game
//! played with a 32-card deck (4 suits of 8 ranks), 8 tricks per round,
//! with an optional trump suit chosen by the dealer.
//!
//! The round state is a bitboard-encoded state machine that enforces
//! follow-suit and over-trump legality; move recommendations come from a
//! Monte-Carlo Tree Search over determinized samples of the hidden hands.

pub mod card;
pub mod game;
pub mod trick;
pub mod tree;
pub mod action;
pub mod rng;
pub mod player;
pub mod round;
pub mod stack;
