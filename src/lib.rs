//! A single-table Texas Hold'em round engine: cards and the deck, seat roles,
//! per-seat state, the betting state machine of a street, main and side pots,
//! and the showdown hand evaluator, each with its contract.

pub mod card;
pub mod deck;
pub mod variant;
pub mod position;
pub mod player;
pub mod reply;
pub mod hand;
pub mod betting;
pub mod pot;
pub mod game;
