//! Rules, static evaluation and expectimax search for a two-player
//! race-and-capture board game in the family of the Royal Game of Ur.

pub mod game_manager;
pub mod strategy;
pub mod tournament;
pub mod reinforcement_learning;
pub mod training;
