//! Texas Hold'em showdown engine: cards, a dealer that never repeats a card,
//! the evaluator that finds the best five-card hand in a pool of five to
//! seven cards, and the resolver that breaks ties between players. Around
//! the engine: the simulation of one deal, the counts that a run of deals
//! keeps, and the lines of the file in which the counts are kept.

pub mod card;
pub mod dealer;
pub mod file_io;
pub mod filtering;
pub mod hand;
pub mod hand_analyser;
pub mod laws;
pub mod pool;
pub mod ranking;
pub mod showdown;
pub mod simulation;
pub mod sorting;
pub mod stats;
