//! Rule engine of a game-progression tracker: a small condition language over
//! named nodes, the dependency order in which nodes are re-evaluated, and the
//! state machine that moves every node between its lifecycle states.

pub mod assets;
pub mod convergence;
pub mod display;
pub mod engine;
pub mod error;
pub mod expression;
pub mod module;
pub mod order;
pub mod parser;
pub mod state;
pub mod tracker;
