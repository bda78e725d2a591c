//! A self-learning N-in-a-row engine: a board with a canonical integer
//! state key and win detection, a learning bot that samples moves from a
//! per-state weight table, and an orchestrator that drives self-play
//! training games and feeds the outcomes back into the bots' memories.

pub mod board;
pub mod bot;
pub mod persist;
pub mod rng;
pub mod train;
