//! Monte Carlo tree search over abstract decision environments, and the
//! games it plays.
//!
//! - `mcts`: the search engine. An arena of nodes rooted at index 0, grown
//!   by selection, expansion, random playout and backpropagation, with
//!   periodic snapshots of the root's statistics.
//! - `jigsaw`: the fishing jigsaw puzzle as an environment.
//! - `minigames`: a row-major variant of the jigsaw that draws a random
//!   piece after each move, and a solitaire card game.
//! - `moves`: legal-move lists as increasing sequences.

pub mod jigsaw;
pub mod mcts;
pub mod minigames;
pub mod moves;
mod random;
