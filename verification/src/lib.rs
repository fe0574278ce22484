//! Engine for a 4x4x4 stacking connect-four game: a bitboard model of the
//! cube, detection of the 76 winning lines, and move-selection policies
//! (uniform random, fixed-depth minimax, and Monte-Carlo tree search).

pub mod agent;
pub mod board;
pub mod count;
pub mod lines;
pub mod mcts;
pub mod minimax;
pub mod rng;
pub mod text;
