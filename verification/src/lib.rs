//! A verified N-by-N tic-tac-toe engine together with a tabular Q-learning
//! agent that trains against a uniformly random opponent.
//!
//! The board engine models the grid as a flat vector of cells and proves the
//! line-sum win detection correct against a direct "every cell of a line is
//! one player's mark" specification. The learner stores fixed-point value
//! estimates in a sparse table keyed by an encoded board state, and the
//! temporal-difference update rule is specified and proved exactly.

pub mod agent;
pub mod q_matrix;
pub mod q_store;
pub mod rng;
pub mod tic_tac_toe;
