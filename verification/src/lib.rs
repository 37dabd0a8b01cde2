//! Rule engine of a sliding-tile merge puzzle played on a four by four board.
//!
//! A directional input slides every tile towards one edge and sums a tile into
//! the neighbour it meets when that neighbour is empty or holds the same value.
//! After each accepted move new tiles may appear, the score grows by what was
//! merged, and a full board may end the round.
//!
//! [`rules`] holds the mathematical model, [`board`] the executable board and
//! its move resolver, [`spawn`] the spawn policy, [`round`] the controller of
//! a round, and [`laws`] what is proved of all of them. [`chains`] and
//! [`lines`] hold the lemmas behind the laws.

pub mod board;
pub mod chains;
pub mod laws;
pub mod lines;
pub mod round;
pub mod rules;
pub mod spawn;
