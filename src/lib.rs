//! A nonogram solver by line propagation: each row and column keeps the fillings
//! of its clue that are still possible, narrows them by the known cells, infers the
//! cells on which they all agree, and passes what it learns to the crossing lines
//! until nothing changes or an iteration budget runs out.

pub mod cell;
pub mod line;
pub mod line_algorithms;
pub mod puzzle;
pub mod puzzle_factory;
pub mod text;
