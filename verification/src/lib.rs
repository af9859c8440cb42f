pub mod board;
pub mod laws;
pub mod line;
pub mod model;
pub mod parse;
pub mod solver;
pub mod util;
