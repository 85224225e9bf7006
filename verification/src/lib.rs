pub mod aoc;
pub mod lgl;
