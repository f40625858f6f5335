//! A 9×9 Sudoku engine: grid storage, candidate calculation, a least-candidate
//! solver with backtracking, and a seeded puzzle generator.

pub mod backtracking;
pub mod board;
pub mod collapse;
pub mod entropy;
pub mod generator;
pub mod moves;
pub mod random;
pub mod removal;
pub mod render;
pub mod rules;
pub mod solver;
