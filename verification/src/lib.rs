//! Generator and solver for square grid puzzles with row, column and block
//! uniqueness (Sudoku), with machine-checked contracts.

pub mod board;
pub mod board4x4;
pub mod board9x9;
pub mod grid;
pub mod input;
pub mod output;
pub mod questions;
pub mod random;
pub mod search;
pub mod slots;
pub mod solver;
pub mod text;
pub mod values;

pub use board::{Board, BoardElement, ElementSet, FillResult};
pub use board4x4::{Board4x4, Board4x4Element, Board4x4ElementSet};
pub use board9x9::{Board9x9, Board9x9Element, Board9x9ElementSet};
pub use slots::{
    BlockSlotIterator, ColumnSlotIterator, DiagonalSlotIterator, RowSlotIterator, Slot,
    SlotIterator,
};
pub use solver::{BoardSolutions, Solve, SolvingContext};
