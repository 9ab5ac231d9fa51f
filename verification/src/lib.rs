//! Enumeration and direct construction of non-attacking piece placements
//! (queens, bishops, rooks) on an N x N board.
//!
//! Each enumerator's contract pins its output exactly: everything returned
//! is a valid, attack-free assignment of one column per row, every placement
//! the algorithm admits is present, and none appears twice.
pub mod bishops;
pub mod board;
pub mod castles;
pub mod dihedral;
pub mod geometry;
pub mod queens;
pub mod queens_symmetry;
pub mod render;
pub mod symmetry;

pub use crate::geometry::{
    bishop_conflict, bishop_ok, bishop_safe, count_true, is_col_permutation, queen_conflict,
    queen_ok, queen_safe,
};

pub use crate::bishops::{n_bishop_backtrack, NBishopsState};
pub use crate::board::{Column, NQueens, Rows, Solutions};
pub use crate::castles::{n_castles_permute, NCastlesState};
pub use crate::queens::{n_queens_backtrack, n_queens_modular, n_queens_symmetry, NQueensState};
pub use crate::queens_symmetry::NQueensSymmetry;
