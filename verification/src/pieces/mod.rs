//! Piece assembly and the layout of the output files.

pub mod file_manager;
pub mod laws;
pub mod piece_manager;
