//! Rule engine of a grid-based mine-detection puzzle.
//!
//! The board owns a flat, row-major array of cells. Positions map to indices
//! with `index = x + y * width`; reveals cascade across regions of cells with
//! no adjacent mines, and the outcome is recomputed from the cells each time.
pub mod board;
pub mod field;
pub mod grid;
