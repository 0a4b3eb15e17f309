//! Plain values exchanged with the callers of the engine.

use vstd::prelude::*;

verus! {

/// A message for the caller's log.
#[derive(Debug, Clone)]
pub struct LogArgs {
    pub message: String,
}

/// An RGB colour.
#[derive(Debug, Clone, Copy, PartialEq, Eq, PartialOrd, Ord, Hash, Structural)]
pub struct Color {
    pub r: u8,
    pub g: u8,
    pub b: u8,
}

/// The colour of a cell that holds nothing.
pub open spec fn white() -> Color {
    Color { r: 255, g: 255, b: 255 }
}

/// A picture of the board: `grid[y][x]` is the colour of cell `(x, y)`.
#[derive(Debug, Clone)]
pub struct ColorGrid {
    pub grid: Vec<Vec<Color>>,
}

/// The size of a board that a caller asks for.
#[derive(Debug, Clone, Copy)]
pub struct NewGridArgs {
    pub rows: usize,
    pub cols: usize,
}

/// A cell and the colour that a caller painted it with.
#[derive(Debug, Clone, Copy)]
pub struct ClickCellArgs {
    pub x: usize,
    pub y: usize,
    pub r: u8,
    pub g: u8,
    pub b: u8,
}

} // verus!
