use vstd::prelude::*;

verus! {

/// A player's side; `Neither` marks a cell or user that belongs to neither player.
#[derive(Debug, Clone, Copy, PartialEq, Eq, Structural)]
pub enum Color {
    Red,
    Blue,
    Neither,
}

/// Error signalled when a claim names a cell kind that cannot be placed
/// (claiming `Empty` is invalid).
#[derive(Debug, Clone, Copy, PartialEq, Eq, Structural)]
pub struct CellReadError;

/// One square of the grid.  A cell starts `Empty` and is claimed at most
/// once; `Neutral` cells block the spread of both players.
#[derive(Debug, Clone, Copy, PartialEq, Eq, Structural)]
pub enum Cell {
    Empty,
    Neutral,
    Red,
    Blue,
}

impl Cell {
    /// The side a cell belongs to: `Empty` and `Neutral` belong to neither.
    pub open spec fn spec_to_color(self) -> Color {
        match self {
            Cell::Empty => Color::Neither,
            Cell::Neutral => Color::Neither,
            Cell::Red => Color::Red,
            Cell::Blue => Color::Blue,
        }
    }

    pub fn to_color(&self) -> (c: Color)
        ensures
            c == self.spec_to_color(),
    {
        match self {
            Cell::Empty => Color::Neither,
            Cell::Neutral => Color::Neither,
            Cell::Red => Color::Red,
            Cell::Blue => Color::Blue,
        }
    }
}

impl Color {
    /// The cell value a side places on the board; `Neither` places nothing
    /// and maps to `Empty`, which no claim accepts.
    pub open spec fn spec_to_cell(self) -> Cell {
        match self {
            Color::Red => Cell::Red,
            Color::Blue => Cell::Blue,
            Color::Neither => Cell::Empty,
        }
    }

    pub fn to_cell(&self) -> (c: Cell)
        ensures
            c == self.spec_to_cell(),
    {
        match self {
            Color::Red => Cell::Red,
            Color::Blue => Cell::Blue,
            Color::Neither => Cell::Empty,
        }
    }
}

impl Default for Cell {
    fn default() -> (c: Self)
        ensures
            c == Cell::Empty,
    {
        Cell::Empty
    }
}

} // verus!
