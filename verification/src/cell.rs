use vstd::prelude::*;

verus! {

/// The hidden content of a grid cell, fixed once a layout is generated:
/// either a mine, or a blank carrying the number of mines in its Moore
/// neighborhood.
#[derive(Clone, Copy, Debug, PartialEq, Eq, Structural)]
pub enum Cell {
    Mine,
    Blank(u8),
}

/// The player-visible state of a cell.
#[derive(Clone, Copy, Debug, PartialEq, Eq, Structural)]
pub enum State {
    Hidden,
    Revealed,
    Uncertain,
    Marked,
}

/// One cell of the board: its content together with its visibility.
#[derive(Clone, Copy, Debug, PartialEq, Eq, Structural)]
pub struct Block {
    pub cell: Cell,
    pub state: State,
}

/// What the presentation layer should draw for a cell: nothing, a mine
/// glyph, an adjacency count, a flag, or a question mark.
#[derive(Clone, Copy, Debug, PartialEq, Eq, Structural)]
pub enum Glyph {
    Empty,
    Count(u8),
    Mine,
    Flag,
    Question,
}

/// Construction was attempted with more mines than the grid has cells.
#[derive(Clone, Copy, Debug, PartialEq, Eq, Structural)]
pub struct ConfigurationError;

impl Block {
    /// A fresh blank, hidden cell, as every cell starts out before mines
    /// are placed.
    pub fn default() -> (b: Block)
        ensures
            b == (Block { cell: Cell::Blank(0), state: State::Hidden }),
    {
        Block { cell: Cell::Blank(0), state: State::Hidden }
    }
}

/// The mark cycle driven by a right click: `Hidden -> Marked ->
/// Uncertain -> Hidden`. `Revealed` is left alone by `toggle_mark`,
/// so the cycle never maps to or from it.
pub open spec fn cycled(s: State) -> State {
    match s {
        State::Hidden => State::Marked,
        State::Marked => State::Uncertain,
        State::Uncertain => State::Hidden,
        State::Revealed => State::Revealed,
    }
}

/// The glyph a cell shows: hidden cells are blank, revealed cells show
/// their content (a `Blank(0)` stays blank), marked cells a flag, and
/// uncertain cells a question mark.
pub open spec fn glyph_of(b: Block) -> Glyph {
    match b.state {
        State::Hidden => Glyph::Empty,
        State::Marked => Glyph::Flag,
        State::Uncertain => Glyph::Question,
        State::Revealed => match b.cell {
            Cell::Mine => Glyph::Mine,
            Cell::Blank(n) => if n == 0 {
                Glyph::Empty
            } else {
                Glyph::Count(n)
            },
        },
    }
}

/// Applying the mark cycle three times returns any non-revealed state to
/// where it started: the cycle is exactly `Hidden -> Marked -> Uncertain
/// -> Hidden`.
pub proof fn lemma_cycle_three(s: State)
    ensures
        cycled(cycled(cycled(s))) == s,
{
}

} // verus!
