use vstd::prelude::*;

verus! {

/// Which mouse button a click came from: the left button reveals, the
/// right button toggles a mark.
#[derive(Clone, Copy, Debug, PartialEq, Eq, Structural)]
pub enum MouseButton {
    Left,
    Right,
}

/// One input event from the presentation layer: a button and the
/// `(row, column)` of the clicked cell.
#[derive(Clone, Copy, Debug)]
pub struct MouseMessage {
    pub button: MouseButton,
    pub location: (usize, usize),
}

} // verus!
