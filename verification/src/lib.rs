use vstd::prelude::*;

pub mod cell;
pub mod layout;
pub mod message;
pub mod mine_map;

pub use cell::Block;
pub use cell::Cell;
pub use cell::ConfigurationError;
pub use cell::Glyph;
pub use cell::State;
pub use message::MouseButton;
pub use message::MouseMessage;
pub use mine_map::MineMap;
pub use mine_map::RevealOutcome;
pub use mine_map::ToggleOutcome;

verus! {

} // verus!
