pub mod color;
pub mod grid;
pub mod playfield;
pub mod game;

pub use crate::color::Color;
pub use crate::color::palette_color;
pub use crate::playfield::Playfield;
pub use crate::game::Game;
