pub mod game;
pub mod grid;
pub mod line;
pub mod text;
pub mod theorems;

pub use game::{Action, Game};
