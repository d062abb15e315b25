pub mod text;
pub mod grid;
pub mod board;
pub mod throw;
pub mod play;
pub mod search;
pub mod openings;
pub mod level;
pub mod render;
pub mod checks;
