pub mod sides;
pub mod text;
pub mod game;
pub mod solver;
pub mod game_data;
