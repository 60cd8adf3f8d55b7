pub mod cell;
pub mod field;
pub mod game;
pub mod pattern;
