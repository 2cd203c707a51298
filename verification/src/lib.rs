//! Rules engine of a sliding-tile puzzle on a four by four grid: tiles slide
//! and merge in one of four directions, merges score points, a new tile
//! appears after every move that changed the grid, and the game ends when no
//! move is left.

pub mod board;
pub mod board_value;
pub mod coordinate;
pub mod field;
pub mod field_add_random_value;
pub mod field_gameover;
pub mod field_move_and_merge;
pub mod field_rotate;
pub mod game;
pub mod game_actions;
pub mod highscore_calculator;
pub mod move_laws;
pub mod random;
