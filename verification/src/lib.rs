//! A two-board naval combat game: each side hides a fleet of five ships on a
//! 10 x 10 grid and fires at the opponent's grid until one fleet is destroyed.
//!
//! The crate covers the game's core: collision-free random fleet placement,
//! attack resolution (hit, miss and destruction bookkeeping) and win
//! detection. Rendering and input handling are left to the surrounding
//! application.

pub mod board;
pub mod game;
pub mod player;
pub mod position;
pub mod ship;
mod rng;
