//! Rule engine of a mine-detection puzzle on a rectangular grid.
//!
//! The engine lays a random minefield, counts the mines around every cell
//! without one, interprets the player's two actions (reveal and flag), spreads
//! a reveal over a connected region of cells with no mine around them, and
//! decides when the game is won or lost. It draws nothing and reads no clock:
//! a front end hands it clicks and the time, and asks it what to show.
//!
//! - [`cell`]: the cell and its tag.
//! - [`grid`]: indices, coordinates and neighbours on a row-major grid.
//! - [`census`]: the sets of cells that hold a mine or carry a tag.
//! - [`field`]: laying the mines and counting them around each cell.
//! - [`state`]: the game as a mathematical value, with its rules.
//! - [`flood`]: why the worklist of a reveal uncovers exactly its region.
//! - [`game`]: the game itself, [`game::AppGui`], with actions and queries.
//! - [`laws`]: what the rules guarantee.
//!
//! The contract of every function speaks of [`state::GameState`], the model of
//! a game, and Verus proves each function against it.

pub mod cell;
pub mod grid;
pub mod census;
pub mod field;
pub mod state;
pub mod flood;
pub mod game;
pub mod laws;
