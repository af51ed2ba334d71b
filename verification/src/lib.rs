//! A sliding-tile grid engine in the style of 2048.
//!
//! A square board holds tiles that carry powers of two. A move pushes all
//! tiles in one direction; tiles slide as far as they can, and two equal
//! tiles that meet merge into one of twice the value. The move is animated
//! tick by tick, and when the last tile has landed a new tile comes onto the
//! board.
//!
//! - [`game`] holds the data model: cells, coordinates, tiles, the grid and
//!   its store operations.
//! - [`store`] is the store as mathematics: a list of tiles read as a map.
//! - [`rotate`] turns the board, so that the resolver needs one direction only.
//! - [`resolve`] is the move resolver.
//! - [`animate`] is the animation scheduler and `Grid::on_tick`, the one entry
//!   point that changes a grid in play.
//! - [`flight`] shows that the moves the resolver hands out can be animated.
//! - [`spawn`] is the spawner and the game-over detector.
//! - [`outcome`] and [`laws`] state what holds of every move.
//! - [`menu`] holds the screens around the game and what a key does on each.
//! - [`trusted`] holds the two calls into other crates and what is taken on
//!   trust about them.
//!
//! Every function carries a contract that Verus proves.

pub mod animate;
pub mod flight;
pub mod game;
pub mod laws;
pub mod menu;
pub mod outcome;
pub mod resolve;
pub mod rotate;
pub mod spawn;
pub mod store;
pub mod trusted;
