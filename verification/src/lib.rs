//! An adversarial minesweeper: the mines are not laid when the game starts.
//! A square stays undetermined until the player's reveals force a decision,
//! and the board then commits, among all the mine layouts that agree with
//! the clues shown so far, one whose new clues are the most common.
//!
//! [`Board`] holds the squares, and [`Grid`] is its mathematical value, over
//! which every contract is stated. The modules build on each other:
//! `cell` and `grid` give the squares and the ranges of mines around them,
//! `board` the basic operations, `legality` and `clues` the laws of clues,
//! `search` the enumeration of the layouts that the clues admit, `tally` and
//! `collapse` the choice among them, and `game` the decisions around a
//! reveal.

pub mod assignment;
pub mod board;
pub mod cell;
pub mod chance;
pub mod clues;
pub mod collapse;
pub mod counting;
pub mod frontier;
pub mod game;
pub mod grid;
pub mod legality;
pub mod order;
pub mod path;
pub mod search;
pub mod storage;
pub mod tally;

pub use board::Board;
pub use cell::Cell;
pub use grid::Grid;
