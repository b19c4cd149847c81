//! Game logic of a nonogram (hanjie) puzzle game: puzzle descriptions, the
//! states of grid cells and how player actions change them, the layout
//! rules that size and place every grid element, and the bookkeeping of
//! resize events.
pub mod action;
pub mod game;
pub mod grid;
pub mod input;
pub mod layout;
pub mod puzzle;
pub mod solve;
pub mod state;
pub mod ui;
