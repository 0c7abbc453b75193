//! A two-team, slot-based card battle engine: the slot board, the queue of
//! pending board changes, fusion and combat resolution, and the turn state
//! machine that drives them.

pub mod cards;
pub mod combat;
pub mod controller_view;
pub mod custom_cursor;
pub mod entropy;
pub mod fusion;
pub mod game;
pub mod game_state;
pub mod game_ui_controller;
pub mod stacking;
