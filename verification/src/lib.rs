//! Conway's Game of Life on a fixed-size grid, with machine-checked contracts.
//!
//! The engine in [`game`] owns a rectangular grid of [`cell::Cell`]s together
//! with an index of the positions that are alive. Every operation is specified
//! against the mathematical model in [`board`].

pub mod board;
pub mod cell;
pub mod game;
pub mod game_error;
