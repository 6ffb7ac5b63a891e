//! A move-choosing engine for the disc-flipping game played on an 8 by 8 board.

pub mod bits;
pub mod board;
pub mod chance;
pub mod client;
pub mod matcher;
pub mod options;
pub mod picture;
pub mod protocol;
pub mod rules;
pub mod strategy;
