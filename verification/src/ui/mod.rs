//! The interactive progress display: its state, what it shows and how it reacts to keys.

pub mod job;
pub mod laws;
pub mod model;
pub mod session;
pub mod state;
pub mod view;
