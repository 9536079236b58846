//! The view: state that survives snapshots, what each part of the screen shows, and
//! what keys and mouse events do.
pub mod entries;
pub mod format;
pub mod input;
pub mod keytimes;
pub mod laws;
pub mod ordering;
pub mod render;
pub mod screen_laws;
pub mod state;
pub mod state_laws;
