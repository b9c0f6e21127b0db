//! What belongs to the console itself.

pub mod gfx;
