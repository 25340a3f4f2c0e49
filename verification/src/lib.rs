//! Keystroke display and keyboard sound support: display configuration,
//! sound pack descriptions, sample buffers and sound pack path handling.

pub mod application;
pub mod domain;
pub mod infrastructure;
