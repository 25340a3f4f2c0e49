pub mod audio;
pub mod config;
