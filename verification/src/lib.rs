//! Reads a window-manager configuration file into an ordered list of
//! directives, and holds the settings model those directives feed.

pub mod config;
pub mod settings;
pub mod text;
