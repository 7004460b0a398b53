//! Shelve: configured folders presented as lettered groups of numbered
//! entries, selectors that pick them, and the planning of PDF moves.
pub mod text;
pub mod paths;
pub mod location;
pub mod picker;
pub mod menu;
pub mod config;
pub mod moves;
pub mod batch;
pub mod cli;
pub mod sources;
pub mod laws;
