//! Core of an ambient-sound mixer: the playback mixing model and decoder
//! choice, the download queue and its worker's decisions, the sound catalog
//! with its filtering and order, and the grid's layout.

pub mod mixer;
pub mod queue;
pub mod text;
pub mod fetch;
pub mod decode;
pub mod catalog;
pub mod config;
pub mod player;
pub mod order;
pub mod grid;
