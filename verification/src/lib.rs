//! Incremental edit distances between a fixed source text and a text that is
//! typed one character at a time, and a typing session built on them.

pub mod display;
pub mod incremental_levenshtein;
pub mod playing_music;

pub use incremental_levenshtein::{DistanceIncremental, PositionIncremental};
pub use playing_music::PlayingMusic;
