//! A spaced-repetition vocabulary trainer: datasets of word pairs, a session
//! scheduler that builds and drives a review queue, answer checking with
//! tolerance, and a deck ladder that reschedules each card per direction.

pub mod text;
pub mod timestamp;
pub mod config;
pub mod card;
pub mod session;
