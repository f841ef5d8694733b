//! A statistical chat-line model: a character-class tokenizer, per-user
//! bigram/trigram frequency learning, cumulative weighted-sampling tables,
//! and a blended sentence generator.

pub mod command;
pub mod dice;
pub mod generate;
pub mod history;
pub mod model;
pub mod rng;
pub mod search;
pub mod text;
pub mod tokenizer;
