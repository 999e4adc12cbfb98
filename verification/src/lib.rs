//! A turn-based word-association engine: an embedding index, a word cache,
//! and the constraint rules shared by all game variants.

pub mod cache;
pub mod chain;
pub mod command;
pub mod cosine;
pub mod decimal;
pub mod dictionary;
pub mod embeddings;
pub mod laws;
pub mod letters;
pub mod message;
pub mod random;
pub mod response;
pub mod rhyme;
pub mod rules;
pub mod session;
pub mod state;
pub mod text;
