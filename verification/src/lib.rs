//! Word segmentation for text without whitespace.
//!
//! Splits a run of concatenated characters (identifiers, slugs, hashtags)
//! into its most probable sequence of words, using a cost model built from
//! a ranked word list under a Zipf's-law assumption and a minimum-cost
//! dynamic-programming search.

pub mod cost;
pub mod laws;
pub mod model;
pub mod segment;

pub use model::LanguageModel;
pub use model::ModelError;
