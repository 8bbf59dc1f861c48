//! Search-and-rank core for an academic social network backend.
//!
//! The library validates untrusted search text, normalizes record
//! identifiers between the store's nested shape and a flat 26-character
//! token, scores candidate records against a query with one of two
//! fuzzy strategies, and orders candidates by relevance with a stable
//! ranking. All of it is specified and verified; the record store and
//! the HTTP layer are outside collaborators.

pub mod codec;
pub mod config;
pub mod errors;
pub mod rank;
pub mod score;
pub mod search;
pub mod token;
