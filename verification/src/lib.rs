//! Glossary of riichi terminology, built from two structured wiki pages and
//! queried by fuzzy matching.
//!
//! The crate parses page models into definition records, merges them into an
//! immutable glossary keyed by the lowercased term name, and resolves noisy
//! queries to the best-matching entry.

pub mod extract;
pub mod glossary;
pub mod lookup;
pub mod matcher;
pub mod text;
