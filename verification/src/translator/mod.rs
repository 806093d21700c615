//! The local translators: dictionaries of exact texts, and rulesets.
pub mod rulesets;
pub mod simple;
