//! The dataset compiler: turns the upstream organization tables, the alias
//! table and the local domain policy into the sorted rule set and the
//! generated source of the embedded dataset.

pub mod error;
pub mod domains;
pub mod table;
pub mod rules;
pub mod policy;
pub mod sources;
pub mod aliases;
pub mod compile;
pub mod render;
pub mod hashing;
pub mod laws;
