//! The storage layer of a vocabulary-learning tracker: words resolve to a
//! canonical form, mistakes are counted per person and canonical word,
//! translations are kept per canonical English word, and suggestions of
//! both go through a pending → resolved workflow with an audit archive.

pub mod canonical;
pub mod error;
pub mod hebrew_db;
pub mod laws;
pub mod model;
pub mod order;
pub mod schema;
pub mod types;
