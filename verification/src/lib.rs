//! A catalog core for JSON-shaped entities governed by versioned,
//! hierarchical GTS identifiers: identifier parsing and wildcard matching,
//! schema flattening and compatibility checking, and instance casting
//! between schema versions.

pub mod cast;
pub mod ids;
pub mod json;
pub mod schema;
pub mod strutil;
