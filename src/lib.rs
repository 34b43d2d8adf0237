//! Structured, flattened views of XML form submissions.

pub mod text;
pub mod clean;
pub mod value;
pub mod dom;
pub mod tree;
pub mod reader;
pub mod attrs;
pub mod identity;
pub mod parser;
pub mod flatten;
pub mod geom;
pub mod checksum;
pub mod headers;
pub mod submission;
pub mod laws;
