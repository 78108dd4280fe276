//! A database-agnostic data-access core: a dynamic value model, a schema
//! format with query validation, and the compilation of conditions, sorts
//! and selections into a document-database request.

pub mod error;
pub mod entries;
pub mod value;
pub mod query;
pub mod schema;
pub mod compile;
pub mod definition;
pub mod memory;
pub mod case;
