//! Typed contract metadata, its Merkle commitment, and schema-driven
//! structural validation of contract nodes.

pub mod data;
pub mod metadata;
pub mod encoding;
pub mod merkle;
pub mod schema;
pub mod keyed;

pub use metadata::{Metadata, MetadataLeaf};
