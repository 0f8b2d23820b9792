//! Pin and alternate-function metadata for microcontroller families: identifier
//! parsing, an aggregation tree keyed across microcontroller variants, grouping of
//! variant sets into equivalence classes, and deterministic rendering.

pub mod text;
pub mod ident;
pub mod order;
pub mod model;
pub mod tree;
pub mod ingest;
pub mod group;
pub mod features;
pub mod render;
pub mod query;

