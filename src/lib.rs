//! Inventory of service-definition documents: shapes are classified into a
//! service name, a structure registry and pending operations, operations are
//! resolved against the registry, and list/describe operations are reported
//! together with the input members that allow filtering by tag.

pub mod keyed;
pub mod tree;
pub mod model;
pub mod classify;
pub mod resolve;
pub mod text;
pub mod report;
pub mod document;
pub mod parse;
pub mod laws;
