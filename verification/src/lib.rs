//! A verified parser for the TMX tile-map interchange format.
//!
//! The crate turns a generic XML element tree into a fully resolved,
//! strongly typed map model: tilesets, bit-packed tile references, a
//! CSV-encoded tile grid, typed properties and a nested layer hierarchy.

pub mod data_types;
pub mod grid;
pub mod parse;
pub mod relations;
pub mod tree;
pub mod util;
pub mod xml;
