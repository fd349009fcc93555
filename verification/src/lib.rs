//! Reading, transforming and summarising device tree sources.
//!
//! `dts` holds the tree model and the source parser, `visitors` the tree
//! walker and the transformations and extractions built on it, `text` the
//! character-level helpers they share, and `strmap` a small string-keyed map.

pub mod dts;
pub mod strmap;
pub mod text;
pub mod visitors;
