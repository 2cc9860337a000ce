//! The engine of Slice: cutting custom design sub-spaces out of variable fonts.
//!
//! Everything here works on plain bytes and integers. What the engine promises is
//! stated next to each function in `requires` and `ensures`, and proved. What follows for
//! whole operations stands in [`laws`].
#![allow(unused_imports)]

pub mod apply;
pub mod axes;
pub mod bits;
pub mod bytes;
pub mod cff2;
pub mod command;
pub mod coord;
pub mod editors;
pub mod error;
pub mod feature_vars;
pub mod fields;
pub mod finalize;
pub mod font;
pub mod glyphs;
pub mod job;
pub mod laws;
pub mod mvar;
pub mod names;
pub mod outline;
pub mod overlaps;
pub mod partial;
pub mod recent;
pub mod regions;
pub mod settings;
pub mod sfnt;
pub mod sort;
pub mod stat;
pub mod statics;
pub mod tables;
pub mod text;
pub mod varstore;
pub mod woff;
pub mod woff2;
