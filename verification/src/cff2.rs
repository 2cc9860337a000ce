//! Rewriting a `CFF2` table for a smaller design space.
//!
//! `CFF2` keeps its variation data in two places at once. The ItemVariationStore holds
//! the *regions*, which part of the design space each contribution covers, while the
//! deltas sit inline in the charstrings, as operands of the `blend` operator. Neither
//! half means anything without the other, so both are rewritten together.
pub mod charstring;
pub mod dict;
pub mod draw;
pub mod font;
pub mod hints;
pub mod instance;
pub mod laws;
pub mod num;
pub mod private;
pub mod read;
pub mod table;
