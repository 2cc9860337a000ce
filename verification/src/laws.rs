//! What the operations of the library are for, as relations between what goes in and what
//! comes out.
pub mod charstrings;
pub mod compact;
pub mod drawing;
pub mod edits;
pub mod features;
pub mod instances;
pub mod measures;
pub mod outlines;
pub mod requests;
pub mod restriction;
pub mod stores;
pub mod wiring;
