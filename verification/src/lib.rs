//! A verified interpreter for a tiny eight-symbol tape language.
//!
//! The crate is split in two phases, mirroring the two components of the
//! engine: `translate` turns source characters into an instruction list with
//! loop jump targets resolved, and `machine` executes that list against an
//! auto-growing tape of wrapping byte cells.

pub mod instruction;
pub mod machine;
pub mod translate;
