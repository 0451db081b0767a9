//! Justifies plain text for display in a fixed-width terminal.
//!
//! The pipeline splits a paragraph into tokens (words with at most one
//! trailing white-space character), partitions the tokens into lines that fit
//! a target width, and pads each line to exactly that width by distributing
//! spaces over the gaps between words according to a placement policy.
//! Over-wide words can optionally be broken into hyphen-joined chunks first,
//! and width can be measured in UTF-8 bytes or in terminal display cells.

use vstd::prelude::*;

pub mod breaks;
pub mod distribute;
pub mod engine;
pub mod hyphen;
pub mod laws;
pub mod settings;
pub mod strconv;
pub mod textops;
pub mod tokenize;
pub mod width;

verus! {

pub use crate::engine::justify;
pub use crate::engine::justify_paragraph;
pub use crate::settings::InsertAt;
pub use crate::settings::JustifyError;
pub use crate::settings::LeftmostPlacer;
pub use crate::settings::Placer;
pub use crate::settings::Settings;

} // verus!
