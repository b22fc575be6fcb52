//! Parser and in-place editor for a line-oriented `[KEY:VALUE]` configuration
//! format, as used by a simulation game's `init.txt`-style settings files.
//!
//! Every line of such a file is classified as a blank line, a comment, or an
//! entry of the shape `[KEY:VALUE]`. The parsed [`Config`](document::Config)
//! keeps every line, in order, so that rendering it again preserves all
//! original formatting except for the values deliberately changed.
use vstd::prelude::*;

pub mod document;
pub mod laws;
pub mod model;

pub use document::Config;
pub use document::Entry;

verus! {

/// Error returned by the mutating operations that validate their inputs.
#[derive(Clone, Copy, Debug, PartialEq, Eq, Structural)]
pub enum ConfigError {
    /// A key or value was empty or held a character outside the
    /// alphanumeric class.
    InvalidArgument,
}

} // verus!
