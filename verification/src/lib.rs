//! Records with one number and four text fields: validation of field
//! lengths, rendering into a fixed story template, a lossless line format
//! for an append-only store, and single-pass aggregation (extremes of the
//! number, per-field frequency tables) over that store's contents.

pub mod codec;
pub mod digits;
pub mod generate;
pub mod laws;
pub mod prompt;
pub mod stats;

pub use prompt::FieldName;
pub use prompt::Prompt;
pub use prompt::ValidationError;
