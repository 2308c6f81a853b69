//! A codec for the tag-length-value format in which Minecraft: Java Edition
//! stores world and entity data.
//!
//! The crate converts between raw bytes and [`Value`], a tagged union with
//! one variant per kind of payload, and reads a buffer as a sequence of
//! events where no tree is wanted. Every executable function carries a
//! contract over the grammar in [`format`], and the laws that relate writing
//! and reading are stated and proved in [`laws`].

pub mod de;
pub mod error;
pub mod format;
pub mod laws;
pub mod opts;
pub mod ser;
pub mod stream;
pub mod tag;
pub mod text;
pub mod value;
pub mod wire;

pub use crate::de::from_bytes;
pub use crate::de::from_bytes_with_opts;
pub use crate::error::Error;
pub use crate::opts::DeOpts;
pub use crate::ser::to_bytes;
pub use crate::tag::Tag;
pub use crate::value::Value;
