//! A small key-value configuration store in the style of a `.env` file.
//!
//! The library owns the pure logic: parsing file text into a mapping,
//! typed reads with an explicit environment fallback value, mutation of
//! the mapping, and rendering the mapping back to file text.  Reading
//! and writing the backing file, and querying or mutating the real
//! process environment, are left to the surrounding application, which
//! hands plain values in and out.

pub mod parse;
pub mod store;
pub mod text;
pub mod values;

pub use store::Entry;
pub use store::Envie;
