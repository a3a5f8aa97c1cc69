//! The media that a store can live on.

pub mod file;

pub use file::FileStorage;
