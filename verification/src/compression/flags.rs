//! The domain flags by themselves.

pub use super::{CHUNK_END, CHUNK_START, PARENT, ROOT};
