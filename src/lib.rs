//! A slot map whose live values always sit in one contiguous slice, while
//! the keys handed out at insertion stay valid across removals of others.
pub mod bitfield;
pub mod cell;
mod entropy;
pub mod chain;
pub mod storage;
pub mod laws;

pub use storage::{ContigDrain, ContigStorage, FullError, GrowBehavior, Key, MAX_CAPACITY};
