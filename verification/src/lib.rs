//! A path-addressed virtual filesystem: a read-only snapshot capability, a
//! mutable filesystem capability layered on it, and an in-memory store.
pub mod error;
pub mod filesystem;
pub mod io;
pub mod memory;
pub mod namespace;
pub mod path;

pub use crate::error::{GfsError, GfsResult};
