//! Why a mutation did not take place.
use vstd::prelude::*;

verus! {

#[derive(Clone, Copy, Debug, PartialEq, Eq, Structural)]
pub enum GfsError {
    /// No entry exists at the path that was to be renamed or dropped.
    NotFound,
    /// The store does not accept the target path.
    InvalidTarget,
    /// The store itself failed.
    Backend,
}

pub type GfsResult<V> = Result<V, GfsError>;

} // verus!
