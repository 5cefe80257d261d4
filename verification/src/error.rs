//! What the library's bounds-checked operations report.

use vstd::prelude::*;

verus! {

/// What a bounds-checked operation reports when it cannot be carried out.
#[derive(Debug, Clone, Copy, PartialEq, Eq, Structural)]
pub enum Error {
    /// A cursor or a read would reach `position`, beyond the exclusive bound `limit`.
    DataOutOfBounds { position: usize, limit: usize },
}

pub type Result<T, E = Error> = core::result::Result<T, E>;

} // verus!
