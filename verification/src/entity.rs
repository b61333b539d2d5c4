//! Entity identifiers.

use vstd::prelude::*;

verus! {

/// The id reserved for "no entity": a placeholder that never names a live
/// record and is never a meaningful member of a reverse collection.
pub const PLACEHOLDER_ID: u64 = u64::MAX;

/// An opaque, stable identifier for a live record in the component store.
#[derive(Clone, Copy, PartialEq, Eq, Structural, Debug, Hash)]
pub struct Entity {
    pub id: u64,
}

impl Entity {
    /// The sentinel entity: stands for "no entity".
    pub fn placeholder() -> (e: Entity)
        ensures
            e.id == PLACEHOLDER_ID,
    {
        Entity { id: PLACEHOLDER_ID }
    }

    /// Whether this is the sentinel entity.
    pub open spec fn is_placeholder(self) -> bool {
        self.id == PLACEHOLDER_ID
    }
}

} // verus!
