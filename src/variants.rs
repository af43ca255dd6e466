//! Identifiers of the variants, used when reporting importances.

use vstd::prelude::*;

verus! {

/// A variant's identifier and the importance last recorded for it.
pub struct Variant {
    pub id: String,
    pub max_importance: i64,
}

impl Variant {
    /// A variant with the given identifier and no importance yet (0).
    pub fn new(id: String) -> (r: Self)
        ensures
            r.id@ == id@,
            r.max_importance == 0,
    {
        Variant { id, max_importance: 0 }
    }

    /// Records an importance.
    pub fn set_importance(&mut self, imp: i64)
        ensures
            final(self).max_importance == imp,
            final(self).id@ == old(self).id@,
    {
        self.max_importance = imp
    }
}

} // verus!
