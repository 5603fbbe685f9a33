//! Monotonic vehicle id allocation.

use vstd::prelude::*;

verus! {

/// Hands out strictly increasing vehicle ids, starting at zero.
pub struct VehicleIdGenerator {
    id: usize,
}

impl VehicleIdGenerator {
    /// The next id that will be handed out.
    pub closed spec fn spec_next(self) -> usize {
        self.id
    }

    pub fn new() -> (r: Self)
        ensures
            r.spec_next() == 0,
    {
        VehicleIdGenerator { id: 0 }
    }

    /// Returns the next id and advances the counter, so no id is ever handed
    /// out twice.
    pub fn get_id(&mut self) -> (id: usize)
        requires
            old(self).spec_next() < usize::MAX,
        ensures
            id == old(self).spec_next(),
            final(self).spec_next() == id + 1,
    {
        let id = self.id;
        self.id = self.id + 1;
        id
    }
}

} // verus!
