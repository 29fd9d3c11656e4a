//! Villagers: who they are, and how they decide what to do.

use vstd::prelude::*;

pub mod arrive;
pub mod commit;
pub mod errands;
pub mod goals;
pub mod holds;
pub mod mind;
pub mod nearby;
pub mod needs;
pub mod outcomes;
pub mod places;
pub mod promises;
pub mod rng;
pub mod spawn;
pub mod tick;
pub mod village;
pub mod walk;

verus! {

/// Identity of a villager, stable across saves.
#[derive(Clone, Copy, Debug, PartialEq, Eq, Hash, Structural)]
pub struct NpcId(pub u64);

/// Hands out villager ids.
pub struct NpcIdAllocator {
    pub next: u64,
}

impl Default for NpcIdAllocator {
    fn default() -> (r: NpcIdAllocator)
        ensures
            r.next == 1,
    {
        NpcIdAllocator { next: 1 }
    }
}

impl NpcIdAllocator {
    /// The next id.
    pub fn allocate(&mut self) -> (r: NpcId)
        requires
            old(self).next < u64::MAX,
        ensures
            r == NpcId(old(self).next),
            final(self).next == old(self).next + 1,
    {
        let id: NpcId = NpcId(self.next);
        self.next = self.next + 1;
        id
    }

    /// Never hands out `used` or anything below it from now on.
    pub fn reserve_through(&mut self, used: u64)
        requires
            used < u64::MAX,
        ensures
            final(self).next == next_after(old(self).next as int, used as int),
    {
        if self.next <= used {
            self.next = used + 1;
        }
    }
}

/// The next id once everything up to `used` is taken.
pub open spec fn next_after(next: int, used: int) -> int {
    if next > used {
        next
    } else {
        used + 1
    }
}

/// Neither an id that was handed out nor one that was reserved is ever handed
/// out again, and no id is passed over for want of need.
pub proof fn law_ids_are_fresh(next: int, used: int)
    ensures
        next_after(next + 1, used) > next,
        next_after(next, used) > used,
        next_after(next, used) >= next,
        next_after(next, used) == next || next_after(next, used) == used + 1,
        next > used ==> next_after(next, used) == next,
{
}

} // verus!
