//! Scoped page-protection guard.
//!
//! Acquiring the guard records the old protection of the target range's
//! region and installs the requested one; releasing it restores the old
//! protection. Release is an explicit call on every exit path of the guarded
//! section; a failure to restore (the region is gone) is swallowed, since by
//! then the caller's critical section has already completed.

use vstd::prelude::*;

use crate::error::MemoryError;
use crate::page::PageState;
use crate::space::MemorySpace;
use crate::space::Region;
use crate::space::find_region;

verus! {

/// A held protection change over `[address, address + size)`, remembering
/// the protection to restore. Not cloneable; consumed by `release`.
pub struct VirtualProtectGuard {
    pub address: usize,
    pub size: usize,
    pub old_state: PageState,
}

/// `to` with its protection flags only: the commit bit is kept from `keep`,
/// since a protection change never commits or decommits memory.
pub open spec fn protect_of(to: PageState, keep: PageState) -> PageState {
    PageState { read: to.read, write: to.write, execute: to.execute, commit: keep.commit }
}

/// Replaces the protection flags of region `i` (commit bit kept); everything
/// else in the space is untouched.
fn set_region_protect(space: &mut MemorySpace, i: usize, to: PageState)
    requires
        old(space).wf(),
        i < old(space).regions@.len(),
    ensures
        final(space).wf(),
        MemorySpace::same_shape(*old(space), *final(space)),
        MemorySpace::same_bytes(*old(space), *final(space)),
        final(space).regions@[i as int].state == protect_of(to, old(space).regions@[i as int].state),
        MemorySpace::states_unchanged_except(*old(space), *final(space), i as int),
{
    let ghost old_space = *space;
    let commit = space.regions[i].state.commit;
    let mut region = space.regions.remove(i);
    region.state = PageState { read: to.read, write: to.write, execute: to.execute, commit };
    space.regions.insert(i, region);
    proof {
        assert(space.regions@ =~= old_space.regions@.update(
            i as int,
            Region {
                base: old_space.regions@[i as int].base,
                state: (protect_of(to, old_space.regions@[i as int].state)),
                bytes: old_space.regions@[i as int].bytes,
            },
        ));
        assert(MemorySpace::same_shape(old_space, *space));
        crate::space::lemma_same_shape(old_space, *space);
    }
}

impl VirtualProtectGuard {
    /// Installs `new_state`'s protection flags over the region containing
    /// `address`, failing (and changing nothing) when no single region
    /// contains the whole range — the model of a refused protection change.
    pub fn try_new(
        space: &mut MemorySpace,
        address: usize,
        size: usize,
        new_state: PageState,
    ) -> (r: Result<VirtualProtectGuard, MemoryError>)
        requires
            old(space).wf(),
        ensures
            final(space).wf(),
            MemorySpace::same_shape(*old(space), *final(space)),
            MemorySpace::same_bytes(*old(space), *final(space)),
            match r {
                Ok(g) => {
                    &&& old(space).range_in_region(address as int, size as int)
                    &&& g.address == address
                    &&& g.size == size
                    &&& g.old_state == old(space).state_at(address as int)
                    &&& final(space).state_at(address as int) == protect_of(
                        new_state,
                        old(space).state_at(address as int),
                    )
                    &&& MemorySpace::states_unchanged_except(
                        *old(space),
                        *final(space),
                        old(space).region_index_of(address as int),
                    )
                },
                Err(e) => {
                    &&& e matches MemoryError::ProtectionChangeFailed
                    &&& !old(space).range_in_region(address as int, size as int)
                    &&& *final(space) == *old(space)
                },
            },
    {
        let ghost old_space = *space;
        match find_region(space, address) {
            Some(i) => {
                let region_len = space.regions[i].bytes.len();
                let off = address - space.regions[i].base;
                if size > region_len - off {
                    proof {
                        assert forall|j: int|
                            0 <= j < space.regions@.len() && (
                            #[trigger] space.regions@[j]).contains_addr(address as int) implies !(
                        address + size <= space.regions@[j].end()) by {
                            crate::space::lemma_unique_region(*space, address as int, j);
                        }
                    }
                    return Err(MemoryError::ProtectionChangeFailed);
                }
                let old_state = space.regions[i].state;
                set_region_protect(space, i, new_state);
                proof {
                    crate::space::lemma_same_shape(old_space, *space);
                    crate::space::lemma_unique_region(old_space, address as int, i as int);
                }
                Ok(VirtualProtectGuard { address, size, old_state })
            },
            None => {
                proof {
                    assert forall|j: int|
                        0 <= j < space.regions@.len() implies !((
                    #[trigger] space.regions@[j]).contains_addr(address as int) && address + size
                        <= space.regions@[j].end()) by {}
                }
                Err(MemoryError::ProtectionChangeFailed)
            },
        }
    }

    /// Restores the recorded protection over the guarded address's region.
    /// When the region has vanished, the failure is swallowed and the space
    /// is left as it is: there is no recovery path.
    pub fn release(self, space: &mut MemorySpace)
        requires
            old(space).wf(),
        ensures
            final(space).wf(),
            MemorySpace::same_shape(*old(space), *final(space)),
            MemorySpace::same_bytes(*old(space), *final(space)),
            old(space).mapped(self.address as int) ==> final(space).state_at(self.address as int)
                == protect_of(self.old_state, old(space).state_at(self.address as int))
                && MemorySpace::states_unchanged_except(
                *old(space),
                *final(space),
                old(space).region_index_of(self.address as int),
            ),
            !old(space).mapped(self.address as int) ==> *final(space) == *old(space),
    {
        let ghost old_space = *space;
        match find_region(space, self.address) {
            Some(i) => {
                set_region_protect(space, i, self.old_state);
                proof {
                    crate::space::lemma_same_shape(old_space, *space);
                    crate::space::lemma_unique_region(old_space, self.address as int, i as int);
                }
            },
            None => {},
        }
    }
}

} // verus!
