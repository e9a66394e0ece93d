//! The patch manager and cached scanning: tracks every applied byte patch
//! (address, size, original-bytes backup), rejects overlapping patches, and
//! reverts any or all patches to their pre-patch state.

use vstd::prelude::*;

use crate::error::MemoryError;
use crate::luaptr::LuaPtr;
use crate::memory_util::MemoryUtils;
use crate::pattern::PatternError;
use crate::pattern::{is_first_match, matches_at, parse_pattern_spec};
use crate::space::MemorySpace;
use crate::space::reserved_addr;
use vstd::string::StringSliceAdditionalSpecFns;

verus! {

/// Half-open interval overlap: `[s1, e1)` and `[s2, e2)` share an address.
pub open spec fn ranges_overlap(s1: int, e1: int, s2: int, e2: int) -> bool {
    s1 < e2 && s2 < e1
}

/// Ranges that merely share an endpoint do not overlap: adjacent patches are
/// accepted.
pub proof fn lemma_adjacent_ranges_do_not_overlap(s1: int, e1: int, s2: int, e2: int)
    requires
        e1 <= s2 || e2 <= s1,
    ensures
        !ranges_overlap(s1, e1, s2, e2),
{
}

/// One tracked patch: where it was applied, how many bytes, and the original
/// bytes captured under the protection guard.
pub struct MemoryPatch {
    pub address: usize,
    pub size: usize,
    pub backup: Vec<u8>,
}

impl MemoryPatch {
    pub open spec fn end(self) -> int {
        self.address + self.size
    }

    pub open spec fn wf(self) -> bool {
        self.size == self.backup@.len() && self.address + self.size <= usize::MAX
    }
}

/// `s1` is `s0` with the bytes at `[address, address + data.len())` replaced
/// by `data` and every other mapped byte untouched.
pub open spec fn bytes_replaced(s0: MemorySpace, s1: MemorySpace, address: int, data: Seq<u8>) -> bool {
    &&& forall|k: int| 0 <= k < data.len() ==> s1.byte_at(address + k) == #[trigger] data[k]
    &&& forall|x: int|
        s0.mapped(x) && !(address <= x < address + data.len()) ==> #[trigger] s1.byte_at(x)
            == s0.byte_at(x)
}

/// `post` is `pre` with one record appended, holding this address, size and
/// backup.
pub open spec fn registry_extended(
    pre: Seq<MemoryPatch>,
    post: Seq<MemoryPatch>,
    address: usize,
    size: int,
    backup: Seq<u8>,
) -> bool {
    &&& post.len() == pre.len() + 1
    &&& forall|i: int| 0 <= i < pre.len() ==> post[i] == #[trigger] pre[i]
    &&& post[pre.len() as int].address == address
    &&& post[pre.len() as int].size == size
    &&& post[pre.len() as int].backup@ == backup
}

/// Options of an advanced scan: the pattern text, an optional result offset
/// (applied by the caller), an optional start address and length (defaulting
/// to the primary module), and whether all matches are wanted.
pub struct PatternScanOptions {
    pub pattern: String,
    pub offset: Option<isize>,
    pub start: Option<LuaPtr>,
    pub length: Option<usize>,
    pub all_matches: bool,
}

/// The patch registry and scan cache. One owned instance is passed
/// explicitly through the embedding layer, which serializes access to it.
pub struct MemoryModule {
    pub patches: Vec<MemoryPatch>,
    pub scan_cache: Vec<(String, usize)>,
    pub module_base: usize,
    pub module_size: usize,
}

/// The scan cache and module information of `post` are those of `pre`.
pub open spec fn admin_unchanged(pre: MemoryModule, post: MemoryModule) -> bool {
    &&& post.scan_cache@ == pre.scan_cache@
    &&& post.module_base == pre.module_base
    &&& post.module_size == pre.module_size
}

impl MemoryModule {
    /// Registry invariant: every patch is well formed, no two tracked
    /// patches share an address or overlap, and cache keys are unique.
    pub open spec fn wf(self) -> bool {
        &&& forall|i: int| 0 <= i < self.patches@.len() ==> (#[trigger] self.patches@[i]).wf()
        &&& forall|i: int, j: int|
            0 <= i < self.patches@.len() && 0 <= j < self.patches@.len() && i != j ==> (
            #[trigger] self.patches@[i]).address != (#[trigger] self.patches@[j]).address
                && !ranges_overlap(
                self.patches@[i].address as int,
                self.patches@[i].end(),
                self.patches@[j].address as int,
                self.patches@[j].end(),
            )
        &&& forall|i: int, j: int|
            0 <= i < self.scan_cache@.len() && 0 <= j < self.scan_cache@.len() && i != j ==> (
            #[trigger] self.scan_cache@[i]).0@ != (#[trigger] self.scan_cache@[j]).0@
    }

    /// Some tracked patch's range intersects `[address, address + size)`.
    pub open spec fn overlaps_existing(self, address: int, size: int) -> bool {
        exists|i: int|
            0 <= i < self.patches@.len() && ranges_overlap(
                (#[trigger] self.patches@[i]).address as int,
                self.patches@[i].end(),
                address,
                address + size,
            )
    }

    /// A patch is tracked at exactly this apply-address.
    pub open spec fn has_patch_at(self, address: int) -> bool {
        exists|i: int|
            0 <= i < self.patches@.len() && (#[trigger] self.patches@[i]).address == address
    }

    /// The index of the patch tracked at this address (unique by `wf`).
    pub open spec fn patch_index_of(self, address: int) -> int {
        choose|i: int|
            0 <= i < self.patches@.len() && (#[trigger] self.patches@[i]).address == address
    }

    /// A patch at this address or overlapping this range is already tracked,
    /// so a new apply is refused: the re-entry and overlap guard.
    pub open spec fn rejects(self, address: int, size: int) -> bool {
        self.overlaps_existing(address, size) || self.has_patch_at(address)
    }

    /// The scan cache holds this pattern text.
    pub open spec fn cached(self, key: Seq<char>) -> bool {
        exists|i: int| 0 <= i < self.scan_cache@.len() && (#[trigger] self.scan_cache@[i]).0@ == key
    }

    /// The cached address for this pattern text (meaningful when `cached`).
    pub open spec fn cache_value(self, key: Seq<char>) -> usize {
        let i = choose|i: int|
            0 <= i < self.scan_cache@.len() && (#[trigger] self.scan_cache@[i]).0@ == key;
        self.scan_cache@[i].1
    }

    /// An empty registry with no module information yet.
    pub fn new() -> (r: MemoryModule)
        ensures
            r.wf(),
            r.patches@.len() == 0,
            r.scan_cache@.len() == 0,
            r.module_base == 0,
            r.module_size == 0,
    {
        MemoryModule {
            patches: Vec::new(),
            scan_cache: Vec::new(),
            module_base: 0,
            module_size: 0,
        }
    }

    /// Half-open interval overlap test between `[start1, end1)` and
    /// `[start2, end2)`.
    pub fn range_overlaps(&self, start1: usize, end1: usize, start2: usize, end2: usize) -> (r:
        bool)
        ensures
            r == ranges_overlap(start1 as int, end1 as int, start2 as int, end2 as int),
    {
        start1 < end2 && start2 < end1
    }

    /// Whether `[address, address + size)` intersects any tracked patch.
    /// The interval ends are computed in a wider integer type, so no bound
    /// on `address + size` is asked of the caller.
    pub fn is_patch_exists(&self, address: usize, size: usize) -> (r: bool)
        requires
            self.wf(),
        ensures
            r == self.overlaps_existing(address as int, size as int),
    {
        let end2: u128 = (address as u128) + (size as u128);
        let n = self.patches.len();
        let mut i: usize = 0;
        while i < n
            invariant
                self.wf(),
                n == self.patches@.len(),
                0 <= i <= n,
                end2 == address + size,
                forall|j: int|
                    0 <= j < i ==> !ranges_overlap(
                        (#[trigger] self.patches@[j]).address as int,
                        self.patches@[j].end(),
                        address as int,
                        address as int + size,
                    ),
            decreases n - i,
        {
            let p = &self.patches[i];
            let p_end: u128 = (p.address as u128) + (p.backup.len() as u128);
            proof {
                assert(p_end == self.patches@[i as int].end());
            }
            if (p.address as u128) < end2 && (address as u128) < p_end {
                proof {
                    assert(ranges_overlap(
                        (self.patches@[i as int]).address as int,
                        self.patches@[i as int].end(),
                        address as int,
                        address as int + size,
                    ));
                }
                return true;
            }
            i += 1;
        }
        false
    }

    /// Finds the tracked patch applied at exactly this address.
    fn find_patch_index(&self, address: usize) -> (r: Option<usize>)
        requires
            self.wf(),
        ensures
            match r {
                Some(i) => i < self.patches@.len() && self.patches@[i as int].address == address
                    && self.has_patch_at(address as int) && self.patch_index_of(address as int)
                    == i,
                None => !self.has_patch_at(address as int),
            },
    {
        let n = self.patches.len();
        let mut i: usize = 0;
        while i < n
            invariant
                self.wf(),
                n == self.patches@.len(),
                0 <= i <= n,
                forall|j: int| 0 <= j < i ==> (#[trigger] self.patches@[j]).address != address,
            decreases n - i,
        {
            if self.patches[i].address == address {
                proof {
                    assert(self.has_patch_at(address as int));
                    let j = self.patch_index_of(address as int);
                    assert(0 <= j < self.patches@.len() && self.patches@[j].address == address);
                    if j != i as int {
                        assert(self.patches@[j].address != self.patches@[i as int].address);
                    }
                }
                return Some(i);
            }
            i += 1;
        }
        None
    }

    /// Applies a patch: refused with `PatchAlreadyExists` when a tracked
    /// patch overlaps the range or sits at the same address; otherwise the
    /// bytes are replaced under the reserved-range filter, commit check and
    /// protection guard of the accessor's patch operation and the backup is
    /// recorded. Nothing — not memory, not the registry — changes on any
    /// failure path.
    pub fn new_patch(&mut self, space: &mut MemorySpace, address: usize, data: &[u8]) -> (r: Result<
        (),
        MemoryError,
    >)
        requires
            old(self).wf(),
            old(space).wf(),
        ensures
            final(self).wf(),
            final(space).wf(),
            MemorySpace::same_shape(*old(space), *final(space)),
            MemorySpace::same_states(*old(space), *final(space)),
            admin_unchanged(*old(self), *final(self)),
            ({
                let pre_self = *old(self);
                let pre_space = *old(space);
                let len = data@.len() as int;
                if pre_self.rejects(address as int, len) {
                    r == Err::<(), MemoryError>(MemoryError::PatchAlreadyExists(address))
                        && *final(self) == pre_self && *final(space) == pre_space
                } else if reserved_addr(address as int) {
                    r == Err::<(), MemoryError>(MemoryError::PagePermNoWrite(address))
                        && *final(self) == pre_self && *final(space) == pre_space
                } else if !pre_space.mapped(address as int) {
                    r == Err::<(), MemoryError>(MemoryError::OsQueryFailed) && *final(self)
                        == pre_self && *final(space) == pre_space
                } else if !pre_space.state_at(address as int).commit {
                    r == Err::<(), MemoryError>(MemoryError::PageNotCommit(address)) && *final(self)
                        == pre_self && *final(space) == pre_space
                } else if !pre_space.range_in_region(address as int, len) {
                    r == Err::<(), MemoryError>(MemoryError::ProtectionChangeFailed) && *final(self)
                        == pre_self && *final(space) == pre_space
                } else {
                    r == Ok::<(), MemoryError>(()) && bytes_replaced(
                        pre_space,
                        *final(space),
                        address as int,
                        data@,
                    ) && registry_extended(
                        pre_self.patches@,
                        final(self).patches@,
                        address,
                        len,
                        pre_space.bytes_in(address as int, len),
                    )
                }
            }),
    {
        let exists_overlap = self.is_patch_exists(address, data.len());
        let exists_same = match self.find_patch_index(address) {
            Some(_) => true,
            None => false,
        };
        if exists_overlap || exists_same {
            return Err(MemoryError::PatchAlreadyExists(address));
        }
        let backup = match MemoryUtils::patch(space, address, data) {
            Ok(b) => b,
            Err(e) => {
                return Err(e);
            },
        };
        let ghost old_self = *self;
        self.patches.push(MemoryPatch { address, size: data.len(), backup });
        proof {
            let n = old_self.patches@.len() as int;
            // the applied range fits one region of the old space, so the new
            // record's range does not wrap
            assert(MemoryUtils::patch_applies(*old(space), address as int, data@.len() as int));
            let ri = choose|ri: int|
                0 <= ri < old(space).regions@.len() && (
                #[trigger] old(space).regions@[ri]).contains_addr(address as int) && address
                    + data@.len() <= old(space).regions@[ri].end();
            assert(old(space).regions@[ri].wf());
            assert(address + data@.len() <= usize::MAX);
            assert(self.patches@[n].wf());
            assert forall|i: int, j: int|
                0 <= i < self.patches@.len() && 0 <= j < self.patches@.len() && i != j implies (
            #[trigger] self.patches@[i]).address != (#[trigger] self.patches@[j]).address
                && !ranges_overlap(
                self.patches@[i].address as int,
                self.patches@[i].end(),
                self.patches@[j].address as int,
                self.patches@[j].end(),
            ) by {
                if i < n && j < n {
                    assert(self.patches@[i] == old_self.patches@[i]);
                    assert(self.patches@[j] == old_self.patches@[j]);
                } else if i == n {
                    assert(self.patches@[j] == old_self.patches@[j]);
                    assert(!ranges_overlap(
                        old_self.patches@[j].address as int,
                        old_self.patches@[j].end(),
                        address as int,
                        address as int + data@.len(),
                    ));
                    assert(old_self.patches@[j].address != address);
                } else {
                    assert(self.patches@[i] == old_self.patches@[i]);
                    assert(!ranges_overlap(
                        old_self.patches@[i].address as int,
                        old_self.patches@[i].end(),
                        address as int,
                        address as int + data@.len(),
                    ));
                    assert(old_self.patches@[i].address != address);
                }
            }
        }
        Ok(())
    }

    /// Applies a fill patch of `size` repeated no-op bytes (`0x90`), under
    /// the same guards as `new_patch`.
    pub fn new_patch_nop(&mut self, space: &mut MemorySpace, address: usize, size: usize) -> (r:
        Result<(), MemoryError>)
        requires
            old(self).wf(),
            old(space).wf(),
        ensures
            final(self).wf(),
            final(space).wf(),
            MemorySpace::same_shape(*old(space), *final(space)),
            MemorySpace::same_states(*old(space), *final(space)),
            admin_unchanged(*old(self), *final(self)),
            ({
                let pre_self = *old(self);
                let pre_space = *old(space);
                if pre_self.rejects(address as int, size as int) {
                    r == Err::<(), MemoryError>(MemoryError::PatchAlreadyExists(address))
                        && *final(self) == pre_self && *final(space) == pre_space
                } else if MemoryUtils::patch_applies(pre_space, address as int, size as int) {
                    r == Ok::<(), MemoryError>(()) && bytes_replaced(
                        pre_space,
                        *final(space),
                        address as int,
                        Seq::new(size as nat, |k: int| 0x90u8),
                    ) && registry_extended(
                        pre_self.patches@,
                        final(self).patches@,
                        address,
                        size as int,
                        pre_space.bytes_in(address as int, size as int),
                    )
                } else {
                    r is Err && *final(self) == pre_self && *final(space) == pre_space
                }
            }),
    {
        let data: Vec<u8> = vec![0x90u8; size];
        proof {
            assert forall|k: int| 0 <= k < size implies data@[k] == 0x90u8 by {
                assert(vstd::pervasive::cloned(0x90u8, data@[k]));
            }
            assert(data@ =~= Seq::new(size as nat, |k: int| 0x90u8));
        }
        self.new_patch(space, address, data.as_slice())
    }

    /// Reverts the patch applied at exactly this address, writing its backup
    /// bytes back and removing the record; returns whether a patch was
    /// found. An unknown address is a no-op success returning false. On a
    /// failing write-back the record is already removed and the error is
    /// surfaced.
    pub fn restore_patch(&mut self, space: &mut MemorySpace, address: usize) -> (r: Result<
        bool,
        MemoryError,
    >)
        requires
            old(self).wf(),
            old(space).wf(),
        ensures
            final(self).wf(),
            final(space).wf(),
            MemorySpace::same_shape(*old(space), *final(space)),
            MemorySpace::same_states(*old(space), *final(space)),
            admin_unchanged(*old(self), *final(self)),
            ({
                let pre_self = *old(self);
                let pre_space = *old(space);
                if !pre_self.has_patch_at(address as int) {
                    r == Ok::<bool, MemoryError>(false) && *final(self) == pre_self && *final(space)
                        == pre_space
                } else {
                    let i = pre_self.patch_index_of(address as int);
                    let p = pre_self.patches@[i];
                    final(self).patches@ == pre_self.patches@.remove(i) && (if
                    MemoryUtils::patch_applies(pre_space, address as int, p.size as int) {
                        r == Ok::<bool, MemoryError>(true) && bytes_replaced(
                            pre_space,
                            *final(space),
                            address as int,
                            p.backup@,
                        )
                    } else {
                        r is Err && *final(space) == pre_space
                    })
                }
            }),
    {
        let i = match self.find_patch_index(address) {
            Some(i) => i,
            None => {
                return Ok(false);
            },
        };
        let patch = self.patches.remove(i);
        proof {
            assert(old(self).patches@[i as int].wf());
            assert forall|a: int, b: int|
                0 <= a < self.patches@.len() && 0 <= b < self.patches@.len() && a != b implies (
            #[trigger] self.patches@[a]).address != (#[trigger] self.patches@[b]).address
                && !ranges_overlap(
                self.patches@[a].address as int,
                self.patches@[a].end(),
                self.patches@[b].address as int,
                self.patches@[b].end(),
            ) by {
                let a0 = if a < i as int {
                    a
                } else {
                    a + 1
                };
                let b0 = if b < i as int {
                    b
                } else {
                    b + 1
                };
                assert(self.patches@[a] == old(self).patches@[a0]);
                assert(self.patches@[b] == old(self).patches@[b0]);
            }
        }
        match MemoryUtils::patch(space, patch.address, patch.backup.as_slice()) {
            Ok(_) => Ok(true),
            Err(e) => Err(e),
        }
    }
}

/// What one revert leaves behind, judged against the pre-teardown space
/// `s0`: a patch whose range is still committed and within one region has
/// its backup written back; one whose revert failed leaves its range's
/// mapped bytes untouched.
pub open spec fn patch_outcome(s0: MemorySpace, s: MemorySpace, p: MemoryPatch) -> bool {
    if MemoryUtils::patch_applies(s0, p.address as int, p.size as int) {
        forall|x: int|
            p.address <= x < p.end() ==> #[trigger] s.byte_at(x) == p.backup@[x - p.address]
    } else {
        forall|x: int|
            p.address <= x < p.end() && s0.mapped(x) ==> #[trigger] s.byte_at(x) == s0.byte_at(x)
    }
}

/// `x` lies in the range of some patch of `patches[lo..]`.
pub open spec fn in_patch_range(patches: Seq<MemoryPatch>, lo: int, x: int) -> bool {
    exists|i: int| lo <= i < patches.len() && (#[trigger] patches[i]).address <= x < patches[i].end()
}

/// Whether a patch applies depends only on the space's shape and states.
proof fn lemma_patch_applies_preserved(s0: MemorySpace, s1: MemorySpace, a: int, n: int)
    requires
        s0.wf(),
        MemorySpace::same_shape(s0, s1),
        MemorySpace::same_states(s0, s1),
    ensures
        MemoryUtils::patch_applies(s0, a, n) == MemoryUtils::patch_applies(s1, a, n),
{
    crate::space::lemma_states_preserved(s0, s1);
    crate::space::lemma_range_in_region_same_shape(s0, s1, a, n);
}

impl MemoryModule {
    /// Reverts every tracked patch, in reverse application order, swallowing
    /// individual failures to maximize cleanup: the module-teardown path.
    /// Afterwards the registry is empty; every patch whose range was still
    /// committed and in one region has its backup restored, every other
    /// patch's range is untouched, and so is everything outside the patches.
    pub fn restore_all(&mut self, space: &mut MemorySpace)
        requires
            old(self).wf(),
            old(space).wf(),
        ensures
            final(self).wf(),
            final(space).wf(),
            MemorySpace::same_shape(*old(space), *final(space)),
            MemorySpace::same_states(*old(space), *final(space)),
            admin_unchanged(*old(self), *final(self)),
            final(self).patches@.len() == 0,
            forall|i: int|
                0 <= i < old(self).patches@.len() ==> patch_outcome(
                    *old(space),
                    *final(space),
                    #[trigger] old(self).patches@[i],
                ),
            forall|x: int|
                old(space).mapped(x) && !in_patch_range(old(self).patches@, 0, x)
                    ==> #[trigger] final(space).byte_at(x) == old(space).byte_at(x),
    {
        let ghost s0 = *old(space);
        let ghost all = old(self).patches@;
        loop
            invariant_except_break
                old(self).wf(),
                s0.wf(),
                all == old(self).patches@,
                space.wf(),
                MemorySpace::same_shape(s0, *space),
                MemorySpace::same_states(s0, *space),
                self.wf(),
                self.scan_cache@ == old(self).scan_cache@,
                self.module_base == old(self).module_base,
                self.module_size == old(self).module_size,
                self.patches@ == all.subrange(0, self.patches@.len() as int),
                self.patches@.len() <= all.len(),
                forall|i: int|
                    self.patches@.len() <= i < all.len() ==> patch_outcome(
                        s0,
                        *space,
                        #[trigger] all[i],
                    ),
                forall|x: int|
                    s0.mapped(x) && !in_patch_range(all, self.patches@.len() as int, x)
                        ==> #[trigger] space.byte_at(x) == s0.byte_at(x),
            ensures
                space.wf(),
                MemorySpace::same_shape(s0, *space),
                MemorySpace::same_states(s0, *space),
                self.wf(),
                self.scan_cache@ == old(self).scan_cache@,
                self.module_base == old(self).module_base,
                self.module_size == old(self).module_size,
                self.patches@.len() == 0,
                forall|i: int| 0 <= i < all.len() ==> patch_outcome(s0, *space, #[trigger] all[i]),
                forall|x: int|
                    s0.mapped(x) && !in_patch_range(all, 0, x) ==> #[trigger] space.byte_at(x)
                        == s0.byte_at(x),
            decreases self.patches.len(),
        {
            if self.patches.len() == 0 {
                break ;
            }
            let ghost k = self.patches@.len() - 1;
            let p = match self.patches.pop() {
                Some(p) => p,
                None => {
                    proof {
                        assert(false);
                    }
                    continue ;
                },
            };
            proof {
                assert(p == all[k]);
                assert(self.patches@ =~= all.subrange(0, k));
                assert(all[k].wf());
            }
            let ghost s_pre = *space;
            let _ignored = MemoryUtils::patch(space, p.address, p.backup.as_slice());
            proof {
                lemma_patch_applies_preserved(s0, s_pre, p.address as int, p.size as int);
                if MemoryUtils::patch_applies(s0, p.address as int, p.size as int) {
                    assert(patch_outcome(s0, *space, all[k])) by {
                        assert forall|x: int|
                            p.address <= x < p.end() implies #[trigger] space.byte_at(x)
                            == p.backup@[x - p.address] by {
                            let j = x - p.address;
                            assert(space.byte_at(p.address + j) == p.backup@[j]);
                        }
                    }
                } else {
                    assert(*space == s_pre);
                }
                crate::space::lemma_states_preserved(s0, *space);
                crate::space::lemma_same_shape(s0, s_pre);
                // earlier reverts and untouched bytes stay as they were:
                // everything the write touched lies inside this patch's range
                assert forall|x: int|
                    s0.mapped(x) && !(p.address <= x < p.end()) implies #[trigger] space.byte_at(x)
                    == s_pre.byte_at(x) by {
                    assert(s_pre.mapped(x));
                }
                assert forall|i: int|
                    k <= i < all.len() implies patch_outcome(s0, *space, #[trigger] all[i]) by {
                    if i > k {
                        assert(patch_outcome(s0, s_pre, all[i]));
                        assert(!ranges_overlap(
                            all[i].address as int,
                            all[i].end(),
                            all[k].address as int,
                            all[k].end(),
                        ));
                        if MemoryUtils::patch_applies(s0, all[i].address as int, all[i].size as int) {
                            crate::space::lemma_range_in_region(
                                s0,
                                all[i].address as int,
                                all[i].size as int,
                            );
                            assert forall|x: int|
                                all[i].address <= x < all[i].end() implies #[trigger] space.byte_at(
                                x,
                            ) == all[i].backup@[x - all[i].address] by {
                                assert(s0.mapped(x));
                                assert(!(p.address <= x < p.end()));
                                assert(s_pre.byte_at(x) == all[i].backup@[x - all[i].address]);
                            }
                        } else {
                            assert forall|x: int|
                                all[i].address <= x < all[i].end() && s0.mapped(
                                    x,
                                ) implies #[trigger] space.byte_at(x) == s0.byte_at(x) by {
                                assert(!(p.address <= x < p.end()));
                                assert(s_pre.byte_at(x) == s0.byte_at(x));
                            }
                        }
                    }
                }
                assert forall|x: int|
                    s0.mapped(x) && !in_patch_range(all, k, x) implies #[trigger] space.byte_at(x)
                    == s0.byte_at(x) by {
                    assert(!(p.address <= x < p.end()));
                    assert(!in_patch_range(all, k + 1, x));
                    assert(s_pre.byte_at(x) == s0.byte_at(x));
                }
            }
        }
    }

    /// Refreshes the cached module information from the module locator.
    pub fn update_module_info(&mut self, space: &MemorySpace) -> (r: Result<(), MemoryError>)
        requires
            old(self).wf(),
        ensures
            final(self).wf(),
            r == Ok::<(), MemoryError>(()),
            final(self).module_base == space.module_base,
            final(self).module_size == space.module_size,
            final(self).patches@ == old(self).patches@,
            final(self).scan_cache@ == old(self).scan_cache@,
    {
        let (base, size) = match crate::space::get_base_module_space(space) {
            Ok(v) => v,
            Err(e) => {
                proof {
                    assert(false);
                }
                return Err(e);
            },
        };
        self.module_base = base;
        self.module_size = size;
        Ok(())
    }
}

impl MemoryModule {
    /// The module base an advanced scan works with: stale-or-missing module
    /// information is refreshed from the locator first.
    pub open spec fn eff_module_base(self, space: MemorySpace) -> int {
        if self.module_base == 0 || self.module_size == 0 {
            space.module_base as int
        } else {
            self.module_base as int
        }
    }

    /// The module size an advanced scan works with.
    pub open spec fn eff_module_size(self, space: MemorySpace) -> int {
        if self.module_base == 0 || self.module_size == 0 {
            space.module_size as int
        } else {
            self.module_size as int
        }
    }

    /// The start address an advanced scan works with.
    pub open spec fn eff_start(self, space: MemorySpace, options: PatternScanOptions) -> int {
        match options.start {
            Some(p) => p.spec_value() as int,
            None => self.eff_module_base(space),
        }
    }

    /// The length an advanced scan works with.
    pub open spec fn eff_length(self, space: MemorySpace, options: PatternScanOptions) -> int {
        match options.length {
            Some(l) => l as int,
            None => self.eff_module_size(space),
        }
    }

    /// Scans the cached module range for the first match of the pattern,
    /// serving repeated lookups from the scan cache: a hit returns the
    /// cached address without touching memory; a miss scans and, on
    /// success, records the result under the pattern text.
    pub fn pattern_scan_first_cached(&mut self, space: &MemorySpace, pattern: &str) -> (r: Result<
        usize,
        MemoryError,
    >)
        requires
            old(self).wf(),
            space.wf(),
            !old(self).cached(pattern@) ==> old(self).module_base + old(self).module_size
                <= usize::MAX && space.range_readable(
                old(self).module_base as int,
                old(self).module_size as int,
            ),
        ensures
            final(self).wf(),
            final(self).patches@ == old(self).patches@,
            final(self).module_base == old(self).module_base,
            final(self).module_size == old(self).module_size,
            old(self).cached(pattern@) ==> r == Ok::<usize, MemoryError>(
                old(self).cache_value(pattern@),
            ) && *final(self) == *old(self),
            !old(self).cached(pattern@) ==> ({
                let pre = *old(self);
                let buf = space.bytes_in(pre.module_base as int, pre.module_size as int);
                match parse_pattern_spec(pattern.spec_bytes()) {
                    None => r == Err::<usize, MemoryError>(
                        MemoryError::PatternScan(PatternError::InvalidToken),
                    ) && *final(self) == pre,
                    Some(items) => {
                        if exists|o: int| #[trigger] matches_at(buf, items, o) {
                            r matches Ok(addr) && pre.module_base <= addr && is_first_match(
                                buf,
                                items,
                                addr - pre.module_base,
                            ) && final(self).scan_cache@.len() == pre.scan_cache@.len() + 1 && (
                            forall|i: int|
                                0 <= i < pre.scan_cache@.len() ==> final(self).scan_cache@[i] == (
                                #[trigger] pre.scan_cache@[i]))
                                && final(self).scan_cache@.last().0@ == pattern@
                                && final(self).scan_cache@.last().1 == addr
                        } else {
                            (r matches Err(e) && e matches MemoryError::NotFound(p) && p@
                                == pattern@ && *final(self) == pre)
                        }
                    },
                }
            }),
    {
        let key: String = pattern.to_owned();
        let n = self.scan_cache.len();
        let mut i: usize = 0;
        while i < n
            invariant
                self.wf(),
                *self == *old(self),
                key@ == pattern@,
                n == self.scan_cache@.len(),
                0 <= i <= n,
                forall|j: int| 0 <= j < i ==> (#[trigger] self.scan_cache@[j]).0@ != pattern@,
            decreases n - i,
        {
            if self.scan_cache[i].0 == key {
                let value = self.scan_cache[i].1;
                proof {
                    assert(self.cached(pattern@));
                    let j = choose|j: int|
                        0 <= j < self.scan_cache@.len() && (#[trigger] self.scan_cache@[j]).0@
                            == pattern@;
                    if j != i as int {
                        assert(self.scan_cache@[j].0@ != self.scan_cache@[i as int].0@);
                    }
                    assert(self.cache_value(pattern@) == value);
                }
                return Ok(value);
            }
            i += 1;
        }
        let addr = match MemoryUtils::scan_first(space, self.module_base, self.module_size, pattern) {
            Ok(a) => a,
            Err(e) => {
                return Err(e);
            },
        };
        let ghost pre = *self;
        self.scan_cache.push((key, addr));
        proof {
            assert forall|a: int, b: int|
                0 <= a < self.scan_cache@.len() && 0 <= b < self.scan_cache@.len() && a
                    != b implies (#[trigger] self.scan_cache@[a]).0@ != (
            #[trigger] self.scan_cache@[b]).0@ by {
                let m = pre.scan_cache@.len() as int;
                if a < m && b < m {
                    assert(self.scan_cache@[a] == pre.scan_cache@[a]);
                    assert(self.scan_cache@[b] == pre.scan_cache@[b]);
                } else if a == m {
                    assert(self.scan_cache@[b] == pre.scan_cache@[b]);
                    assert(pre.scan_cache@[b].0@ != pattern@);
                } else {
                    assert(self.scan_cache@[a] == pre.scan_cache@[a]);
                    assert(pre.scan_cache@[a].0@ != pattern@);
                }
            }
        }
        Ok(addr)
    }

    /// Runs an advanced scan: refreshes missing module information, resolves
    /// the start address and length (defaulting to the module image), and
    /// returns either every match or just the first, as the options ask.
    pub fn pattern_scan_advanced(&mut self, space: &MemorySpace, options: &PatternScanOptions) -> (r:
        Result<Vec<usize>, MemoryError>)
        requires
            old(self).wf(),
            space.wf(),
            options.start matches Some(p) ==> p.spec_value() <= usize::MAX,
            old(self).eff_start(*space, *options) + old(self).eff_length(*space, *options)
                <= usize::MAX,
            space.range_readable(
                old(self).eff_start(*space, *options),
                old(self).eff_length(*space, *options),
            ),
        ensures
            final(self).wf(),
            final(self).patches@ == old(self).patches@,
            final(self).scan_cache@ == old(self).scan_cache@,
            final(self).module_base == ({
                if old(self).module_base == 0 || old(self).module_size == 0 {
                    space.module_base
                } else {
                    old(self).module_base
                }
            }),
            final(self).module_size == ({
                if old(self).module_base == 0 || old(self).module_size == 0 {
                    space.module_size
                } else {
                    old(self).module_size
                }
            }),
            ({
                let start = old(self).eff_start(*space, *options);
                let len = old(self).eff_length(*space, *options);
                let buf = space.bytes_in(start, len);
                match parse_pattern_spec(vstd::utf8::encode_utf8(options.pattern@)) {
                    None => r == Err::<Vec<usize>, MemoryError>(
                        MemoryError::PatternScan(PatternError::InvalidToken),
                    ),
                    Some(items) => {
                        if exists|o: int| #[trigger] matches_at(buf, items, o) {
                            if options.all_matches {
                                r matches Ok(v) && v@.len() > 0 && (forall|j: int|
                                    0 <= j < v@.len() ==> start <= #[trigger] v@[j] && matches_at(
                                        buf,
                                        items,
                                        v@[j] - start,
                                    )) && (forall|j: int, k: int|
                                    0 <= j < k < v@.len() ==> v@[j] < v@[k]) && (forall|o: int|
                                    #[trigger] matches_at(buf, items, o) ==> exists|j: int|
                                        0 <= j < v@.len() && v@[j] == start + o)
                            } else {
                                r matches Ok(v) && v@.len() == 1 && start <= v@[0] && is_first_match(
                                    buf,
                                    items,
                                    v@[0] - start,
                                )
                            }
                        } else {
                            (r matches Err(e) && e matches MemoryError::NotFound(p) && p@
                                == options.pattern@)
                        }
                    },
                }
            }),
    {
        if self.module_base == 0 || self.module_size == 0 {
            match self.update_module_info(space) {
                Ok(()) => {},
                Err(e) => {
                    proof {
                        assert(false);
                    }
                    return Err(e);
                },
            }
        }
        let start = match options.start {
            Some(p) => p.to_usize(),
            None => self.module_base,
        };
        let length = match options.length {
            Some(l) => l,
            None => self.module_size,
        };
        if options.all_matches {
            MemoryUtils::scan_all(space, start, length, options.pattern.as_str())
        } else {
            match MemoryUtils::scan_first(space, start, length, options.pattern.as_str()) {
                Ok(addr) => {
                    let mut v: Vec<usize> = Vec::new();
                    v.push(addr);
                    Ok(v)
                },
                Err(e) => Err(e),
            }
        }
    }
}

/// Round-trip law: for any committed, writable range, applying a patch and
/// then reverting it restores the original bytes exactly. The hypotheses are
/// precisely what a successful apply (`s0` to `s1`, capturing `backup`) and
/// a successful revert (`s1` to `s2`, writing `backup` back) ensure; the
/// conclusion is byte-for-byte equality with the pre-capture.
pub proof fn lemma_patch_round_trip(
    s0: MemorySpace,
    s1: MemorySpace,
    s2: MemorySpace,
    address: int,
    len: int,
    backup: Seq<u8>,
)
    requires
        s0.wf(),
        len >= 0,
        backup == s0.bytes_in(address, len),
        MemorySpace::same_shape(s0, s1),
        MemorySpace::same_states(s0, s1),
        forall|x: int|
            s0.mapped(x) && !(address <= x < address + len) ==> #[trigger] s1.byte_at(x)
                == s0.byte_at(x),
        MemorySpace::same_shape(s1, s2),
        MemorySpace::same_states(s1, s2),
        forall|x: int|
            address <= x < address + len ==> #[trigger] s2.byte_at(x) == backup[x - address],
        forall|x: int|
            s1.mapped(x) && !(address <= x < address + len) ==> #[trigger] s2.byte_at(x)
                == s1.byte_at(x),
    ensures
        MemorySpace::same_shape(s0, s2),
        MemorySpace::same_states(s0, s2),
        forall|x: int| s0.mapped(x) ==> #[trigger] s2.byte_at(x) == s0.byte_at(x),
{
    crate::space::lemma_same_shape(s0, s1);
    assert(MemorySpace::same_shape(s0, s2));
    assert(MemorySpace::same_states(s0, s2));
    assert forall|x: int| s0.mapped(x) implies #[trigger] s2.byte_at(x) == s0.byte_at(x) by {
        if address <= x < address + len {
            assert(s2.byte_at(x) == backup[x - address]);
            assert(backup[x - address] == s0.byte_at(address + (x - address)));
        } else {
            assert(s1.mapped(x));
        }
    }
}

} // verus!
