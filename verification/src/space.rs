//! The modelled address space.
//!
//! Raw process memory is re-expressed as an explicit value: a set of disjoint
//! regions, each with a base address, a page state and its bytes. Every
//! dereference-like operation of the engine is an explicit lookup in this
//! space; an embedder builds the space from what the operating system
//! reports and carries writes back out.

use vstd::prelude::*;

use crate::error::MemoryError;
use crate::page::PageState;

verus! {

/// Highest address that the low end of the reserved-range heuristic rejects.
pub const RESERVED_LOW_MAX: usize = 0x10000;

/// Addresses above `i64::MAX` are rejected as non-canonical.
pub const RESERVED_HIGH_MAX: u64 = 0x7fff_ffff_ffff_ffff;

/// The reserved-range heuristic: addresses in `[0, 0x10000]` or above
/// `i64::MAX` are a priori rejected as kernel-reserved or non-canonical,
/// before any page query.
pub open spec fn reserved_addr(a: int) -> bool {
    a <= 0x10000 || a > 0x7fff_ffff_ffff_ffff
}

/// Fast-path guard: true exactly when the address lies in the reserved range.
pub fn is_in_reserved_range(address: usize) -> (r: bool)
    ensures
        r == reserved_addr(address as int),
{
    address <= RESERVED_LOW_MAX || (address as u64) > RESERVED_HIGH_MAX
}

/// One queried region of the address space: `bytes.len()` consecutive bytes
/// starting at `base`, all sharing one page state.
pub struct Region {
    pub base: usize,
    pub state: PageState,
    pub bytes: Vec<u8>,
}

impl Region {
    /// One past the last address of the region.
    pub open spec fn end(self) -> int {
        self.base + self.bytes@.len()
    }

    pub open spec fn contains_addr(self, a: int) -> bool {
        self.base <= a < self.end()
    }

    /// A region lies wholly outside the reserved range and does not wrap.
    pub open spec fn wf(self) -> bool {
        &&& RESERVED_LOW_MAX < self.base
        &&& self.base + self.bytes@.len() <= usize::MAX
        &&& self.base + self.bytes@.len() <= 0x8000_0000_0000_0000
    }
}

/// The modelled address space: disjoint regions plus the primary module's
/// base address and image size as the module locator reported them
/// (`(0, 0)` when no module was enumerated).
pub struct MemorySpace {
    pub regions: Vec<Region>,
    pub module_base: usize,
    pub module_size: usize,
}

impl MemorySpace {
    /// Well-formedness: every region is well formed and no two regions share
    /// an address.
    pub open spec fn wf(self) -> bool {
        &&& forall|i: int|
            0 <= i < self.regions@.len() ==> (#[trigger] self.regions@[i]).wf()
        &&& forall|i: int, j: int|
            0 <= i < self.regions@.len() && 0 <= j < self.regions@.len() && i != j ==> ((
            #[trigger] self.regions@[i]).end() <= (#[trigger] self.regions@[j]).base
                || self.regions@[j].end() <= self.regions@[i].base)
    }

    /// Some region contains the address.
    pub open spec fn mapped(self, a: int) -> bool {
        exists|i: int|
            0 <= i < self.regions@.len() && (#[trigger] self.regions@[i]).contains_addr(a)
    }

    /// The index of the region containing the address (meaningful only when
    /// `mapped`; unique by disjointness).
    pub open spec fn region_index_of(self, a: int) -> int {
        choose|i: int|
            0 <= i < self.regions@.len() && (#[trigger] self.regions@[i]).contains_addr(a)
    }

    /// The page state of the address's region.
    pub open spec fn state_at(self, a: int) -> PageState {
        self.regions@[self.region_index_of(a)].state
    }

    /// The byte stored at the address.
    pub open spec fn byte_at(self, a: int) -> u8 {
        let r = self.regions@[self.region_index_of(a)];
        r.bytes@[a - r.base]
    }

    /// The address is backed by committed memory that grants READ.
    pub open spec fn readable(self, a: int) -> bool {
        self.mapped(a) && self.state_at(a).commit && self.state_at(a).read
    }

    /// The address is backed by committed memory that grants WRITE.
    pub open spec fn writable(self, a: int) -> bool {
        self.mapped(a) && self.state_at(a).commit && self.state_at(a).write
    }

    pub open spec fn range_readable(self, a: int, n: int) -> bool {
        forall|x: int| a <= x < a + n ==> #[trigger] self.readable(x)
    }

    pub open spec fn range_writable(self, a: int, n: int) -> bool {
        forall|x: int| a <= x < a + n ==> #[trigger] self.writable(x)
    }

    /// The `n` bytes starting at `a`.
    pub open spec fn bytes_in(self, a: int, n: int) -> Seq<u8> {
        Seq::new(n as nat, |k: int| self.byte_at(a + k))
    }

    /// The whole range `[a, a + n)` lies within the single region that
    /// contains `a`.
    pub open spec fn range_in_region(self, a: int, n: int) -> bool {
        exists|i: int|
            0 <= i < self.regions@.len() && (#[trigger] self.regions@[i]).contains_addr(a) && a + n
                <= self.regions@[i].end()
    }

    /// Both spaces have the same region layout (count, bases, lengths) and
    /// the same module information; page states and bytes may differ.
    pub open spec fn same_shape(s1: MemorySpace, s2: MemorySpace) -> bool {
        &&& s1.regions@.len() == s2.regions@.len()
        &&& forall|i: int|
            0 <= i < s1.regions@.len() ==> (#[trigger] s2.regions@[i]).base == s1.regions@[i].base
                && s2.regions@[i].bytes@.len() == s1.regions@[i].bytes@.len()
        &&& s1.module_base == s2.module_base
        &&& s1.module_size == s2.module_size
    }

    /// Both spaces have the same region count and equal page states.
    pub open spec fn same_states(s1: MemorySpace, s2: MemorySpace) -> bool {
        &&& s1.regions@.len() == s2.regions@.len()
        &&& forall|i: int|
            0 <= i < s1.regions@.len() ==> (#[trigger] s2.regions@[i]).state == s1.regions@[i].state
    }

    /// All page states agree, except possibly region `i`'s.
    pub open spec fn states_unchanged_except(s1: MemorySpace, s2: MemorySpace, i: int) -> bool {
        forall|j: int|
            0 <= j < s1.regions@.len() && j != i ==> (#[trigger] s2.regions@[j]).state
                == s1.regions@[j].state
    }

    /// Both spaces hold the same bytes region for region.
    pub open spec fn same_bytes(s1: MemorySpace, s2: MemorySpace) -> bool {
        &&& s1.regions@.len() == s2.regions@.len()
        &&& forall|i: int|
            0 <= i < s1.regions@.len() ==> (#[trigger] s2.regions@[i]).bytes@ == s1.regions@[
                i].bytes@
    }

    /// An empty space carrying the module locator's answer.
    pub fn new(module_base: usize, module_size: usize) -> (r: MemorySpace)
        ensures
            r.wf(),
            r.regions@.len() == 0,
            r.module_base == module_base,
            r.module_size == module_size,
    {
        MemorySpace { regions: Vec::new(), module_base, module_size }
    }

    /// Whether a region with this base and length may be added: it must be
    /// well formed and disjoint from every present region.
    pub open spec fn can_add_region(self, base: int, len: int, state: PageState) -> bool {
        &&& RESERVED_LOW_MAX < base
        &&& base + len <= usize::MAX
        &&& base + len <= 0x8000_0000_0000_0000
        &&& forall|i: int|
            0 <= i < self.regions@.len() ==> (base + len <= (#[trigger] self.regions@[i]).base
                || self.regions@[i].end() <= base)
    }

    /// Adds a region to the space. Returns false (and leaves the space
    /// unchanged) when the region would lie in the reserved range, wrap, or
    /// overlap a present region.
    pub fn add_region(&mut self, base: usize, state: PageState, bytes: Vec<u8>) -> (r: bool)
        requires
            old(self).wf(),
        ensures
            final(self).wf(),
            r == old(self).can_add_region(base as int, bytes@.len() as int, state),
            r ==> final(self).regions@ == old(self).regions@.push(
                Region { base, state, bytes },
            ),
            !r ==> *final(self) == *old(self),
            final(self).module_base == old(self).module_base,
            final(self).module_size == old(self).module_size,
    {
        let len = bytes.len();
        if base <= RESERVED_LOW_MAX {
            return false;
        }
        if (base as u128) + (len as u128) > (usize::MAX as u128) {
            return false;
        }
        if (base as u128) + (len as u128) > 0x8000_0000_0000_0000u128 {
            return false;
        }
        let end = base + len;
        let n = self.regions.len();
        let mut i: usize = 0;
        while i < n
            invariant
                *self == *old(self),
                n == self.regions@.len(),
                0 <= i <= n,
                self.wf(),
                len == bytes@.len(),
                end == base + len,
                base + len <= usize::MAX,
                base + len <= 0x8000_0000_0000_0000,
                RESERVED_LOW_MAX < base,
                forall|j: int|
                    0 <= j < i ==> (base + len <= (#[trigger] self.regions@[j]).base
                        || self.regions@[j].end() <= base),
            decreases n - i,
        {
            let r = &self.regions[i];
            let r_end = r.base + r.bytes.len();
            if !(end <= r.base || r_end <= base) {
                proof {
                    assert(!(base + len <= (self.regions@[i as int]).base
                        || (self.regions@[i as int]).end() <= base));
                }
                return false;
            }
            i += 1;
        }
        let ghost old_self = *self;
        self.regions.push(Region { base, state, bytes });
        proof {
            assert forall|i: int| 0 <= i < self.regions@.len() implies (
            #[trigger] self.regions@[i]).wf() by {
                if i < old_self.regions@.len() {
                    assert(self.regions@[i] == old_self.regions@[i]);
                }
            }
            assert forall|i: int, j: int|
                0 <= i < self.regions@.len() && 0 <= j < self.regions@.len() && i
                    != j implies ((#[trigger] self.regions@[i]).end() <= (
            #[trigger] self.regions@[j]).base || self.regions@[j].end()
                <= self.regions@[i].base) by {
                if i < old_self.regions@.len() && j < old_self.regions@.len() {
                    assert(self.regions@[i] == old_self.regions@[i]);
                    assert(self.regions@[j] == old_self.regions@[j]);
                }
            }
        }
        true
    }
}

/// With disjoint regions, the region containing an address is unique: any
/// index whose region contains the address is the index that
/// `region_index_of` denotes.
pub proof fn lemma_unique_region(s: MemorySpace, a: int, i: int)
    requires
        s.wf(),
        0 <= i < s.regions@.len(),
        s.regions@[i].contains_addr(a),
    ensures
        s.mapped(a),
        s.region_index_of(a) == i,
{
    assert(s.mapped(a));
    let j = s.region_index_of(a);
    assert(0 <= j < s.regions@.len() && s.regions@[j].contains_addr(a));
    if j != i {
        assert(s.regions@[i].end() <= s.regions@[j].base || s.regions@[j].end()
            <= s.regions@[i].base);
        assert(false);
    }
}

/// No address of the reserved range is ever mapped by a well-formed space,
/// so reserved addresses fail every page query.
pub proof fn lemma_reserved_unmapped(s: MemorySpace, a: int)
    requires
        s.wf(),
        reserved_addr(a),
    ensures
        !s.mapped(a),
{
    assert forall|i: int|
        0 <= i < s.regions@.len() implies !(#[trigger] s.regions@[i]).contains_addr(a) by {
        assert(s.regions@[i].wf());
    }
}

/// Two spaces of the same shape map the same addresses, agree on region
/// indices, and are well formed together.
pub proof fn lemma_same_shape(s1: MemorySpace, s2: MemorySpace)
    requires
        s1.wf(),
        MemorySpace::same_shape(s1, s2),
    ensures
        s2.wf(),
        forall|a: int| s1.mapped(a) <==> s2.mapped(a),
        forall|a: int| s1.mapped(a) ==> s1.region_index_of(a) == s2.region_index_of(a),
{
    assert forall|i: int| 0 <= i < s2.regions@.len() implies (#[trigger] s2.regions@[i]).wf() by {
        assert(s1.regions@[i].wf());
    }
    assert forall|i: int, j: int|
        0 <= i < s2.regions@.len() && 0 <= j < s2.regions@.len() && i != j implies ((
    #[trigger] s2.regions@[i]).end() <= (#[trigger] s2.regions@[j]).base || s2.regions@[j].end()
        <= s2.regions@[i].base) by {
        assert(s1.regions@[i].end() <= s1.regions@[j].base || s1.regions@[j].end()
            <= s1.regions@[i].base);
    }
    assert forall|a: int| s1.mapped(a) implies s2.mapped(a) by {
        let i = choose|i: int|
            0 <= i < s1.regions@.len() && (#[trigger] s1.regions@[i]).contains_addr(a);
        assert(s2.regions@[i].contains_addr(a));
    }
    assert forall|a: int| s2.mapped(a) implies s1.mapped(a) by {
        let i = choose|i: int|
            0 <= i < s2.regions@.len() && (#[trigger] s2.regions@[i]).contains_addr(a);
        assert(s1.regions@[i].contains_addr(a));
    }
    assert forall|a: int| s1.mapped(a) implies s1.region_index_of(a) == s2.region_index_of(
        a,
    ) by {
        let i = s1.region_index_of(a);
        assert(0 <= i < s1.regions@.len() && s1.regions@[i].contains_addr(a));
        assert(s2.regions@[i].contains_addr(a));
        lemma_unique_region(s2, a, i);
    }
}

/// Two spaces of the same shape and the same page states agree on what is
/// mapped, readable and writable, and on every page state.
pub proof fn lemma_states_preserved(s1: MemorySpace, s2: MemorySpace)
    requires
        s1.wf(),
        MemorySpace::same_shape(s1, s2),
        MemorySpace::same_states(s1, s2),
    ensures
        s2.wf(),
        forall|a: int| s1.mapped(a) <==> s2.mapped(a),
        forall|a: int| s1.mapped(a) ==> s2.state_at(a) == s1.state_at(a),
        forall|a: int| s1.readable(a) <==> s2.readable(a),
        forall|a: int| s1.writable(a) <==> s2.writable(a),
{
    lemma_same_shape(s1, s2);
    assert forall|a: int| s1.mapped(a) implies s2.state_at(a) == s1.state_at(a) by {
        let i = s1.region_index_of(a);
        assert(0 <= i < s1.regions@.len() && s1.regions@[i].contains_addr(a));
        assert(s2.regions@[i].state == s1.regions@[i].state);
    }
}

/// Every mapped address lies strictly between the reserved bounds and below
/// `usize::MAX`.
pub proof fn lemma_mapped_bounds(s: MemorySpace, a: int)
    requires
        s.wf(),
        s.mapped(a),
    ensures
        0x10000 < a,
        a < 0x8000_0000_0000_0000,
        a + 1 <= usize::MAX,
        !reserved_addr(a),
{
    let i = choose|i: int|
        0 <= i < s.regions@.len() && (#[trigger] s.regions@[i]).contains_addr(a);
    assert(s.regions@[i].wf());
}

/// Every address of a range that lies within one region is mapped, with the
/// same page state and the same region index as the range's start.
pub proof fn lemma_range_in_region(s: MemorySpace, a: int, n: int)
    requires
        s.wf(),
        s.range_in_region(a, n),
    ensures
        s.mapped(a),
        forall|x: int|
            a <= x < a + n ==> s.mapped(x) && s.region_index_of(x) == s.region_index_of(a)
                && s.state_at(x) == s.state_at(a),
{
    let i = choose|i: int|
        0 <= i < s.regions@.len() && (#[trigger] s.regions@[i]).contains_addr(a) && a + n
            <= s.regions@[i].end();
    lemma_unique_region(s, a, i);
    assert forall|x: int|
        a <= x < a + n implies s.mapped(x) && s.region_index_of(x) == s.region_index_of(a)
        && s.state_at(x) == s.state_at(a) by {
        assert(s.regions@[i].contains_addr(x));
        lemma_unique_region(s, x, i);
    }
}

/// Whether a range lies within one region depends only on the space's shape.
pub proof fn lemma_range_in_region_same_shape(s1: MemorySpace, s2: MemorySpace, a: int, n: int)
    requires
        MemorySpace::same_shape(s1, s2),
    ensures
        s1.range_in_region(a, n) == s2.range_in_region(a, n),
{
    if s1.range_in_region(a, n) {
        let i = choose|i: int|
            0 <= i < s1.regions@.len() && (#[trigger] s1.regions@[i]).contains_addr(a) && a + n
                <= s1.regions@[i].end();
        assert(s2.regions@[i].contains_addr(a) && a + n <= s2.regions@[i].end());
    }
    if s2.range_in_region(a, n) {
        let i = choose|i: int|
            0 <= i < s2.regions@.len() && (#[trigger] s2.regions@[i]).contains_addr(a) && a + n
                <= s2.regions@[i].end();
        assert(s1.regions@[i].contains_addr(a) && a + n <= s1.regions@[i].end());
    }
}

/// Two spaces of the same shape and the same bytes agree on every mapped
/// byte.
pub proof fn lemma_bytes_preserved(s1: MemorySpace, s2: MemorySpace)
    requires
        s1.wf(),
        MemorySpace::same_shape(s1, s2),
        MemorySpace::same_bytes(s1, s2),
    ensures
        forall|a: int| s1.mapped(a) ==> s2.byte_at(a) == s1.byte_at(a),
{
    lemma_same_shape(s1, s2);
    assert forall|a: int| s1.mapped(a) implies s2.byte_at(a) == s1.byte_at(a) by {
        let i = s1.region_index_of(a);
        assert(0 <= i < s1.regions@.len() && s1.regions@[i].contains_addr(a));
        assert(s2.regions@[i].bytes@ == s1.regions@[i].bytes@);
    }
}

/// Finds the region containing the address, if any.
pub fn find_region(space: &MemorySpace, address: usize) -> (r: Option<usize>)
    requires
        space.wf(),
    ensures
        match r {
            Some(i) => i < space.regions@.len() && space.regions@[i as int].contains_addr(
                address as int,
            ) && space.mapped(address as int) && space.region_index_of(address as int) == i,
            None => !space.mapped(address as int),
        },
{
    let n = space.regions.len();
    let mut i: usize = 0;
    while i < n
        invariant
            space.wf(),
            n == space.regions@.len(),
            0 <= i <= n,
            forall|j: int|
                0 <= j < i ==> !(#[trigger] space.regions@[j]).contains_addr(address as int),
        decreases n - i,
    {
        let r = &space.regions[i];
        if address >= r.base && address - r.base < r.bytes.len() {
            proof {
                lemma_unique_region(*space, address as int, i as int);
            }
            return Some(i);
        }
        i += 1;
    }
    None
}

/// Reads the byte stored at a readable address.
pub fn get_byte(space: &MemorySpace, address: usize) -> (r: u8)
    requires
        space.wf(),
        space.readable(address as int),
    ensures
        r == space.byte_at(address as int),
{
    let i = match find_region(space, address) {
        Some(i) => i,
        None => {
            proof {
                assert(false);
            }
            0
        },
    };
    let r = &space.regions[i];
    r.bytes[address - r.base]
}

/// Stores a byte at a writable address. The space keeps its shape and its
/// page states; only the addressed byte changes.
pub fn set_byte(space: &mut MemorySpace, address: usize, value: u8)
    requires
        old(space).wf(),
        old(space).writable(address as int),
    ensures
        final(space).wf(),
        MemorySpace::same_shape(*old(space), *final(space)),
        MemorySpace::same_states(*old(space), *final(space)),
        final(space).byte_at(address as int) == value,
        forall|x: int|
            old(space).mapped(x) && x != address ==> final(space).byte_at(x) == old(space).byte_at(
                x,
            ),
{
    let i = match find_region(space, address) {
        Some(i) => i,
        None => {
            proof {
                assert(false);
            }
            0
        },
    };
    let ghost old_space = *space;
    let off = address - space.regions[i].base;
    let mut region = space.regions.remove(i);
    region.bytes.set(off, value);
    space.regions.insert(i, region);
    proof {
        assert(space.regions@ =~= old_space.regions@.update(
            i as int,
            Region {
                base: old_space.regions@[i as int].base,
                state: old_space.regions@[i as int].state,
                bytes: space.regions@[i as int].bytes,
            },
        ));
        assert(MemorySpace::same_shape(old_space, *space));
        lemma_same_shape(old_space, *space);
        lemma_unique_region(*space, address as int, i as int);
        assert(space.byte_at(address as int) == value);
        assert forall|x: int|
            old_space.mapped(x) && x != address implies space.byte_at(x) == old_space.byte_at(
            x,
        ) by {
            let j = old_space.region_index_of(x);
            assert(0 <= j < old_space.regions@.len() && old_space.regions@[j].contains_addr(x));
            assert(space.region_index_of(x) == j);
            if j == i as int {
                assert(x - old_space.regions@[j].base != off as int);
            }
        }
    }
}

/// Queries the page state of the address's containing region, failing with an
/// OS-query error when the address is not mapped.
pub fn get_memory_state(space: &MemorySpace, address: usize) -> (r: Result<PageState, MemoryError>)
    requires
        space.wf(),
    ensures
        match r {
            Ok(st) => space.mapped(address as int) && st == space.state_at(address as int),
            Err(e) => !space.mapped(address as int) && e matches MemoryError::OsQueryFailed,
        },
{
    match find_region(space, address) {
        Some(i) => Ok(space.regions[i].state),
        None => Err(MemoryError::OsQueryFailed),
    }
}

/// The module locator's answer for the process's primary module: base address
/// and image size. `(0, 0)` denotes "no modules enumerated".
pub fn get_base_module_space(space: &MemorySpace) -> (r: Result<(usize, usize), MemoryError>)
    ensures
        r matches Ok(v) && v.0 == space.module_base && v.1 == space.module_size,
{
    Ok((space.module_base, space.module_size))
}

} // verus!
