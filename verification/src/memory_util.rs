//! The memory accessor: bounds- and permission-checked reads and writes,
//! page checks, signature scans, pointer-chain resolution and guarded
//! patching, all over the modelled address space.

use vstd::prelude::*;

use crate::error::MemoryError;
use crate::page::PageState;
use crate::pattern::PatternError;
use crate::pattern::{is_first_match, matches_at, parse_pattern_spec};
use crate::pattern::{parse_pattern, scan_all_matches, scan_first_match};
use crate::space::MemorySpace;
use vstd::string::StringSliceAdditionalSpecFns;
use crate::space::is_in_reserved_range;
use crate::space::lemma_reserved_unmapped;
use crate::space::lemma_states_preserved;
use crate::space::reserved_addr;
use crate::space::{get_byte, get_memory_state, set_byte};

verus! {

/// Copies `size` bytes out of the space, starting at `address`.
fn read_range(space: &MemorySpace, address: usize, size: usize) -> (r: Vec<u8>)
    requires
        space.wf(),
        address + size <= usize::MAX,
        space.range_readable(address as int, size as int),
    ensures
        r@ == space.bytes_in(address as int, size as int),
{
    let mut out: Vec<u8> = Vec::new();
    let mut k: usize = 0;
    while k < size
        invariant
            space.wf(),
            0 <= k <= size,
            address + size <= usize::MAX,
            space.range_readable(address as int, size as int),
            out@ == space.bytes_in(address as int, k as int),
        decreases size - k,
    {
        let b = get_byte(space, address + k);
        out.push(b);
        proof {
            assert(out@ =~= space.bytes_in(address as int, k as int + 1));
        }
        k += 1;
    }
    proof {
        assert(out@ =~= space.bytes_in(address as int, size as int));
    }
    out
}

/// Copies `data` into the space, starting at `address`. Shape and page
/// states are untouched; only the addressed bytes change.
fn write_range(space: &mut MemorySpace, address: usize, data: &[u8])
    requires
        old(space).wf(),
        address + data@.len() <= usize::MAX,
        old(space).range_writable(address as int, data@.len() as int),
    ensures
        final(space).wf(),
        MemorySpace::same_shape(*old(space), *final(space)),
        MemorySpace::same_states(*old(space), *final(space)),
        forall|k: int|
            0 <= k < data@.len() ==> final(space).byte_at(address + k) == data@[k],
        forall|x: int|
            old(space).mapped(x) && !(address <= x < address + data@.len())
                ==> final(space).byte_at(x) == old(space).byte_at(x),
{
    let ghost s0 = *space;
    let n = data.len();
    let mut k: usize = 0;
    while k < n
        invariant
            n == data@.len(),
            0 <= k <= n,
            address + n <= usize::MAX,
            s0.wf(),
            s0.range_writable(address as int, n as int),
            space.wf(),
            MemorySpace::same_shape(s0, *space),
            MemorySpace::same_states(s0, *space),
            forall|j: int| 0 <= j < k ==> space.byte_at(address + j) == data@[j],
            forall|x: int|
                s0.mapped(x) && !(address <= x < address + k) ==> space.byte_at(x) == s0.byte_at(
                    x,
                ),
        decreases n - k,
    {
        proof {
            lemma_states_preserved(s0, *space);
            assert(s0.writable(address as int + k as int));
        }
        let ghost s_pre = *space;
        set_byte(space, address + k, data[k]);
        proof {
            lemma_states_preserved(s_pre, *space);
            assert(MemorySpace::same_shape(s0, *space));
            assert(MemorySpace::same_states(s0, *space));
            assert forall|j: int| 0 <= j < k + 1 implies space.byte_at(address + j) == data@[
            j] by {
                if j < k {
                    assert(s0.writable(address + j));
                    crate::space::lemma_same_shape(s0, s_pre);
                    assert(s_pre.mapped(address + j));
                }
            }
            assert forall|x: int|
                s0.mapped(x) && !(address <= x < address + k + 1) implies space.byte_at(x)
                == s0.byte_at(x) by {
                crate::space::lemma_same_shape(s0, s_pre);
                assert(s_pre.mapped(x));
            }
        }
        k += 1;
    }
}

/// The memory accessor. Every operation first consults the reserved-range
/// filter or the page-permission oracle, and only then touches bytes.
pub struct MemoryUtils;

impl MemoryUtils {
    /// The check that guards a read, beyond the reserved-range filter that
    /// runs first in both modes: in safe mode the page must grant READ; in
    /// unsafe mode nothing more is asked. (In a well-formed space a mapped
    /// page is never reserved, so the safe gate subsumes the filter.)
    pub open spec fn read_gate(space: MemorySpace, address: int, safe: bool) -> bool {
        if safe {
            space.mapped(address) && space.state_at(address).read
        } else {
            !reserved_addr(address)
        }
    }

    /// The check that guards a write, beyond the reserved-range filter that
    /// runs first in both modes: in safe mode the page must grant WRITE; in
    /// unsafe mode nothing more is asked.
    pub open spec fn write_gate(space: MemorySpace, address: int, safe: bool) -> bool {
        if safe {
            space.mapped(address) && space.state_at(address).write
        } else {
            !reserved_addr(address)
        }
    }

    /// Queries the page state of the address's page.
    pub fn get_page_state(space: &MemorySpace, address: usize) -> (r: Result<
        PageState,
        MemoryError,
    >)
        requires
            space.wf(),
        ensures
            match r {
                Ok(st) => space.mapped(address as int) && st == space.state_at(address as int),
                Err(e) => !space.mapped(address as int) && e matches MemoryError::OsQueryFailed,
            },
    {
        get_memory_state(space, address)
    }

    /// Checks that the address's page grants both READ and WRITE.
    pub fn check_permission_rw(space: &MemorySpace, address: usize) -> (r: Result<(), MemoryError>)
        requires
            space.wf(),
        ensures
            !space.mapped(address as int) ==> r == Err::<(), MemoryError>(
                MemoryError::OsQueryFailed,
            ),
            space.mapped(address as int) && !(space.state_at(address as int).read && space.state_at(
                address as int,
            ).write) ==> r == Err::<(), MemoryError>(MemoryError::PagePermNoRead(address)),
            space.mapped(address as int) && space.state_at(address as int).read && space.state_at(
                address as int,
            ).write ==> r == Ok::<(), MemoryError>(()),
    {
        let state = match Self::get_page_state(space, address) {
            Ok(st) => st,
            Err(e) => {
                return Err(e);
            },
        };
        let require = PageState { read: true, write: true, execute: false, commit: false };
        if !state.contains(&require) {
            return Err(MemoryError::PagePermNoRead(address));
        }
        Ok(())
    }

    /// Checks that the address's page grants READ.
    pub fn check_permission_read(space: &MemorySpace, address: usize) -> (r: Result<
        (),
        MemoryError,
    >)
        requires
            space.wf(),
        ensures
            !space.mapped(address as int) ==> r == Err::<(), MemoryError>(
                MemoryError::OsQueryFailed,
            ),
            space.mapped(address as int) && !space.state_at(address as int).read ==> r == Err::<
                (),
                MemoryError,
            >(MemoryError::PagePermNoRead(address)),
            space.mapped(address as int) && space.state_at(address as int).read ==> r == Ok::<
                (),
                MemoryError,
            >(()),
    {
        let state = match Self::get_page_state(space, address) {
            Ok(st) => st,
            Err(e) => {
                return Err(e);
            },
        };
        if !state.read {
            return Err(MemoryError::PagePermNoRead(address));
        }
        Ok(())
    }

    /// Checks that the address's page grants EXECUTE.
    pub fn check_permission_execute(space: &MemorySpace, address: usize) -> (r: Result<
        (),
        MemoryError,
    >)
        requires
            space.wf(),
        ensures
            !space.mapped(address as int) ==> r == Err::<(), MemoryError>(
                MemoryError::OsQueryFailed,
            ),
            space.mapped(address as int) && !space.state_at(address as int).execute ==> r == Err::<
                (),
                MemoryError,
            >(MemoryError::PagePermNoExecute(address)),
            space.mapped(address as int) && space.state_at(address as int).execute ==> r == Ok::<
                (),
                MemoryError,
            >(()),
    {
        let state = match Self::get_page_state(space, address) {
            Ok(st) => st,
            Err(e) => {
                return Err(e);
            },
        };
        if !state.execute {
            return Err(MemoryError::PagePermNoExecute(address));
        }
        Ok(())
    }

    /// Checks that the address's page is backed by committed memory: a
    /// stronger precondition than mere readability, required before every
    /// patch.
    pub fn check_page_commit(space: &MemorySpace, address: usize) -> (r: Result<(), MemoryError>)
        requires
            space.wf(),
        ensures
            !space.mapped(address as int) ==> r == Err::<(), MemoryError>(
                MemoryError::OsQueryFailed,
            ),
            space.mapped(address as int) && !space.state_at(address as int).commit ==> r == Err::<
                (),
                MemoryError,
            >(MemoryError::PageNotCommit(address)),
            space.mapped(address as int) && space.state_at(address as int).commit ==> r == Ok::<
                (),
                MemoryError,
            >(()),
    {
        let state = match Self::get_page_state(space, address) {
            Ok(st) => st,
            Err(e) => {
                return Err(e);
            },
        };
        if !state.commit {
            return Err(MemoryError::PageNotCommit(address));
        }
        Ok(())
    }

    /// Reads `size` bytes at `address`. A zero size is a size error. In both
    /// modes the reserved-range filter runs first, before any page query;
    /// safe mode then requires READ permission on the address's page, while
    /// unsafe mode proceeds, for callers that have validated access through
    /// other means.
    pub fn read(space: &MemorySpace, address: usize, size: usize, safe: bool) -> (r: Result<
        Vec<u8>,
        MemoryError,
    >)
        requires
            space.wf(),
            size > 0 && Self::read_gate(*space, address as int, safe) ==> address + size
                <= usize::MAX && space.range_readable(address as int, size as int),
        ensures
            reserved_addr(address as int) ==> r is Err,
            size == 0 ==> r == Err::<Vec<u8>, MemoryError>(MemoryError::InvalidSize(size)),
            size > 0 && reserved_addr(address as int) ==> r == Err::<Vec<u8>, MemoryError>(
                MemoryError::PagePermNoRead(address),
            ),
            size > 0 && !reserved_addr(address as int) && safe && !space.mapped(address as int)
                ==> r == Err::<Vec<u8>, MemoryError>(MemoryError::OsQueryFailed),
            size > 0 && safe && space.mapped(address as int) && !space.state_at(
                address as int,
            ).read ==> r == Err::<Vec<u8>, MemoryError>(MemoryError::PagePermNoRead(address)),
            size > 0 && Self::read_gate(*space, address as int, safe) ==> (r matches Ok(bytes)
                && bytes@ == space.bytes_in(address as int, size as int)),
    {
        proof {
            if space.mapped(address as int) && reserved_addr(address as int) {
                lemma_reserved_unmapped(*space, address as int);
            }
        }
        if size == 0 {
            return Err(MemoryError::InvalidSize(size));
        }
        if is_in_reserved_range(address) {
            return Err(MemoryError::PagePermNoRead(address));
        }
        if safe {
            match Self::check_permission_read(space, address) {
                Ok(()) => {},
                Err(e) => {
                    return Err(e);
                },
            }
        }
        Ok(read_range(space, address, size))
    }

    /// Reads up to eight bytes at `address` into a fixed eight-byte buffer;
    /// unused trailing bytes are zero-filled. A size of zero or above eight
    /// is a size error.
    pub fn quick_read(space: &MemorySpace, address: usize, size: u32, safe: bool) -> (r: Result<
        [u8; 8],
        MemoryError,
    >)
        requires
            space.wf(),
            1 <= size <= 8 && Self::read_gate(*space, address as int, safe) ==> address + size
                <= usize::MAX && space.range_readable(address as int, size as int),
        ensures
            reserved_addr(address as int) ==> r is Err,
            (size == 0 || size > 8) ==> r == Err::<[u8; 8], MemoryError>(
                MemoryError::InvalidSize(size as usize),
            ),
            1 <= size <= 8 && reserved_addr(address as int) ==> r == Err::<[u8; 8], MemoryError>(
                MemoryError::PagePermNoRead(address),
            ),
            1 <= size <= 8 && !reserved_addr(address as int) && safe && !space.mapped(
                address as int,
            ) ==> r == Err::<[u8; 8], MemoryError>(MemoryError::OsQueryFailed),
            1 <= size <= 8 && safe && space.mapped(address as int) && !space.state_at(
                address as int,
            ).read ==> r == Err::<[u8; 8], MemoryError>(MemoryError::PagePermNoRead(address)),
            1 <= size <= 8 && Self::read_gate(*space, address as int, safe) ==> (r matches Ok(bytes)
                && (forall|k: int|
                0 <= k < size ==> bytes@[k] == space.byte_at(address + k)) && (forall|k: int|
                size <= k < 8 ==> bytes@[k] == 0)),
    {
        proof {
            if space.mapped(address as int) && reserved_addr(address as int) {
                lemma_reserved_unmapped(*space, address as int);
            }
        }
        if size == 0 || size > 8 {
            return Err(MemoryError::InvalidSize(size as usize));
        }
        if is_in_reserved_range(address) {
            return Err(MemoryError::PagePermNoRead(address));
        }
        if safe {
            match Self::check_permission_read(space, address) {
                Ok(()) => {},
                Err(e) => {
                    return Err(e);
                },
            }
        }
        let mut result = [0u8; 8];
        let mut k: usize = 0;
        let n = size as usize;
        while k < n
            invariant
                space.wf(),
                1 <= n <= 8,
                0 <= k <= n,
                address + n <= usize::MAX,
                space.range_readable(address as int, n as int),
                forall|j: int| 0 <= j < k ==> result@[j] == space.byte_at(address + j),
                forall|j: int| k <= j < 8 ==> result@[j] == 0,
            decreases n - k,
        {
            result[k] = get_byte(space, address + k);
            k += 1;
        }
        Ok(result)
    }

    /// Writes `buf` at `address`. An empty buffer is a no-op success. For a
    /// non-empty buffer the reserved-range filter runs first in both modes,
    /// before any page query; safe mode then requires WRITE permission on
    /// the address's page.
    pub fn write(space: &mut MemorySpace, address: usize, buf: &[u8], safe: bool) -> (r: Result<
        (),
        MemoryError,
    >)
        requires
            old(space).wf(),
            buf@.len() > 0 && Self::write_gate(*old(space), address as int, safe) ==> address
                + buf@.len() <= usize::MAX && old(space).range_writable(
                address as int,
                buf@.len() as int,
            ),
        ensures
            final(space).wf(),
            MemorySpace::same_shape(*old(space), *final(space)),
            MemorySpace::same_states(*old(space), *final(space)),
            buf@.len() > 0 && reserved_addr(address as int) ==> r is Err,
            buf@.len() == 0 ==> r == Ok::<(), MemoryError>(()) && *final(space) == *old(space),
            buf@.len() > 0 && reserved_addr(address as int) ==> r == Err::<(), MemoryError>(
                MemoryError::PagePermNoWrite(address),
            ) && *final(space) == *old(space),
            buf@.len() > 0 && !reserved_addr(address as int) && safe && !old(space).mapped(
                address as int,
            ) ==> r == Err::<(), MemoryError>(MemoryError::OsQueryFailed) && *final(space) == *old(
                space,
            ),
            buf@.len() > 0 && safe && old(space).mapped(address as int) && !old(space).state_at(
                address as int,
            ).write ==> r == Err::<(), MemoryError>(MemoryError::PagePermNoWrite(address))
                && *final(space) == *old(space),
            buf@.len() > 0 && Self::write_gate(*old(space), address as int, safe) ==> r == Ok::<
                (),
                MemoryError,
            >(()) && (forall|k: int|
                0 <= k < buf@.len() ==> final(space).byte_at(address + k) == buf@[k]) && (forall|
                x: int,
            |
                old(space).mapped(x) && !(address <= x < address + buf@.len())
                    ==> final(space).byte_at(x) == old(space).byte_at(x)),
    {
        proof {
            if space.mapped(address as int) && reserved_addr(address as int) {
                lemma_reserved_unmapped(*space, address as int);
            }
        }
        if buf.len() == 0 {
            return Ok(());
        }
        if is_in_reserved_range(address) {
            return Err(MemoryError::PagePermNoWrite(address));
        }
        if safe {
            let state = match Self::get_page_state(space, address) {
                Ok(st) => st,
                Err(e) => {
                    return Err(e);
                },
            };
            if !state.write {
                return Err(MemoryError::PagePermNoWrite(address));
            }
        }
        write_range(space, address, buf);
        Ok(())
    }
}

/// The little-endian value of the bytes from index `k` on.
pub open spec fn le_value_from(bytes: Seq<u8>, k: int) -> int
    decreases bytes.len() - k,
{
    if k < 0 || k >= bytes.len() {
        0
    } else {
        bytes[k] + 256 * le_value_from(bytes, k + 1)
    }
}

/// The little-endian value of a byte sequence.
pub open spec fn le_value(bytes: Seq<u8>) -> int {
    le_value_from(bytes, 0)
}

/// The pointer-sized value stored at `a`: eight bytes, little endian, as the
/// original target stores its pointers.
pub open spec fn deref_at(s: MemorySpace, a: int) -> int {
    le_value(s.bytes_in(a, 8))
}

/// Reads the eight-byte little-endian pointer cell at `address`.
fn read_ptr_value(space: &MemorySpace, address: usize) -> (r: u64)
    requires
        space.wf(),
        space.range_readable(address as int, 8),
    ensures
        r as int == deref_at(*space, address as int),
{
    proof {
        assert(space.readable(address as int + 7));
        crate::space::lemma_mapped_bounds(*space, address as int + 7);
    }
    let b0 = get_byte(space, address) as u64;
    let b1 = get_byte(space, address + 1) as u64;
    let b2 = get_byte(space, address + 2) as u64;
    let b3 = get_byte(space, address + 3) as u64;
    let b4 = get_byte(space, address + 4) as u64;
    let b5 = get_byte(space, address + 5) as u64;
    let b6 = get_byte(space, address + 6) as u64;
    let b7 = get_byte(space, address + 7) as u64;
    let v7 = b7;
    let v6 = b6 + 256 * v7;
    let v5 = b5 + 256 * v6;
    let v4 = b4 + 256 * v5;
    let v3 = b3 + 256 * v4;
    let v2 = b2 + 256 * v3;
    let v1 = b1 + 256 * v2;
    let v0 = b0 + 256 * v1;
    proof {
        let ghost buf = space.bytes_in(address as int, 8);
        assert(buf.len() == 8);
        assert forall|k: int| 0 <= k < 8 implies buf[k] == space.byte_at(address + k) by {}
        assert(le_value_from(buf, 8) == 0);
        assert(le_value_from(buf, 7) == buf[7] + 256 * le_value_from(buf, 8));
        assert(le_value_from(buf, 6) == buf[6] + 256 * le_value_from(buf, 7));
        assert(le_value_from(buf, 5) == buf[5] + 256 * le_value_from(buf, 6));
        assert(le_value_from(buf, 4) == buf[4] + 256 * le_value_from(buf, 5));
        assert(le_value_from(buf, 3) == buf[3] + 256 * le_value_from(buf, 4));
        assert(le_value_from(buf, 2) == buf[2] + 256 * le_value_from(buf, 3));
        assert(le_value_from(buf, 1) == buf[1] + 256 * le_value_from(buf, 2));
        assert(le_value_from(buf, 0) == buf[0] + 256 * le_value_from(buf, 1));
    }
    v0
}

/// Decides whether one address is backed by committed memory granting READ.
fn is_readable(space: &MemorySpace, address: usize) -> (r: bool)
    requires
        space.wf(),
    ensures
        r == space.readable(address as int),
{
    match crate::space::find_region(space, address) {
        Some(i) => {
            let st = space.regions[i].state;
            st.commit && st.read
        },
        None => false,
    }
}

/// Decides whether a whole pointer cell (eight bytes) is readable.
fn is_range_readable8(space: &MemorySpace, address: usize) -> (r: bool)
    requires
        space.wf(),
    ensures
        r == space.range_readable(address as int, 8),
{
    match address.checked_add(7) {
        Some(_) => {},
        None => {
            proof {
                if space.readable(address as int + 7) {
                    crate::space::lemma_mapped_bounds(*space, address as int + 7);
                }
            }
            return false;
        },
    }
    let mut k: usize = 0;
    while k < 8
        invariant
            space.wf(),
            0 <= k <= 8,
            address + 7 <= usize::MAX,
            forall|x: int| address <= x < address + k ==> #[trigger] space.readable(x),
        decreases 8 - k,
    {
        if !is_readable(space, address + k) {
            return false;
        }
        k += 1;
    }
    true
}

/// Adds a signed byte offset to a pointer value, yielding an address.
fn add_offset(addr: u64, off: isize) -> (r: usize)
    requires
        0 <= addr + off <= usize::MAX,
    ensures
        r as int == addr + off,
{
    if off >= 0 {
        (addr + (off as u64)) as usize
    } else {
        let mag = (-(off as i128)) as u64;
        (addr - mag) as usize
    }
}

/// The offset-then-dereference convention: at each level except the last,
/// add the offset, reject a reserved result, then dereference; the final
/// level adds its offset without dereferencing.
pub open spec fn offset_chain(s: MemorySpace, addr: int, offsets: Seq<isize>) -> Option<int>
    decreases offsets.len(),
{
    if offsets.len() == 0 {
        Some(addr)
    } else {
        let a2 = addr + offsets[0];
        if offsets.len() == 1 {
            Some(a2)
        } else if reserved_addr(a2) {
            None
        } else {
            offset_chain(s, deref_at(s, a2), offsets.drop_first())
        }
    }
}

/// The walk of `offset_chain` stays within addressable, readable memory and
/// never overflows: the condition under which the resolver may run.
pub open spec fn offset_chain_safe(s: MemorySpace, addr: int, offsets: Seq<isize>) -> bool
    decreases offsets.len(),
{
    if offsets.len() == 0 {
        true
    } else {
        let a2 = addr + offsets[0];
        &&& 0 <= a2 <= usize::MAX
        &&& (offsets.len() == 1 || reserved_addr(a2) || (s.range_readable(a2, 8)
            && offset_chain_safe(s, deref_at(s, a2), offsets.drop_first())))
    }
}

/// The dereference-then-offset convention (CE-compatible): at every level,
/// reject a reserved current address, dereference it, then add the offset.
pub open spec fn offset_chain_ce(s: MemorySpace, addr: int, offsets: Seq<isize>) -> Option<int>
    decreases offsets.len(),
{
    if offsets.len() == 0 {
        Some(addr)
    } else if reserved_addr(addr) {
        None
    } else {
        offset_chain_ce(s, deref_at(s, addr) + offsets[0], offsets.drop_first())
    }
}

/// The walk of `offset_chain_ce` stays within addressable, readable memory
/// and never overflows.
pub open spec fn offset_chain_ce_safe(s: MemorySpace, addr: int, offsets: Seq<isize>) -> bool
    decreases offsets.len(),
{
    if offsets.len() == 0 {
        true
    } else if reserved_addr(addr) {
        true
    } else {
        &&& s.range_readable(addr, 8)
        &&& 0 <= deref_at(s, addr) + offsets[0] <= usize::MAX
        &&& offset_chain_ce_safe(s, deref_at(s, addr) + offsets[0], offsets.drop_first())
    }
}

/// The two conventions agree once the first dereference is taken by hand:
/// resolving `offsets` CE-style from `base` equals resolving them native
/// style from the value stored at `base`. They differ only in the initial
/// null/reserved screening of `base` itself.
pub proof fn lemma_offset_conventions_agree(s: MemorySpace, base: int, offsets: Seq<isize>)
    requires
        offsets.len() >= 1,
        !reserved_addr(base),
    ensures
        offset_chain_ce(s, base, offsets) == offset_chain(s, deref_at(s, base), offsets),
    decreases offsets.len(),
{
    let d = deref_at(s, base);
    let a2 = d + offsets[0];
    if offsets.len() == 1 {
        assert(offset_chain_ce(s, base, offsets) == offset_chain_ce(s, a2, offsets.drop_first()));
        assert(offset_chain_ce(s, a2, offsets.drop_first()) == Some(a2));
    } else {
        if reserved_addr(a2) {
            assert(offset_chain_ce(s, a2, offsets.drop_first()) is None);
        } else {
            lemma_offset_conventions_agree(s, a2, offsets.drop_first());
        }
    }
}

impl MemoryUtils {
    /// Multi-level pointer offsetting, native convention: the first level is
    /// offset without an initial dereference, and the last level is offset
    /// but not dereferenced — the resolver returns an address, not a value.
    pub fn offset_ptr(space: &MemorySpace, base_addr: usize, offsets: &[isize]) -> (r: Option<
        usize,
    >)
        requires
            space.wf(),
            offset_chain_safe(*space, base_addr as int, offsets@),
        ensures
            match offset_chain(*space, base_addr as int, offsets@) {
                Some(a) => r matches Some(v) && v as int == a,
                None => r is None,
            },
    {
        let n = offsets.len();
        if n == 0 {
            return Some(base_addr);
        }
        let mut addr: u64 = base_addr as u64;
        let mut idx: usize = 0;
        proof {
            assert(offsets@.skip(0) =~= offsets@);
        }
        loop
            invariant
                space.wf(),
                n == offsets@.len(),
                0 <= idx < n,
                offset_chain_safe(*space, addr as int, offsets@.skip(idx as int)),
                offset_chain(*space, base_addr as int, offsets@) == offset_chain(
                    *space,
                    addr as int,
                    offsets@.skip(idx as int),
                ),
            decreases n - idx,
        {
            let ghost rest = offsets@.skip(idx as int);
            proof {
                assert(rest.len() == n - idx);
                assert(rest[0] == offsets@[idx as int]);
                assert(rest.drop_first() =~= offsets@.skip(idx as int + 1));
            }
            let off = offsets[idx];
            let a2 = add_offset(addr, off);
            if idx == n - 1 {
                return Some(a2);
            }
            if is_in_reserved_range(a2) {
                return None;
            }
            addr = read_ptr_value(space, a2);
            proof {
                assert(addr as int == deref_at(*space, a2 as int));
            }
            idx += 1;
        }
    }

    /// Multi-level pointer offsetting, CE-compatible convention: every
    /// level, including the base, is dereferenced before its offset is
    /// added. A null base fails immediately.
    pub fn offset_ptr_ce(space: &MemorySpace, base_addr: usize, offsets: &[isize]) -> (r: Option<
        usize,
    >)
        requires
            space.wf(),
            offset_chain_ce_safe(*space, base_addr as int, offsets@),
        ensures
            base_addr == 0 ==> r is None,
            base_addr != 0 ==> match offset_chain_ce(*space, base_addr as int, offsets@) {
                Some(a) => r matches Some(v) && v as int == a,
                None => r is None,
            },
    {
        if base_addr == 0 {
            return None;
        }
        let n = offsets.len();
        let mut addr: usize = base_addr;
        let mut idx: usize = 0;
        proof {
            assert(offsets@.skip(0) =~= offsets@);
        }
        while idx < n
            invariant
                space.wf(),
                n == offsets@.len(),
                0 <= idx <= n,
                offset_chain_ce_safe(*space, addr as int, offsets@.skip(idx as int)),
                offset_chain_ce(*space, base_addr as int, offsets@) == offset_chain_ce(
                    *space,
                    addr as int,
                    offsets@.skip(idx as int),
                ),
            decreases n - idx,
        {
            let ghost rest = offsets@.skip(idx as int);
            proof {
                assert(rest.len() == n - idx);
                assert(rest[0] == offsets@[idx as int]);
                assert(rest.drop_first() =~= offsets@.skip(idx as int + 1));
            }
            if is_in_reserved_range(addr) {
                return None;
            }
            let value = read_ptr_value(space, addr);
            let off = offsets[idx];
            addr = add_offset(value, off);
            idx += 1;
        }
        proof {
            assert(offsets@.skip(n as int) =~= Seq::<isize>::empty());
        }
        Some(addr)
    }

    /// Decides executably whether `offset_ptr` may run on these inputs: the
    /// native walk stays within addressable, readable memory and never
    /// overflows. An embedder holding an untrusted offset list checks here
    /// first.
    pub fn can_offset_ptr(space: &MemorySpace, base_addr: usize, offsets: &[isize]) -> (r: bool)
        requires
            space.wf(),
        ensures
            r == offset_chain_safe(*space, base_addr as int, offsets@),
    {
        let n = offsets.len();
        if n == 0 {
            return true;
        }
        let mut addr: u64 = base_addr as u64;
        let mut idx: usize = 0;
        proof {
            assert(offsets@.skip(0) =~= offsets@);
        }
        loop
            invariant
                space.wf(),
                n == offsets@.len(),
                0 <= idx < n,
                offset_chain_safe(*space, base_addr as int, offsets@) == offset_chain_safe(
                    *space,
                    addr as int,
                    offsets@.skip(idx as int),
                ),
            decreases n - idx,
        {
            let ghost rest = offsets@.skip(idx as int);
            proof {
                assert(rest.len() == n - idx);
                assert(rest[0] == offsets@[idx as int]);
                assert(rest.drop_first() =~= offsets@.skip(idx as int + 1));
            }
            let off = offsets[idx];
            let sum: i128 = (addr as i128) + (off as i128);
            if sum < 0 || sum > (usize::MAX as i128) {
                return false;
            }
            let a2 = sum as usize;
            if idx == n - 1 {
                return true;
            }
            if is_in_reserved_range(a2) {
                return true;
            }
            if !is_range_readable8(space, a2) {
                return false;
            }
            addr = read_ptr_value(space, a2);
            idx += 1;
        }
    }

    /// Decides executably whether `offset_ptr_ce` may run on these inputs:
    /// the CE-style walk stays within addressable, readable memory and never
    /// overflows.
    pub fn can_offset_ptr_ce(space: &MemorySpace, base_addr: usize, offsets: &[isize]) -> (r: bool)
        requires
            space.wf(),
        ensures
            r == offset_chain_ce_safe(*space, base_addr as int, offsets@),
    {
        let n = offsets.len();
        let mut addr: usize = base_addr;
        let mut idx: usize = 0;
        proof {
            assert(offsets@.skip(0) =~= offsets@);
        }
        while idx < n
            invariant
                space.wf(),
                n == offsets@.len(),
                0 <= idx <= n,
                offset_chain_ce_safe(*space, base_addr as int, offsets@) == offset_chain_ce_safe(
                    *space,
                    addr as int,
                    offsets@.skip(idx as int),
                ),
            decreases n - idx,
        {
            let ghost rest = offsets@.skip(idx as int);
            proof {
                assert(rest.len() == n - idx);
                assert(rest[0] == offsets@[idx as int]);
                assert(rest.drop_first() =~= offsets@.skip(idx as int + 1));
            }
            if is_in_reserved_range(addr) {
                return true;
            }
            if !is_range_readable8(space, addr) {
                return false;
            }
            let value = read_ptr_value(space, addr);
            let off = offsets[idx];
            let sum: i128 = (value as i128) + (off as i128);
            if sum < 0 || sum > (usize::MAX as i128) {
                return false;
            }
            addr = sum as usize;
            idx += 1;
        }
        proof {
            assert(offsets@.skip(n as int) =~= Seq::<isize>::empty());
        }
        true
    }
}

impl MemoryUtils {
    /// The condition under which a patch of `len` bytes at `address` is
    /// carried out: the page is committed and one region holds the whole
    /// range, so the protection change succeeds.
    pub open spec fn patch_applies(space: MemorySpace, address: int, len: int) -> bool {
        &&& space.mapped(address)
        &&& space.state_at(address).commit
        &&& space.range_in_region(address, len)
    }

    /// Replaces `data.len()` bytes at `address`, returning the original
    /// bytes as the backup. The reserved-range filter runs first, before any
    /// page query; then the target page must be committed; the copy runs
    /// under a scoped protection guard that grants execute+read+write and is
    /// restored before returning, so the page states end unchanged. Nothing
    /// is modified on any failure path.
    pub fn patch(space: &mut MemorySpace, address: usize, data: &[u8]) -> (r: Result<
        Vec<u8>,
        MemoryError,
    >)
        requires
            old(space).wf(),
        ensures
            final(space).wf(),
            MemorySpace::same_shape(*old(space), *final(space)),
            MemorySpace::same_states(*old(space), *final(space)),
            reserved_addr(address as int) ==> r == Err::<Vec<u8>, MemoryError>(
                MemoryError::PagePermNoWrite(address),
            ) && *final(space) == *old(space),
            !reserved_addr(address as int) && !old(space).mapped(address as int) ==> r == Err::<
                Vec<u8>,
                MemoryError,
            >(MemoryError::OsQueryFailed) && *final(space) == *old(space),
            old(space).mapped(address as int) && !old(space).state_at(address as int).commit ==> r
                == Err::<Vec<u8>, MemoryError>(MemoryError::PageNotCommit(address)) && *final(space)
                == *old(space),
            old(space).mapped(address as int) && old(space).state_at(address as int).commit && !old(
                space,
            ).range_in_region(address as int, data@.len() as int) ==> r == Err::<
                Vec<u8>,
                MemoryError,
            >(MemoryError::ProtectionChangeFailed) && *final(space) == *old(space),
            Self::patch_applies(*old(space), address as int, data@.len() as int) ==> (r matches Ok(
                backup,
            ) && backup@ == old(space).bytes_in(address as int, data@.len() as int) && (forall|
                k: int,
            |
                0 <= k < data@.len() ==> final(space).byte_at(address + k) == data@[k]) && (forall|
                x: int,
            |
                old(space).mapped(x) && !(address <= x < address + data@.len())
                    ==> final(space).byte_at(x) == old(space).byte_at(x))),
    {
        proof {
            if space.mapped(address as int) && reserved_addr(address as int) {
                lemma_reserved_unmapped(*space, address as int);
            }
        }
        if is_in_reserved_range(address) {
            return Err(MemoryError::PagePermNoWrite(address));
        }
        let ghost s0 = *space;
        match Self::check_page_commit(space, address) {
            Ok(()) => {},
            Err(e) => {
                return Err(e);
            },
        }
        let erw = PageState { read: true, write: true, execute: true, commit: false };
        let guard = match crate::guard::VirtualProtectGuard::try_new(
            space,
            address,
            data.len(),
            erw,
        ) {
            Ok(g) => g,
            Err(e) => {
                return Err(e);
            },
        };
        let ghost s1 = *space;
        proof {
            crate::space::lemma_same_shape(s0, s1);
            crate::space::lemma_range_in_region(s0, address as int, data@.len() as int);
            assert forall|x: int|
                address <= x < address + data@.len() implies s1.readable(x) && s1.writable(x) by {
                assert(s0.mapped(x) && s0.region_index_of(x) == s0.region_index_of(address as int));
                assert(s1.mapped(x));
                assert(s1.region_index_of(x) == s0.region_index_of(x));
                assert(s1.state_at(x) == s1.regions@[s0.region_index_of(x)].state);
                assert(s1.state_at(address as int) == s1.regions@[s0.region_index_of(
                    address as int,
                )].state);
            }
            assert(address + data@.len() <= usize::MAX) by {
                if data@.len() > 0 {
                    assert(s0.mapped(address + (data@.len() - 1)));
                    crate::space::lemma_mapped_bounds(s0, address + (data@.len() - 1));
                }
            }
            crate::space::lemma_bytes_preserved(s0, s1);
        }
        let backup = read_range(space, address, data.len());
        proof {
            assert forall|k: int|
                0 <= k < data@.len() implies s1.bytes_in(address as int, data@.len() as int)[k]
                == s0.bytes_in(address as int, data@.len() as int)[k] by {
                assert(s0.mapped(address + k));
            }
            assert(s1.bytes_in(address as int, data@.len() as int) =~= s0.bytes_in(
                address as int,
                data@.len() as int,
            ));
        }
        write_range(space, address, data);
        let ghost s2 = *space;
        guard.release(space);
        proof {
            crate::space::lemma_states_preserved(s1, s2);
            assert(s2.mapped(address as int));
            crate::space::lemma_same_shape(s2, *space);
            crate::space::lemma_bytes_preserved(s2, *space);
            // the guard restored the page states exactly
            let i = s0.region_index_of(address as int);
            assert(s2.region_index_of(address as int) == i);
            assert(s2.state_at(address as int) == s1.state_at(address as int));
            assert(space.state_at(address as int) == s0.state_at(address as int));
            assert(space.regions@[i].state == s0.regions@[i].state);
            assert forall|j: int|
                0 <= j < s0.regions@.len() implies (#[trigger] space.regions@[j]).state
                == s0.regions@[j].state by {
                if j != i {
                    assert(s1.regions@[j].state == s0.regions@[j].state);
                    assert(s2.regions@[j].state == s1.regions@[j].state);
                    assert(space.regions@[j].state == s2.regions@[j].state);
                }
            }
            assert(MemorySpace::same_states(s0, *space));
            assert forall|k: int|
                0 <= k < data@.len() implies space.byte_at(address + k) == data@[k] by {
                assert(s2.mapped(address + k));
            }
            assert forall|x: int|
                s0.mapped(x) && !(address <= x < address + data@.len()) implies space.byte_at(x)
                == s0.byte_at(x) by {
                assert(s1.mapped(x));
                assert(s2.byte_at(x) == s1.byte_at(x));
                assert(s2.mapped(x));
            }
        }
        Ok(backup)
    }

    /// Fills `count` bytes at `address` with one repeated byte value, under
    /// the same reserved-range filter, commit precondition and protection
    /// guard as `patch`, and returns the original bytes as the backup.
    pub fn patch_repeat(space: &mut MemorySpace, address: usize, byte: u8, count: usize) -> (r:
        Result<Vec<u8>, MemoryError>)
        requires
            old(space).wf(),
        ensures
            final(space).wf(),
            MemorySpace::same_shape(*old(space), *final(space)),
            MemorySpace::same_states(*old(space), *final(space)),
            reserved_addr(address as int) ==> r == Err::<Vec<u8>, MemoryError>(
                MemoryError::PagePermNoWrite(address),
            ) && *final(space) == *old(space),
            !reserved_addr(address as int) && !old(space).mapped(address as int) ==> r == Err::<
                Vec<u8>,
                MemoryError,
            >(MemoryError::OsQueryFailed) && *final(space) == *old(space),
            old(space).mapped(address as int) && !old(space).state_at(address as int).commit ==> r
                == Err::<Vec<u8>, MemoryError>(MemoryError::PageNotCommit(address)) && *final(space)
                == *old(space),
            old(space).mapped(address as int) && old(space).state_at(address as int).commit && !old(
                space,
            ).range_in_region(address as int, count as int) ==> r == Err::<Vec<u8>, MemoryError>(
                MemoryError::ProtectionChangeFailed,
            ) && *final(space) == *old(space),
            Self::patch_applies(*old(space), address as int, count as int) ==> (r matches Ok(backup)
                && backup@ == old(space).bytes_in(address as int, count as int) && (forall|x: int|
                address <= x < address + count ==> #[trigger] final(space).byte_at(x) == byte) && (
            forall|x: int|
                old(space).mapped(x) && !(address <= x < address + count)
                    ==> final(space).byte_at(x) == old(space).byte_at(x))),
    {
        let ghost s0 = *old(space);
        let data: Vec<u8> = vec![byte; count];
        let r = Self::patch(space, address, data.as_slice());
        proof {
            if Self::patch_applies(s0, address as int, count as int) {
                assert forall|x: int|
                    address <= x < address + count implies #[trigger] space.byte_at(x) == byte by {
                    let k = x - address;
                    assert(space.byte_at(address + k) == data@[k]);
                }
            }
        }
        r
    }
}

impl MemoryUtils {
    /// Scans `[base, base + size)` for the first occurrence of the pattern
    /// and returns its absolute address. Zero matches are the `NotFound`
    /// outcome, distinct from a parse error in the pattern text.
    pub fn scan_first(space: &MemorySpace, base: usize, size: usize, pattern: &str) -> (r: Result<
        usize,
        MemoryError,
    >)
        requires
            space.wf(),
            base + size <= usize::MAX,
            space.range_readable(base as int, size as int),
        ensures
            ({
                let buf = space.bytes_in(base as int, size as int);
                match parse_pattern_spec(pattern.spec_bytes()) {
                    None => r == Err::<usize, MemoryError>(
                        MemoryError::PatternScan(PatternError::InvalidToken),
                    ),
                    Some(items) => {
                        if exists|o: int| #[trigger] matches_at(buf, items, o) {
                            r matches Ok(addr) && base <= addr && is_first_match(
                                buf,
                                items,
                                addr - base,
                            )
                        } else {
                            (r matches Err(e) && e matches MemoryError::NotFound(p) && p@
                                == pattern@)
                        }
                    },
                }
            }),
    {
        let pat = match parse_pattern(pattern) {
            Ok(p) => p,
            Err(e) => {
                return Err(MemoryError::PatternScan(e));
            },
        };
        let buf = read_range(space, base, size);
        match scan_first_match(buf.as_slice(), &pat) {
            Some(o) => {
                proof {
                    assert(matches_at(buf@, pat@, o as int));
                }
                Ok(base + o)
            },
            None => Err(MemoryError::NotFound(pattern.to_owned())),
        }
    }

    /// Scans `[base, base + size)` for every occurrence of the pattern and
    /// returns their absolute addresses in strictly increasing order; zero
    /// matches are the `NotFound` outcome.
    pub fn scan_all(space: &MemorySpace, base: usize, size: usize, pattern: &str) -> (r: Result<
        Vec<usize>,
        MemoryError,
    >)
        requires
            space.wf(),
            base + size <= usize::MAX,
            space.range_readable(base as int, size as int),
        ensures
            ({
                let buf = space.bytes_in(base as int, size as int);
                match parse_pattern_spec(pattern.spec_bytes()) {
                    None => r == Err::<Vec<usize>, MemoryError>(
                        MemoryError::PatternScan(PatternError::InvalidToken),
                    ),
                    Some(items) => {
                        if exists|o: int| #[trigger] matches_at(buf, items, o) {
                            r matches Ok(v) && v@.len() > 0 && (forall|j: int|
                                0 <= j < v@.len() ==> base <= #[trigger] v@[j] && matches_at(
                                    buf,
                                    items,
                                    v@[j] - base,
                                )) && (forall|j: int, k: int|
                                0 <= j < k < v@.len() ==> v@[j] < v@[k]) && (forall|o: int|
                                #[trigger] matches_at(buf, items, o) ==> exists|j: int|
                                    0 <= j < v@.len() && v@[j] == base + o)
                        } else {
                            (r matches Err(e) && e matches MemoryError::NotFound(p) && p@
                                == pattern@)
                        }
                    },
                }
            }),
    {
        let pat = match parse_pattern(pattern) {
            Ok(p) => p,
            Err(e) => {
                return Err(MemoryError::PatternScan(e));
            },
        };
        let buf = read_range(space, base, size);
        let offsets = scan_all_matches(buf.as_slice(), &pat);
        let n = offsets.len();
        let mut out: Vec<usize> = Vec::new();
        let mut j: usize = 0;
        while j < n
            invariant
                space.wf(),
                base + size <= usize::MAX,
                n == offsets@.len(),
                0 <= j <= n,
                buf@.len() == size,
                forall|i: int|
                    0 <= i < n ==> matches_at(buf@, pat@, #[trigger] offsets@[i] as int),
                out@.len() == j,
                forall|i: int| 0 <= i < j ==> #[trigger] out@[i] == base + offsets@[i],
            decreases n - j,
        {
            let o = offsets[j];
            proof {
                assert(matches_at(buf@, pat@, o as int));
            }
            out.push(base + o);
            j += 1;
        }
        if out.len() == 0 {
            proof {
                assert forall|o: int| !(#[trigger] matches_at(buf@, pat@, o)) by {
                    if matches_at(buf@, pat@, o) {
                        let i = choose|i: int| 0 <= i < offsets@.len() && offsets@[i] == o;
                        assert(false);
                    }
                }
            }
            return Err(MemoryError::NotFound(pattern.to_owned()));
        }
        proof {
            assert(matches_at(buf@, pat@, offsets@[0] as int));
            assert forall|o: int| #[trigger] matches_at(buf@, pat@, o) implies exists|i: int|
                0 <= i < out@.len() && out@[i] == base + o by {
                let i = choose|i: int| 0 <= i < offsets@.len() && offsets@[i] == o;
                assert(out@[i] == base + o);
            }
        }
        Ok(out)
    }

    /// Scans the primary module's image for the first occurrence of the
    /// pattern, using the module locator for the range.
    pub fn auto_scan_first(space: &MemorySpace, pattern: &str) -> (r: Result<usize, MemoryError>)
        requires
            space.wf(),
            space.module_base + space.module_size <= usize::MAX,
            space.range_readable(space.module_base as int, space.module_size as int),
        ensures
            ({
                let buf = space.bytes_in(space.module_base as int, space.module_size as int);
                match parse_pattern_spec(pattern.spec_bytes()) {
                    None => r == Err::<usize, MemoryError>(
                        MemoryError::PatternScan(PatternError::InvalidToken),
                    ),
                    Some(items) => {
                        if exists|o: int| #[trigger] matches_at(buf, items, o) {
                            r matches Ok(addr) && space.module_base <= addr && is_first_match(
                                buf,
                                items,
                                addr - space.module_base,
                            )
                        } else {
                            (r matches Err(e) && e matches MemoryError::NotFound(p) && p@
                                == pattern@)
                        }
                    },
                }
            }),
    {
        let (base, size) = match crate::space::get_base_module_space(space) {
            Ok(v) => v,
            Err(e) => {
                return Err(e);
            },
        };
        Self::scan_first(space, base, size, pattern)
    }

    /// Scans the primary module's image for every occurrence of the
    /// pattern, using the module locator for the range.
    pub fn auto_scan_all(space: &MemorySpace, pattern: &str) -> (r: Result<Vec<usize>, MemoryError>)
        requires
            space.wf(),
            space.module_base + space.module_size <= usize::MAX,
            space.range_readable(space.module_base as int, space.module_size as int),
        ensures
            ({
                let buf = space.bytes_in(space.module_base as int, space.module_size as int);
                match parse_pattern_spec(pattern.spec_bytes()) {
                    None => r == Err::<Vec<usize>, MemoryError>(
                        MemoryError::PatternScan(PatternError::InvalidToken),
                    ),
                    Some(items) => {
                        if exists|o: int| #[trigger] matches_at(buf, items, o) {
                            r matches Ok(v) && v@.len() > 0 && (forall|j: int|
                                0 <= j < v@.len() ==> space.module_base <= #[trigger] v@[j]
                                    && matches_at(buf, items, v@[j] - space.module_base)) && (
                            forall|j: int, k: int|
                                0 <= j < k < v@.len() ==> v@[j] < v@[k]) && (forall|o: int|
                                #[trigger] matches_at(buf, items, o) ==> exists|j: int|
                                    0 <= j < v@.len() && v@[j] == space.module_base + o)
                        } else {
                            (r matches Err(e) && e matches MemoryError::NotFound(p) && p@
                                == pattern@)
                        }
                    },
                }
            }),
    {
        let (base, size) = match crate::space::get_base_module_space(space) {
            Ok(v) => v,
            Err(e) => {
                return Err(e);
            },
        };
        Self::scan_all(space, base, size, pattern)
    }
}

/// The signed 32-bit value stored little-endian at `a`: the relative
/// displacement that a call site encodes.
pub open spec fn rel_i32_at(s: MemorySpace, a: int) -> int {
    let v = le_value(s.bytes_in(a, 4));
    if v >= 0x8000_0000 {
        v - 0x1_0000_0000
    } else {
        v
    }
}

/// Reads the signed 32-bit little-endian value at `address`.
fn read_rel32(space: &MemorySpace, address: usize) -> (r: i64)
    requires
        space.wf(),
        space.range_readable(address as int, 4),
    ensures
        r as int == rel_i32_at(*space, address as int),
{
    proof {
        assert(space.readable(address as int + 3));
        crate::space::lemma_mapped_bounds(*space, address as int + 3);
    }
    let b0 = get_byte(space, address) as u64;
    let b1 = get_byte(space, address + 1) as u64;
    let b2 = get_byte(space, address + 2) as u64;
    let b3 = get_byte(space, address + 3) as u64;
    let v = b0 + 256 * (b1 + 256 * (b2 + 256 * b3));
    proof {
        let ghost buf = space.bytes_in(address as int, 4);
        assert(buf.len() == 4);
        assert forall|k: int| 0 <= k < 4 implies buf[k] == space.byte_at(address + k) by {}
        assert(le_value_from(buf, 4) == 0);
        assert(le_value_from(buf, 3) == buf[3] + 256 * le_value_from(buf, 4));
        assert(le_value_from(buf, 2) == buf[2] + 256 * le_value_from(buf, 3));
        assert(le_value_from(buf, 1) == buf[1] + 256 * le_value_from(buf, 2));
        assert(le_value_from(buf, 0) == buf[0] + 256 * le_value_from(buf, 1));
    }
    if v >= 0x8000_0000 {
        (v as i64) - 0x1_0000_0000
    } else {
        v as i64
    }
}

/// The arithmetic of one relative-to-absolute conversion stays within
/// address bounds: the sum of match address and caller offset is a valid
/// address, and — when that address turns out readable — so is the final
/// absolute address it points at.
pub open spec fn relative_static_ok(s: MemorySpace, addr: int, off: int) -> bool {
    &&& 0 <= addr + off <= usize::MAX
    &&& ((s.mapped(addr + off) && s.state_at(addr + off).read) ==> s.range_readable(addr + off, 4)
        && 0 <= addr + off + 4 + rel_i32_at(s, addr + off) <= usize::MAX)
}

impl MemoryUtils {
    /// Locates a static variable through a signature scan: finds the first
    /// match of the pattern in the primary module, moves by `offset` to the
    /// instruction's displacement field, reads the signed 32-bit relative
    /// displacement stored there, and converts it to the absolute address
    /// `site + 4 + displacement`.
    pub fn scan_relative_static(space: &MemorySpace, pattern: &str, offset: isize) -> (r: Result<
        usize,
        MemoryError,
    >)
        requires
            space.wf(),
            space.module_base + space.module_size <= usize::MAX,
            space.range_readable(space.module_base as int, space.module_size as int),
            ({
                let buf = space.bytes_in(space.module_base as int, space.module_size as int);
                match parse_pattern_spec(pattern.spec_bytes()) {
                    Some(items) => forall|o: int|
                        #[trigger] is_first_match(buf, items, o) ==> relative_static_ok(
                            *space,
                            space.module_base + o,
                            offset as int,
                        ),
                    None => true,
                }
            }),
        ensures
            ({
                let buf = space.bytes_in(space.module_base as int, space.module_size as int);
                match parse_pattern_spec(pattern.spec_bytes()) {
                    None => r == Err::<usize, MemoryError>(
                        MemoryError::PatternScan(PatternError::InvalidToken),
                    ),
                    Some(items) => {
                        if exists|o: int| #[trigger] matches_at(buf, items, o) {
                            forall|o: int|
                                #[trigger] is_first_match(buf, items, o) ==> {
                                    let site = space.module_base + o + offset;
                                    if !space.mapped(site) {
                                        r == Err::<usize, MemoryError>(MemoryError::OsQueryFailed)
                                    } else if !space.state_at(site).read {
                                        r == Err::<usize, MemoryError>(
                                            MemoryError::PagePermNoRead(site as usize),
                                        )
                                    } else {
                                        (r matches Ok(abs) && abs == site + 4 + rel_i32_at(
                                            *space,
                                            site,
                                        ))
                                    }
                                }
                        } else {
                            (r matches Err(e) && e matches MemoryError::NotFound(p) && p@
                                == pattern@)
                        }
                    },
                }
            }),
    {
        let ghost buf = space.bytes_in(space.module_base as int, space.module_size as int);
        let scan_result = match Self::auto_scan_first(space, pattern) {
            Ok(a) => a,
            Err(e) => {
                return Err(e);
            },
        };
        let ghost o = scan_result - space.module_base;
        proof {
            let items = parse_pattern_spec(pattern.spec_bytes()).unwrap();
            assert(is_first_match(buf, items, o));
            assert(relative_static_ok(*space, space.module_base + o, offset as int));
            assert forall|o2: int| #[trigger] is_first_match(buf, items, o2) implies o2 == o by {
                crate::pattern::lemma_first_match_unique(buf, items, o2, o);
            }
        }
        let site = add_offset(scan_result as u64, offset);
        match Self::check_permission_read(space, site) {
            Ok(()) => {},
            Err(e) => {
                return Err(e);
            },
        }
        let rel = read_rel32(space, site);
        let abs = ((site as i128) + 4 + (rel as i128)) as usize;
        Ok(abs)
    }
}

} // verus!
