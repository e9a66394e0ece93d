//! Page protection state, decoded from the operating system's native
//! protection constants.

use vstd::prelude::*;

verus! {

/// Protection constants as the host operating system encodes them in a page
/// query: exactly one of these describes a page's protection.
pub const PAGE_NOACCESS: u32 = 0x01;
pub const PAGE_READONLY: u32 = 0x02;
pub const PAGE_READWRITE: u32 = 0x04;
pub const PAGE_WRITECOPY: u32 = 0x08;
pub const PAGE_EXECUTE: u32 = 0x10;
pub const PAGE_EXECUTE_READ: u32 = 0x20;
pub const PAGE_EXECUTE_READWRITE: u32 = 0x40;
pub const PAGE_EXECUTE_WRITECOPY: u32 = 0x80;

/// Allocation-state constant: the page is backed by committed memory.
pub const MEM_COMMIT: u32 = 0x1000;

/// The access rights and commit state of one page, at the moment it was
/// queried. Not cached and not stable: the target process may change its own
/// page protections at any time.
#[derive(Clone, Copy, Debug, PartialEq, Eq, Structural)]
pub struct PageState {
    pub read: bool,
    pub write: bool,
    pub execute: bool,
    pub commit: bool,
}

impl PageState {
    /// True when every right granted by `other` is granted by `self` as well.
    pub open spec fn spec_contains(self, other: PageState) -> bool {
        (other.read ==> self.read) && (other.write ==> self.write) && (other.execute
            ==> self.execute) && (other.commit ==> self.commit)
    }

    /// No rights at all, not committed.
    pub fn empty() -> (r: PageState)
        ensures
            !r.read && !r.write && !r.execute && !r.commit,
    {
        PageState { read: false, write: false, execute: false, commit: false }
    }

    pub fn contains(&self, other: &PageState) -> (r: bool)
        ensures
            r == self.spec_contains(*other),
    {
        (!other.read || self.read) && (!other.write || self.write) && (!other.execute
            || self.execute) && (!other.commit || self.commit)
    }
}

/// Translates the operating system's protection constant and allocation state
/// into the four-flag page state: execute-only grants EXECUTE alone,
/// read/execute grants both, any writable or copy-on-write protection grants
/// READ and WRITE, no-access grants nothing, and COMMIT follows the
/// allocation state independently of the protection flags.
pub fn page_state_from_protect(protect: u32, state: u32) -> (r: PageState)
    ensures
        r.execute == (protect == PAGE_EXECUTE || protect == PAGE_EXECUTE_READ || protect
            == PAGE_EXECUTE_READWRITE || protect == PAGE_EXECUTE_WRITECOPY),
        r.read == (protect == PAGE_EXECUTE_READ || protect == PAGE_EXECUTE_READWRITE || protect
            == PAGE_EXECUTE_WRITECOPY || protect == PAGE_READONLY || protect == PAGE_READWRITE
            || protect == PAGE_WRITECOPY),
        r.write == (protect == PAGE_EXECUTE_READWRITE || protect == PAGE_EXECUTE_WRITECOPY
            || protect == PAGE_READWRITE || protect == PAGE_WRITECOPY),
        r.commit == (state == MEM_COMMIT),
{
    let mut r = PageState::empty();
    if protect == PAGE_EXECUTE {
        r.execute = true;
    } else if protect == PAGE_EXECUTE_READ {
        r.execute = true;
        r.read = true;
    } else if protect == PAGE_EXECUTE_READWRITE || protect == PAGE_EXECUTE_WRITECOPY {
        r.execute = true;
        r.read = true;
        r.write = true;
    } else if protect == PAGE_NOACCESS {
        // no rights
    } else if protect == PAGE_READONLY {
        r.read = true;
    } else if protect == PAGE_READWRITE || protect == PAGE_WRITECOPY {
        r.read = true;
        r.write = true;
    }
    if state == MEM_COMMIT {
        r.commit = true;
    }
    r
}

} // verus!
