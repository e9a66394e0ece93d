use eglib::error::MemoryError;
use eglib::memory_util::MemoryUtils;
use eglib::page::{
    page_state_from_protect, PageState, MEM_COMMIT, PAGE_EXECUTE, PAGE_EXECUTE_READ,
    PAGE_EXECUTE_READWRITE, PAGE_EXECUTE_WRITECOPY, PAGE_NOACCESS, PAGE_READONLY, PAGE_READWRITE,
    PAGE_WRITECOPY,
};
use eglib::space::{get_base_module_space, is_in_reserved_range, MemorySpace};

fn rw() -> PageState {
    PageState { read: true, write: true, execute: false, commit: true }
}

fn make_space(base: usize, bytes: Vec<u8>, state: PageState) -> MemorySpace {
    let mut space = MemorySpace::new(0, 0);
    assert!(space.add_region(base, state, bytes));
    space
}

#[test]
fn test_read_returns_bytes() {
    let space = make_space(0x20000, (0u8..16).collect(), rw());
    let bytes = MemoryUtils::read(&space, 0x20004, 4, true).unwrap();
    assert_eq!(bytes, vec![4, 5, 6, 7]);
    // unsafe mode reads the same committed bytes
    let bytes2 = MemoryUtils::read(&space, 0x20004, 4, false).unwrap();
    assert_eq!(bytes2, vec![4, 5, 6, 7]);
}

#[test]
fn test_read_zero_size_is_invalid() {
    let space = make_space(0x20000, vec![0u8; 8], rw());
    assert_eq!(
        MemoryUtils::read(&space, 0x20000, 0, true),
        Err(MemoryError::InvalidSize(0))
    );
}

#[test]
fn test_write_empty_is_noop_success() {
    let mut space = make_space(0x20000, vec![7u8; 8], rw());
    assert_eq!(MemoryUtils::write(&mut space, 0x20000, &[], true), Ok(()));
    // even at a reserved or unmapped address, an empty write succeeds
    assert_eq!(MemoryUtils::write(&mut space, 0x10, &[], true), Ok(()));
    let bytes = MemoryUtils::read(&space, 0x20000, 8, true).unwrap();
    assert_eq!(bytes, vec![7u8; 8]);
}

#[test]
fn test_write_then_read_back() {
    let mut space = make_space(0x20000, vec![0u8; 8], rw());
    MemoryUtils::write(&mut space, 0x20002, &[0xDE, 0xAD], true).unwrap();
    let bytes = MemoryUtils::read(&space, 0x20000, 8, true).unwrap();
    assert_eq!(bytes, vec![0, 0, 0xDE, 0xAD, 0, 0, 0, 0]);
}

#[test]
fn test_reserved_range_filter() {
    assert!(is_in_reserved_range(0));
    assert!(is_in_reserved_range(0x10000));
    assert!(!is_in_reserved_range(0x10001));
    assert!(is_in_reserved_range(usize::MAX));
}

#[test]
fn test_reserved_rejection_read_write() {
    let mut space = make_space(0x20000, vec![0u8; 8], rw());
    // the reserved-range filter rejects first, in both modes, before any
    // page query
    assert_eq!(
        MemoryUtils::read(&space, 0x500, 4, false),
        Err(MemoryError::PagePermNoRead(0x500))
    );
    assert_eq!(
        MemoryUtils::read(&space, 0x500, 4, true),
        Err(MemoryError::PagePermNoRead(0x500))
    );
    assert_eq!(
        MemoryUtils::write(&mut space, 0x500, &[1], false),
        Err(MemoryError::PagePermNoWrite(0x500))
    );
    assert_eq!(
        MemoryUtils::write(&mut space, 0x500, &[1], true),
        Err(MemoryError::PagePermNoWrite(0x500))
    );
    assert_eq!(
        MemoryUtils::quick_read(&space, 0x10000, 4, false),
        Err(MemoryError::PagePermNoRead(0x10000))
    );
    assert_eq!(
        MemoryUtils::quick_read(&space, 0x10000, 4, true),
        Err(MemoryError::PagePermNoRead(0x10000))
    );
    // the high end of the reserved range is rejected the same way
    let high = 0x8000_0000_0000_0000usize;
    assert_eq!(
        MemoryUtils::read(&space, high, 4, true),
        Err(MemoryError::PagePermNoRead(high))
    );
    // patching a reserved address fails before any byte is touched
    assert_eq!(
        MemoryUtils::patch(&mut space, 0x500, &[1, 2]),
        Err(MemoryError::PagePermNoWrite(0x500))
    );
    assert_eq!(
        MemoryUtils::patch_repeat(&mut space, 0x500, 0x90, 2),
        Err(MemoryError::PagePermNoWrite(0x500))
    );
}

#[test]
fn test_permission_checks() {
    let ro = PageState { read: true, write: false, execute: false, commit: true };
    let xo = PageState { read: false, write: false, execute: true, commit: true };
    let reserved_only = PageState { read: false, write: false, execute: false, commit: false };
    let mut space = MemorySpace::new(0, 0);
    assert!(space.add_region(0x20000, ro, vec![0u8; 16]));
    assert!(space.add_region(0x30000, xo, vec![0u8; 16]));
    assert!(space.add_region(0x40000, reserved_only, vec![0u8; 16]));

    assert_eq!(MemoryUtils::check_permission_read(&space, 0x20000), Ok(()));
    assert_eq!(
        MemoryUtils::check_permission_rw(&space, 0x20000),
        Err(MemoryError::PagePermNoRead(0x20000))
    );
    assert_eq!(
        MemoryUtils::check_permission_execute(&space, 0x20000),
        Err(MemoryError::PagePermNoExecute(0x20000))
    );
    assert_eq!(MemoryUtils::check_permission_execute(&space, 0x30000), Ok(()));
    assert_eq!(MemoryUtils::check_page_commit(&space, 0x20000), Ok(()));
    assert_eq!(
        MemoryUtils::check_page_commit(&space, 0x40000),
        Err(MemoryError::PageNotCommit(0x40000))
    );
    // an unmapped address fails the query itself
    assert_eq!(
        MemoryUtils::check_permission_read(&space, 0x50000),
        Err(MemoryError::OsQueryFailed)
    );
    // a write to read-only memory is refused in safe mode
    let mut ro_space = make_space(0x20000, vec![0u8; 8], ro);
    assert_eq!(
        MemoryUtils::write(&mut ro_space, 0x20000, &[1], true),
        Err(MemoryError::PagePermNoWrite(0x20000))
    );
}

#[test]
fn test_quick_read_zero_fills() {
    let space = make_space(0x20000, vec![0x11, 0x22, 0x33, 0x44, 0x55, 0x66, 0x77, 0x88], rw());
    let buf = MemoryUtils::quick_read(&space, 0x20000, 3, true).unwrap();
    assert_eq!(buf, [0x11, 0x22, 0x33, 0, 0, 0, 0, 0]);
    assert_eq!(
        MemoryUtils::quick_read(&space, 0x20000, 0, true),
        Err(MemoryError::InvalidSize(0))
    );
    assert_eq!(
        MemoryUtils::quick_read(&space, 0x20000, 9, true),
        Err(MemoryError::InvalidSize(9))
    );
}

#[test]
fn test_page_state_from_protect_constants() {
    let s = page_state_from_protect(PAGE_EXECUTE, MEM_COMMIT);
    assert!(s.execute && !s.read && !s.write && s.commit);
    let s = page_state_from_protect(PAGE_EXECUTE_READ, MEM_COMMIT);
    assert!(s.execute && s.read && !s.write);
    let s = page_state_from_protect(PAGE_EXECUTE_READWRITE, MEM_COMMIT);
    assert!(s.execute && s.read && s.write);
    let s = page_state_from_protect(PAGE_EXECUTE_WRITECOPY, MEM_COMMIT);
    assert!(s.execute && s.read && s.write);
    let s = page_state_from_protect(PAGE_NOACCESS, MEM_COMMIT);
    assert!(!s.execute && !s.read && !s.write && s.commit);
    let s = page_state_from_protect(PAGE_READONLY, 0);
    assert!(s.read && !s.write && !s.execute && !s.commit);
    let s = page_state_from_protect(PAGE_READWRITE, MEM_COMMIT);
    assert!(s.read && s.write && !s.execute);
    let s = page_state_from_protect(PAGE_WRITECOPY, MEM_COMMIT);
    assert!(s.read && s.write && !s.execute);
}

#[test]
fn test_get_page_state_and_module_locator() {
    let mut space = MemorySpace::new(0x140000000, 0x1000);
    assert!(space.add_region(0x140000000, rw(), vec![0u8; 0x1000]));
    let st = MemoryUtils::get_page_state(&space, 0x140000800).unwrap();
    assert_eq!(st, rw());
    assert_eq!(
        MemoryUtils::get_page_state(&space, 0x999),
        Err(MemoryError::OsQueryFailed)
    );
    assert_eq!(get_base_module_space(&space), Ok((0x140000000, 0x1000)));
}

#[test]
fn test_add_region_rejects_reserved_and_overlap() {
    let mut space = MemorySpace::new(0, 0);
    assert!(!space.add_region(0x100, rw(), vec![0u8; 16]));
    assert!(space.add_region(0x20000, rw(), vec![0u8; 16]));
    assert!(!space.add_region(0x20008, rw(), vec![0u8; 16]));
    // adjacent regions are fine
    assert!(space.add_region(0x20010, rw(), vec![0u8; 16]));
}
