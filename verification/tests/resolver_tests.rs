use eglib::memory_util::MemoryUtils;
use eglib::page::PageState;
use eglib::space::MemorySpace;

fn rw() -> PageState {
    PageState { read: true, write: true, execute: false, commit: true }
}

fn make_space(base: usize, len: usize) -> MemorySpace {
    let mut space = MemorySpace::new(0, 0);
    assert!(space.add_region(base, rw(), vec![0u8; len]));
    space
}

fn store_ptr(space: &mut MemorySpace, at: usize, value: u64) {
    MemoryUtils::write(space, at, &value.to_le_bytes(), true).unwrap();
}

#[test]
fn test_offset_ptr_no_offsets_returns_base() {
    let space = make_space(0x20000, 64);
    assert_eq!(MemoryUtils::offset_ptr(&space, 0x20000, &[]), Some(0x20000));
}

#[test]
fn test_offset_ptr_last_level_not_dereferenced() {
    let space = make_space(0x20000, 64);
    // one offset: just pointer arithmetic, no read at all
    assert_eq!(
        MemoryUtils::offset_ptr(&space, 0x20000, &[0x10]),
        Some(0x20010)
    );
    assert_eq!(
        MemoryUtils::offset_ptr(&space, 0x20010, &[-0x08]),
        Some(0x20008)
    );
}

#[test]
fn test_offset_ptr_walks_chain() {
    let mut space = make_space(0x20000, 0x200);
    // cell at 0x20000 points to 0x20100; cell at 0x20108 points to 0x20180
    store_ptr(&mut space, 0x20000, 0x20100);
    store_ptr(&mut space, 0x20108, 0x20180);
    // offset 0: land on 0x20000, dereference -> 0x20100; offset 8: land on
    // 0x20108, dereference -> 0x20180; offset 4: final, not dereferenced
    assert_eq!(
        MemoryUtils::offset_ptr(&space, 0x20000, &[0, 8, 4]),
        Some(0x20184)
    );
}

#[test]
fn test_offset_ptr_reserved_intermediate_is_none() {
    let space = make_space(0x20000, 64);
    // first level lands at a reserved address and must be dereferenced: None
    assert_eq!(
        MemoryUtils::offset_ptr(&space, 0x8000, &[0x10, 0]),
        None
    );
}

#[test]
fn test_offset_ptr_ce_null_base_is_none() {
    let space = make_space(0x20000, 64);
    assert_eq!(MemoryUtils::offset_ptr_ce(&space, 0, &[]), None);
    assert_eq!(MemoryUtils::offset_ptr_ce(&space, 0, &[0]), None);
}

#[test]
fn test_offset_ptr_ce_reserved_base_is_none() {
    let space = make_space(0x20000, 64);
    assert_eq!(MemoryUtils::offset_ptr_ce(&space, 0x8000, &[0]), None);
}

#[test]
fn test_conventions_differ_and_compose() {
    let mut space = make_space(0x20000, 0x300);
    // synthetic chain: base -> p1 -> p2
    store_ptr(&mut space, 0x20000, 0x20100); // *base == p1
    store_ptr(&mut space, 0x20100, 0x20200); // *p1 == p2

    // native convention: no dereference of the base cell's own address
    // before the first offset, and none at the last level
    let native = MemoryUtils::offset_ptr(&space, 0x20000, &[0, 0]);
    // CE convention: dereference the base and every level
    let ce = MemoryUtils::offset_ptr_ce(&space, 0x20000, &[0, 0]);
    // distinct results when the base itself is not treated as a pointer cell
    assert_eq!(native, Some(0x20100));
    assert_eq!(ce, Some(0x20200));
    assert_ne!(native, ce);

    // composed: native from *base equals CE from base
    let deref_base = 0x20100;
    assert_eq!(
        MemoryUtils::offset_ptr(&space, deref_base, &[0, 0]),
        MemoryUtils::offset_ptr_ce(&space, 0x20000, &[0, 0])
    );
}

#[test]
fn test_can_offset_ptr_checks_walk() {
    let mut space = make_space(0x20000, 0x200);
    store_ptr(&mut space, 0x20000, 0x20100);
    // a readable chain is walkable
    assert!(MemoryUtils::can_offset_ptr(&space, 0x20000, &[0, 8]));
    assert_eq!(
        MemoryUtils::offset_ptr(&space, 0x20000, &[0, 8]),
        Some(0x20108)
    );
    // a single offset needs no dereference, so it is always walkable
    assert!(MemoryUtils::can_offset_ptr(&space, 0x90000, &[0x10]));
    // a dereference of unmapped memory is refused
    assert!(!MemoryUtils::can_offset_ptr(&space, 0x90000, &[0, 0]));
    // a reserved intermediate short-circuits: the resolver answers None
    assert!(MemoryUtils::can_offset_ptr(&space, 0x8000, &[0, 0]));
    assert_eq!(MemoryUtils::offset_ptr(&space, 0x8000, &[0, 0]), None);
}

#[test]
fn test_can_offset_ptr_ce_checks_walk() {
    let mut space = make_space(0x20000, 0x200);
    store_ptr(&mut space, 0x20000, 0x20100);
    assert!(MemoryUtils::can_offset_ptr_ce(&space, 0x20000, &[0]));
    assert_eq!(
        MemoryUtils::offset_ptr_ce(&space, 0x20000, &[0]),
        Some(0x20100)
    );
    // a dereference of unmapped memory is refused
    assert!(!MemoryUtils::can_offset_ptr_ce(&space, 0x90000, &[0]));
    // a reserved base short-circuits: the resolver answers None
    assert!(MemoryUtils::can_offset_ptr_ce(&space, 0x8000, &[0]));
    assert_eq!(MemoryUtils::offset_ptr_ce(&space, 0x8000, &[0]), None);
}

#[test]
fn test_offset_ptr_ce_empty_offsets_nonnull() {
    let space = make_space(0x20000, 64);
    assert_eq!(
        MemoryUtils::offset_ptr_ce(&space, 0x20000, &[]),
        Some(0x20000)
    );
}
