use eglib::error::MemoryError;
use eglib::guard::VirtualProtectGuard;
use eglib::memory_util::MemoryUtils;
use eglib::page::PageState;
use eglib::space::MemorySpace;

fn ro() -> PageState {
    PageState { read: true, write: false, execute: false, commit: true }
}

fn erw() -> PageState {
    PageState { read: true, write: true, execute: true, commit: true }
}

#[test]
fn test_guard_widens_then_restores() {
    let mut space = MemorySpace::new(0, 0);
    assert!(space.add_region(0x20000, ro(), vec![0u8; 0x100]));

    let guard = VirtualProtectGuard::try_new(&mut space, 0x20010, 0x10, erw()).unwrap();
    let widened = MemoryUtils::get_page_state(&space, 0x20010).unwrap();
    assert!(widened.write && widened.execute && widened.commit);

    guard.release(&mut space);
    let restored = MemoryUtils::get_page_state(&space, 0x20010).unwrap();
    assert_eq!(restored, ro());
}

#[test]
fn test_guard_keeps_commit_bit() {
    let uncommitted = PageState { read: true, write: false, execute: false, commit: false };
    let mut space = MemorySpace::new(0, 0);
    assert!(space.add_region(0x20000, uncommitted, vec![0u8; 0x100]));
    let guard = VirtualProtectGuard::try_new(&mut space, 0x20000, 8, erw()).unwrap();
    let st = MemoryUtils::get_page_state(&space, 0x20000).unwrap();
    assert!(st.write && !st.commit);
    guard.release(&mut space);
    let st = MemoryUtils::get_page_state(&space, 0x20000).unwrap();
    assert_eq!(st, uncommitted);
}

#[test]
fn test_guard_fails_outside_one_region() {
    let mut space = MemorySpace::new(0, 0);
    assert!(space.add_region(0x20000, ro(), vec![0u8; 0x10]));
    // the range runs past the region's end
    let past_end = VirtualProtectGuard::try_new(&mut space, 0x20008, 0x10, erw());
    assert!(matches!(past_end, Err(MemoryError::ProtectionChangeFailed)));
    // and an unmapped address fails outright
    let unmapped = VirtualProtectGuard::try_new(&mut space, 0x90000, 0x10, erw());
    assert!(matches!(unmapped, Err(MemoryError::ProtectionChangeFailed)));
    // nothing changed
    let st = MemoryUtils::get_page_state(&space, 0x20008).unwrap();
    assert_eq!(st, ro());
}
