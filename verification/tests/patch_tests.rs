use eglib::error::MemoryError;
use eglib::memory_module::MemoryModule;
use eglib::memory_util::MemoryUtils;
use eglib::page::PageState;
use eglib::space::MemorySpace;

fn rwx() -> PageState {
    PageState { read: true, write: true, execute: true, commit: true }
}

fn make_space(base: usize, bytes: Vec<u8>, state: PageState) -> MemorySpace {
    let mut space = MemorySpace::new(0, 0);
    assert!(space.add_region(base, state, bytes));
    space
}

#[test]
fn test_patch_round_trip_restores_bytes() {
    let original: Vec<u8> = (0u8..32).collect();
    let mut space = make_space(0x20000, original.clone(), rwx());
    let mut module = MemoryModule::new();

    let pre_capture = MemoryUtils::read(&space, 0x20000, 32, true).unwrap();
    module.new_patch(&mut space, 0x20008, &[0xEB, 0xFE, 0x90]).unwrap();
    let patched = MemoryUtils::read(&space, 0x20000, 32, true).unwrap();
    assert_eq!(&patched[8..11], &[0xEB, 0xFE, 0x90]);
    assert_eq!(&patched[..8], &pre_capture[..8]);

    assert_eq!(module.restore_patch(&mut space, 0x20008), Ok(true));
    let after = MemoryUtils::read(&space, 0x20000, 32, true).unwrap();
    assert_eq!(after, pre_capture);
}

#[test]
fn test_patch_backup_holds_original_bytes() {
    let mut space = make_space(0x20000, vec![0xAA, 0xBB, 0xCC, 0xDD], rwx());
    let backup = MemoryUtils::patch(&mut space, 0x20001, &[0x01, 0x02]).unwrap();
    assert_eq!(backup, vec![0xBB, 0xCC]);
    assert_eq!(
        MemoryUtils::read(&space, 0x20000, 4, true).unwrap(),
        vec![0xAA, 0x01, 0x02, 0xDD]
    );
}

#[test]
fn test_patch_overlap_rejected() {
    let mut space = make_space(0x20000, vec![0u8; 64], rwx());
    let mut module = MemoryModule::new();
    module.new_patch(&mut space, 0x20010, &[1u8; 16]).unwrap();

    // subset, superset and partial overlaps are all refused
    let subset = module.new_patch(&mut space, 0x20012, &[2u8; 4]);
    assert_eq!(subset, Err(MemoryError::PatchAlreadyExists(0x20012)));
    let superset = module.new_patch(&mut space, 0x2000E, &[3u8; 24]);
    assert_eq!(superset, Err(MemoryError::PatchAlreadyExists(0x2000E)));
    let partial = module.new_patch(&mut space, 0x20018, &[4u8; 16]);
    assert_eq!(partial, Err(MemoryError::PatchAlreadyExists(0x20018)));
    // a refused patch changes nothing
    assert_eq!(
        MemoryUtils::read(&space, 0x20010, 16, true).unwrap(),
        vec![1u8; 16]
    );
}

#[test]
fn test_patch_adjacent_accepted() {
    let mut space = make_space(0x20000, vec![0u8; 64], rwx());
    let mut module = MemoryModule::new();
    assert_eq!(module.new_patch(&mut space, 0x20010, &[1u8; 16]), Ok(()));
    // sharing an endpoint is not an overlap: both neighbours succeed
    assert_eq!(module.new_patch(&mut space, 0x20020, &[2u8; 8]), Ok(()));
    assert_eq!(module.new_patch(&mut space, 0x20008, &[3u8; 8]), Ok(()));
}

#[test]
fn test_patch_reserved_address_rejected() {
    let mut space = make_space(0x20000, vec![0u8; 16], rwx());
    let mut module = MemoryModule::new();
    // the reserved-range filter runs before any page query
    assert_eq!(
        module.new_patch(&mut space, 0x500, &[1, 2]),
        Err(MemoryError::PagePermNoWrite(0x500))
    );
    assert_eq!(
        module.new_patch_nop(&mut space, 0x10000, 2),
        Err(MemoryError::PagePermNoWrite(0x10000))
    );
    assert_eq!(module.patches.len(), 0);
}

#[test]
fn test_patch_not_committed_page() {
    let reserved = PageState { read: true, write: true, execute: true, commit: false };
    let mut space = make_space(0x20000, vec![0u8; 16], reserved);
    let mut module = MemoryModule::new();
    assert_eq!(
        module.new_patch(&mut space, 0x20000, &[1]),
        Err(MemoryError::PageNotCommit(0x20000))
    );
}

#[test]
fn test_patch_crossing_region_end_fails() {
    let mut space = make_space(0x20000, vec![0u8; 16], rwx());
    assert_eq!(
        MemoryUtils::patch(&mut space, 0x2000C, &[0u8; 8]),
        Err(MemoryError::ProtectionChangeFailed)
    );
}

#[test]
fn test_patch_restores_page_protection() {
    let ro = PageState { read: true, write: false, execute: false, commit: true };
    let mut space = make_space(0x20000, vec![0u8; 16], ro);
    // the guard widens protection for the copy and restores it afterwards
    MemoryUtils::patch(&mut space, 0x20004, &[9, 9]).unwrap();
    let st = MemoryUtils::get_page_state(&space, 0x20004).unwrap();
    assert_eq!(st, ro);
    assert_eq!(
        MemoryUtils::read(&space, 0x20004, 2, true).unwrap(),
        vec![9, 9]
    );
}

#[test]
fn test_patch_repeat_fills() {
    let mut space = make_space(0x20000, (0u8..8).collect(), rwx());
    let backup = MemoryUtils::patch_repeat(&mut space, 0x20002, 0x90, 4).unwrap();
    assert_eq!(backup, vec![2, 3, 4, 5]);
    assert_eq!(
        MemoryUtils::read(&space, 0x20000, 8, true).unwrap(),
        vec![0, 1, 0x90, 0x90, 0x90, 0x90, 6, 7]
    );
}

#[test]
fn test_patch_nop_records_and_restores() {
    let mut space = make_space(0x20000, (0u8..8).collect(), rwx());
    let mut module = MemoryModule::new();
    module.new_patch_nop(&mut space, 0x20001, 3).unwrap();
    assert_eq!(
        MemoryUtils::read(&space, 0x20000, 8, true).unwrap(),
        vec![0, 0x90, 0x90, 0x90, 4, 5, 6, 7]
    );
    assert_eq!(module.restore_patch(&mut space, 0x20001), Ok(true));
    assert_eq!(
        MemoryUtils::read(&space, 0x20000, 8, true).unwrap(),
        (0u8..8).collect::<Vec<u8>>()
    );
}

#[test]
fn test_restore_patch_unknown_address() {
    let mut space = make_space(0x20000, vec![0u8; 16], rwx());
    let mut module = MemoryModule::new();
    assert_eq!(module.restore_patch(&mut space, 0x20000), Ok(false));
    // reverting at an address other than the apply-address is a no-op
    module.new_patch(&mut space, 0x20004, &[1, 2]).unwrap();
    assert_eq!(module.restore_patch(&mut space, 0x20005), Ok(false));
    assert_eq!(
        MemoryUtils::read(&space, 0x20004, 2, true).unwrap(),
        vec![1, 2]
    );
}

#[test]
fn test_restore_all_reverts_everything() {
    let original: Vec<u8> = (0u8..32).collect();
    let mut space = make_space(0x20000, original.clone(), rwx());
    let mut module = MemoryModule::new();
    module.new_patch(&mut space, 0x20000, &[0xFF; 4]).unwrap();
    module.new_patch(&mut space, 0x20010, &[0xEE; 4]).unwrap();
    module.new_patch_nop(&mut space, 0x20008, 2).unwrap();
    module.restore_all(&mut space);
    assert_eq!(
        MemoryUtils::read(&space, 0x20000, 32, true).unwrap(),
        original
    );
    assert_eq!(module.patches.len(), 0);
}
