use eglib::error::MemoryError;
use eglib::luaptr::LuaPtr;
use eglib::memory_module::{MemoryModule, PatternScanOptions};
use eglib::memory_util::MemoryUtils;
use eglib::page::PageState;
use eglib::pattern::PatternError;
use eglib::space::MemorySpace;

fn rw() -> PageState {
    PageState { read: true, write: true, execute: false, commit: true }
}

fn module_space(base: usize, image: Vec<u8>) -> MemorySpace {
    let size = image.len();
    let mut space = MemorySpace::new(base, size);
    assert!(space.add_region(base, rw(), image));
    space
}

#[test]
fn test_scan_first_and_all_over_memory() {
    let mut image = vec![0u8; 0x1000];
    image[0x100] = 0x4D;
    image[0x101] = 0x5A;
    image[0x200] = 0x4D;
    image[0x201] = 0x5A;
    let space = module_space(0x20000, image);
    assert_eq!(
        MemoryUtils::scan_first(&space, 0x20000, 0x1000, "4D 5A"),
        Ok(0x20100)
    );
    assert_eq!(
        MemoryUtils::scan_all(&space, 0x20000, 0x1000, "4D 5A"),
        Ok(vec![0x20100, 0x20200])
    );
}

#[test]
fn test_scan_not_found_vs_parse_error() {
    let space = module_space(0x20000, vec![0u8; 0x100]);
    match MemoryUtils::scan_first(&space, 0x20000, 0x100, "4D 5A") {
        Err(MemoryError::NotFound(p)) => assert_eq!(p, "4D 5A"),
        other => panic!("expected NotFound, got {:?}", other),
    }
    assert_eq!(
        MemoryUtils::scan_first(&space, 0x20000, 0x100, "XX YY"),
        Err(MemoryError::PatternScan(PatternError::InvalidToken))
    );
}

#[test]
fn test_auto_scan_uses_module_locator() {
    let mut image = vec![0u8; 0x400];
    image[0x42] = 0xCA;
    image[0x43] = 0xFE;
    let space = module_space(0x30000, image);
    assert_eq!(MemoryUtils::auto_scan_first(&space, "CA FE"), Ok(0x30042));
    assert_eq!(
        MemoryUtils::auto_scan_all(&space, "CA FE"),
        Ok(vec![0x30042])
    );
}

#[test]
fn test_auto_scan_without_module_is_not_found() {
    // (0, 0) from the locator: an empty scan range, so nothing is found
    let space = MemorySpace::new(0, 0);
    match MemoryUtils::auto_scan_first(&space, "4D 5A") {
        Err(MemoryError::NotFound(_)) => {},
        other => panic!("expected NotFound, got {:?}", other),
    }
}

#[test]
fn test_cached_scan_serves_from_cache() {
    let mut image = vec![0u8; 0x200];
    image[0x80] = 0x4D;
    image[0x81] = 0x5A;
    let mut space = module_space(0x20000, image);
    let mut module = MemoryModule::new();
    module.update_module_info(&space).unwrap();

    assert_eq!(
        module.pattern_scan_first_cached(&space, "4D 5A"),
        Ok(0x20080)
    );
    // wipe the signature: a fresh scan would fail, the cache still answers
    MemoryUtils::write(&mut space, 0x20080, &[0, 0], true).unwrap();
    assert_eq!(
        module.pattern_scan_first_cached(&space, "4D 5A"),
        Ok(0x20080)
    );
}

#[test]
fn test_cached_scan_miss_propagates_not_found() {
    let space = module_space(0x20000, vec![0u8; 0x100]);
    let mut module = MemoryModule::new();
    module.update_module_info(&space).unwrap();
    match module.pattern_scan_first_cached(&space, "4D 5A") {
        Err(MemoryError::NotFound(_)) => {},
        other => panic!("expected NotFound, got {:?}", other),
    }
    assert_eq!(module.scan_cache.len(), 0);
}

#[test]
fn test_pattern_scan_advanced_defaults_to_module() {
    let mut image = vec![0u8; 0x300];
    image[0x10] = 0xAB;
    image[0x20] = 0xAB;
    let space = module_space(0x40000, image);
    let mut module = MemoryModule::new();
    // module information starts at zero and is refreshed from the locator
    let options = PatternScanOptions {
        pattern: String::from("AB"),
        offset: None,
        start: None,
        length: None,
        all_matches: true,
    };
    assert_eq!(
        module.pattern_scan_advanced(&space, &options),
        Ok(vec![0x40010, 0x40020])
    );
    assert_eq!(module.module_base, 0x40000);
    assert_eq!(module.module_size, 0x300);
}

#[test]
fn test_pattern_scan_advanced_explicit_range_first_only() {
    let mut image = vec![0u8; 0x300];
    image[0x10] = 0xAB;
    image[0x120] = 0xAB;
    let space = module_space(0x40000, image);
    let mut module = MemoryModule::new();
    let options = PatternScanOptions {
        pattern: String::from("AB"),
        offset: None,
        start: Some(LuaPtr::new(0x40100)),
        length: Some(0x100),
        all_matches: false,
    };
    assert_eq!(
        module.pattern_scan_advanced(&space, &options),
        Ok(vec![0x40120])
    );
}

#[test]
fn test_scan_relative_static_computes_absolute() {
    // an instruction at 0x20050 references a static through a relative
    // displacement stored 3 bytes into the instruction
    let mut image = vec![0u8; 0x200];
    image[0x50] = 0x48;
    image[0x51] = 0x8B;
    image[0x52] = 0x05;
    // displacement field at 0x20053: -0x20 little-endian
    let rel: i32 = -0x20;
    image[0x53..0x57].copy_from_slice(&rel.to_le_bytes());
    let space = module_space(0x20000, image);
    // site = match + 3 = 0x20053; absolute = site + 4 + (-0x20) = 0x20037
    assert_eq!(
        MemoryUtils::scan_relative_static(&space, "48 8B 05", 3),
        Ok(0x20037)
    );
}

#[test]
fn test_luaptr_values() {
    let p = LuaPtr::new(0x1234_5678_9ABC_DEF0);
    assert_eq!(p.to_u64(), 0x1234_5678_9ABC_DEF0);
    assert_eq!(p.to_usize(), 0x1234_5678_9ABC_DEF0usize);
    assert_eq!(p, LuaPtr::new(0x1234_5678_9ABC_DEF0));
    assert_ne!(p, LuaPtr::new(1));
}
