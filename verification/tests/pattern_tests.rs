use eglib::pattern::{parse_pattern, scan_all_matches, scan_first_match, PatternError};

#[test]
fn test_parse_and_scan_exact_bytes() {
    let pat = parse_pattern("4D 5A").unwrap();
    let buf: Vec<u8> = vec![0x00, 0x4D, 0x5A, 0x4D, 0x4D, 0x5A];
    assert_eq!(scan_first_match(&buf, &pat), Some(1));
    assert_eq!(scan_all_matches(&buf, &pat), vec![1, 4]);
}

#[test]
fn test_parse_accepts_mixed_case_and_whitespace() {
    let pat = parse_pattern("  ff\t0a \n Ab ").unwrap();
    let buf: Vec<u8> = vec![0xFF, 0x0A, 0xAB];
    assert_eq!(scan_first_match(&buf, &pat), Some(0));
}

#[test]
fn test_parse_error_bad_hex() {
    assert!(matches!(parse_pattern("GG"), Err(PatternError::InvalidToken)));
    assert!(matches!(parse_pattern("4"), Err(PatternError::InvalidToken)));
    assert!(matches!(parse_pattern("4D5A"), Err(PatternError::InvalidToken)));
    assert!(matches!(parse_pattern("4D 5"), Err(PatternError::InvalidToken)));
    assert!(matches!(parse_pattern("?"), Err(PatternError::InvalidToken)));
    assert!(matches!(parse_pattern("???"), Err(PatternError::InvalidToken)));
}

#[test]
fn test_wildcard_matches_any_byte() {
    let pat = parse_pattern("AA ?? CC").unwrap();
    let buf: Vec<u8> = vec![0xAA, 0x00, 0xCC, 0xAA, 0xFF, 0xCC, 0xAA, 0xFF, 0xCD];
    assert_eq!(scan_all_matches(&buf, &pat), vec![0, 3]);
    assert_eq!(scan_first_match(&buf, &pat), Some(0));
}

#[test]
fn test_scan_all_ascending_with_overlap() {
    // matches may overlap; offsets come in strictly increasing order
    let pat = parse_pattern("AA AA").unwrap();
    let buf: Vec<u8> = vec![0xAA, 0xAA, 0xAA, 0x00, 0xAA, 0xAA];
    assert_eq!(scan_all_matches(&buf, &pat), vec![0, 1, 4]);
}

#[test]
fn test_scan_not_found_and_buffer_too_short() {
    let pat = parse_pattern("4D 5A 90").unwrap();
    let long: Vec<u8> = vec![0u8; 16];
    assert_eq!(scan_first_match(&long, &pat), None);
    assert!(scan_all_matches(&long, &pat).is_empty());
    // a buffer shorter than the pattern also yields the empty outcome
    let short: Vec<u8> = vec![0x4D, 0x5A];
    assert_eq!(scan_first_match(&short, &pat), None);
    assert!(scan_all_matches(&short, &pat).is_empty());
}

#[test]
fn test_signature_in_large_buffer() {
    // a 64KB buffer holding the signature bytes at offset 100 and nowhere else
    let mut buf: Vec<u8> = vec![0u8; 64 * 1024];
    let sig = [0x4Du8, 0x5A, 0x10, 0x20, 0x00];
    buf[100..105].copy_from_slice(&sig);
    let pat = parse_pattern("4D 5A ?? ?? 00").unwrap();
    assert_eq!(scan_first_match(&buf, &pat), Some(100));
    assert_eq!(scan_all_matches(&buf, &pat), vec![100]);
}
