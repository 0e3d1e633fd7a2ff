use perspecta::meta_repair::{
    build_group_length_element, detect_dicom_prefix_offset, repair_missing_meta_group_length,
    scan_meta_group_len_without_group_length,
};

#[test]
fn repair_inserts_group_length_when_missing() {
    let mut bytes = vec![0u8; 128];
    bytes.extend_from_slice(b"DICM");

    // (0002,0002) UI, length 4, value "ABCD"
    bytes.extend_from_slice(&[
        0x02, 0x00, 0x02, 0x00, b'U', b'I', 0x04, 0x00, b'A', b'B', b'C', b'D',
    ]);
    // (0002,0010) UI, length 20, value "TRANSFER-SYNTAX-TEST"
    bytes.extend_from_slice(&[
        0x02, 0x00, 0x10, 0x00, b'U', b'I', 0x14, 0x00, b'T', b'R', b'A', b'N', b'S', b'F',
        b'E', b'R', b'-', b'S', b'Y', b'N', b'T', b'A', b'X', b'-', b'T', b'E', b'S', b'T',
    ]);
    // First data set element (group != 0002) to mark end of meta
    bytes.extend_from_slice(&[0x08, 0x00, 0x16, 0x00, b'U', b'I', 0x02, 0x00, b'1', 0x00]);

    let repaired = repair_missing_meta_group_length(&bytes).expect("expected repaired bytes");

    // Expect insertion right after DICM at offset 132.
    let offset = 132;
    assert_eq!(&repaired[offset..offset + 4], &[0x02, 0x00, 0x00, 0x00]);
    assert_eq!(&repaired[offset + 4..offset + 6], b"UL");
    assert_eq!(&repaired[offset + 6..offset + 8], &[0x04, 0x00]);

    // Group length should match the size of the unrepaired meta content (40 bytes).
    assert_eq!(&repaired[offset + 8..offset + 12], &40u32.to_le_bytes());
    assert_eq!(repaired.len(), bytes.len() + 12);
}

#[test]
fn repair_is_noop_when_group_length_already_exists() {
    let mut bytes = vec![0u8; 128];
    bytes.extend_from_slice(b"DICM");
    bytes.extend_from_slice(&[
        0x02, 0x00, 0x00, 0x00, b'U', b'L', 0x04, 0x00, 0x08, 0x00, 0x00, 0x00, 0x08, 0x00,
        0x16, 0x00, b'U', b'I', 0x02, 0x00, b'1', 0x00,
    ]);

    assert!(repair_missing_meta_group_length(&bytes).is_none());
}

#[test]
fn repair_keeps_the_rest_of_the_file() {
    let mut bytes = b"DICM".to_vec();
    bytes.extend_from_slice(&[0x02, 0x00, 0x01, 0x00, b'O', b'B', 0x00, 0x00, 0x02, 0x00, 0x00, 0x00, 0x00, 0x01]);
    bytes.extend_from_slice(&[0x08, 0x00, 0x16, 0x00, b'U', b'I', 0x00, 0x00]);
    let repaired = repair_missing_meta_group_length(&bytes).unwrap();
    assert_eq!(&repaired[..4], b"DICM");
    assert_eq!(&repaired[4..16], &build_group_length_element(14));
    assert_eq!(&repaired[16..], &bytes[4..]);
}

#[test]
fn repair_refuses_truncated_group() {
    let mut bytes = b"DICM".to_vec();
    bytes.extend_from_slice(&[0x02, 0x00, 0x02, 0x00, b'U', b'I', 0x40, 0x00, b'A']);
    assert!(repair_missing_meta_group_length(&bytes).is_none());
    assert!(repair_missing_meta_group_length(b"not dicom").is_none());
}

#[test]
fn prefix_offsets() {
    let mut with_preamble = vec![0u8; 128];
    with_preamble.extend_from_slice(b"DICM");
    assert_eq!(detect_dicom_prefix_offset(&with_preamble), Some(132));
    assert_eq!(detect_dicom_prefix_offset(b"DICMxyz"), Some(4));
    assert_eq!(detect_dicom_prefix_offset(b"DIC"), None);
}

#[test]
fn scan_measures_group_two_run() {
    let bytes = [0x02, 0x00, 0x02, 0x00, b'U', b'I', 0x02, 0x00, b'1', 0x00, 0x08, 0x00, 0x00, 0x00, 0x00, 0x00, 0x00, 0x00];
    assert_eq!(scan_meta_group_len_without_group_length(&bytes, 0), Some(10));
    assert_eq!(scan_meta_group_len_without_group_length(&bytes, 10), None);
}

#[test]
fn group_length_element_layout() {
    assert_eq!(
        build_group_length_element(0x0102_0304),
        [0x02, 0x00, 0x00, 0x00, b'U', b'L', 0x04, 0x00, 0x04, 0x03, 0x02, 0x01]
    );
}

#[test]
fn repair_refuses_truncated_header_and_unterminated_run() {
    let element = [0x02, 0x00, 0x02, 0x00, b'U', b'I', 0x02, 0x00, b'1', 0x00];
    let mut truncated = b"DICM".to_vec();
    truncated.extend_from_slice(&element);
    truncated.extend_from_slice(&[0x02, 0x00, 0x01, 0x00]);
    assert!(repair_missing_meta_group_length(&truncated).is_none());
    let mut unterminated = b"DICM".to_vec();
    unterminated.extend_from_slice(&element);
    assert!(repair_missing_meta_group_length(&unterminated).is_none());
    let mut terminated = unterminated.clone();
    terminated.extend_from_slice(&[0x08, 0x00, 0x16, 0x00, b'U', b'I', 0x00, 0x00]);
    assert!(repair_missing_meta_group_length(&terminated).is_some());
}
