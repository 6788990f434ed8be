use assfonts::cff_fix::{
    fix_cff_font,
    find_charstring_end, find_charstrings_offset, is_cff_charstring_error, rebuild_charstrings_index_at,
    skip_index,
};


#[test]
fn test_skip_index() {
    // Valid INDEX with 2 items, offSize=1, data "abc", "de"
    let data = [
        0x00, 0x02, // count = 2
        0x01, // offSize = 1
        0x01, 0x04, 0x06, // offsets: 1, 4, 6
        b'a', b'b', b'c', // item 1
        b'd', b'e', // item 2
    ];
    assert_eq!(skip_index(&data, 0), Some(11));
}

#[test]
fn test_skip_index2() {
    // Valid INDEX with 2 items, offSize=1, data "abc", "de"
    let data = [
        0x00, 0x02, // count = 2
        0x02, // offSize = 2
        0x00, 0x01, 0x00, 0x04, 0x00, 0x06, // offsets: 1, 4, 6
        b'a', b'b', b'c', // item 1
        b'd', b'e', // item 2
    ];
    assert_eq!(skip_index(&data, 0), Some(14));
}

#[test]
fn test_skip_index_empty() {
    // Empty INDEX
    let data = [0x00, 0x00]; // count = 0
    assert_eq!(skip_index(&data, 0), Some(2));
}

#[test]
fn test_find_charstring_end_simple() {
    // Simple charstring: just endchar
    let data = [14]; // endchar
    assert_eq!(find_charstring_end(&data), Some(1));
}

#[test]
fn test_find_charstring_end_with_number() {
    // Number (139) + endchar
    let data = [139, 14]; // 0, endchar
    assert_eq!(find_charstring_end(&data), Some(2));
}

#[test]
fn test_find_charstring_end_no_endchar() {
    // No endchar
    let data = [139, 140]; // 0, 1
    assert_eq!(find_charstring_end(&data), None);
}

#[test]
fn test_is_cff_charstring_error() {
    assert!(is_cff_charstring_error("CFF error"));
    assert!(is_cff_charstring_error(
        "unused data left after 'endchar' operator"
    ));
    assert!(!is_cff_charstring_error("some other error"));
}

#[test]
fn test_find_charstrings_offset_invalid_bounds() {
    let data = [0x00, 0x01, 0x02];
    // dict_start >= dict_end
    assert_eq!(find_charstrings_offset(&data, 2, 1), None);
    // dict_end > data.len()
    assert_eq!(find_charstrings_offset(&data, 0, 100), None);
}

#[test]
fn test_find_charstrings_offset_single_byte_operand() {
    // Single-byte number (32-246): value = b0 - 139
    // 139 -> value = 0, operator 17 (CharStrings)
    let data = [139, 17];
    assert_eq!(find_charstrings_offset(&data, 0, 2), Some(0));
}

#[test]
fn test_find_charstrings_offset_single_byte_positive() {
    // 246 -> value = 246 - 139 = 107
    let data = [246, 17];
    assert_eq!(find_charstrings_offset(&data, 0, 2), Some(107));
}

#[test]
fn test_find_charstrings_offset_single_byte_negative() {
    // 32 -> value = 32 - 139 = -107
    let data = [32, 17];
    assert_eq!(
        find_charstrings_offset(&data, 0, 2),
        Some((-107i32) as usize)
    );
}

#[test]
fn test_find_charstrings_offset_two_byte_positive() {
    // Two-byte positive (247-250): value = (b0-247)*256 + b1 + 108
    // 247, 0 -> value = 0*256 + 0 + 108 = 108
    let data = [247, 0, 17];
    assert_eq!(find_charstrings_offset(&data, 0, 3), Some(108));
}

#[test]
fn test_find_charstrings_offset_two_byte_negative() {
    // Two-byte negative (251-254): value = -(b0-251)*256 - b1 - 108
    // 251, 0 -> value = -0*256 - 0 - 108 = -108
    let data = [251, 0, 17];
    assert_eq!(
        find_charstrings_offset(&data, 0, 3),
        Some((-108i32) as usize)
    );
}

#[test]
fn test_find_charstrings_offset_three_byte() {
    // Three-byte (28): i16 big-endian
    // 28, 0x01, 0x00 -> 256
    let data = [28, 0x01, 0x00, 17];
    assert_eq!(find_charstrings_offset(&data, 0, 4), Some(256));
}

#[test]
fn test_find_charstrings_offset_three_byte_negative() {
    // 28, 0xFF, 0x00 -> -256
    let data = [28, 0xFF, 0x00, 17];
    assert_eq!(
        find_charstrings_offset(&data, 0, 4),
        Some((-256i32) as usize)
    );
}

#[test]
fn test_find_charstrings_offset_five_byte() {
    // Five-byte (29): i32 big-endian
    // 29, 0x00, 0x01, 0x00, 0x00 -> 65536
    let data = [29, 0x00, 0x01, 0x00, 0x00, 17];
    assert_eq!(find_charstrings_offset(&data, 0, 6), Some(65536));
}

#[test]
fn test_find_charstrings_offset_five_byte_negative() {
    // 29, 0xFF, 0xFF, 0xFF, 0xFF -> -1
    let data = [29, 0xFF, 0xFF, 0xFF, 0xFF, 17];
    // -1 as usize will wrap around
    assert_eq!(find_charstrings_offset(&data, 0, 6), Some((-1i32) as usize));
}

#[test]
fn test_find_charstrings_offset_no_operator_17() {
    // DICT without CharStrings operator
    let data = [139, 0]; // value 0, operator 0 (version)
    assert_eq!(find_charstrings_offset(&data, 0, 2), None);
}

#[test]
fn test_find_charstrings_offset_multiple_operands() {
    // Multiple operands, only the last one before operator 17 is used
    // 139 -> 0, 140 -> 1, 246 -> 107, then operator 17
    let data = [139, 0, 140, 1, 246, 17];
    assert_eq!(find_charstrings_offset(&data, 0, 6), Some(107));
}

#[test]
fn test_find_charstrings_offset_with_other_operators() {
    // DICT with other operators before CharStrings
    // operator 0 (version), operator 1 (Notice), then CharStrings
    let data = [
        139, 0, // version: 0
        139, 1, // Notice: 0
        139, 17, // CharStrings: 0
    ];
    assert_eq!(find_charstrings_offset(&data, 0, 6), Some(0));
}

#[test]
fn test_find_charstrings_offset_two_byte_operator_long() {
    // Longer DICT with multiple two-byte operators and operands
    // Simulates a real CFF DICT with version, Notice, Copyright, Family, etc.
    //
    // DICT structure:
    //   operator 0 (version):     139 -> 0
    //   operator 1 (Notice):      140 -> 1
    //   operator 12 0 (Copyright): operands cleared, skip
    //   operator 2 (FullName):    141 -> 2
    //   operator 3 (FamilyName):  142 -> 3
    //   operator 12 1 (Weight):   operands cleared, skip
    //   operator 4 (FontBBox):    four operands 143,144,145,146 -> 4,5,6,7
    //   operator 12 5 (CharStrings): 247 100 -> (247-247)*256 + 100 + 108 = 208
    let data = [
        139, 0, // version: 0
        140, 1, // Notice: 1
        12, 0, // Copyright (two-byte op 12 0), clears operands
        141, 2, // FullName: 2
        142, 3, // FamilyName: 3
        12, 1, // Weight (two-byte op 12 1), clears operands
        143, 4, 144, 5, 145, 6, 146, 4, // FontBBox: 4 values
        247, 100, 17, // CharStrings offset: 208
    ];
    assert_eq!(find_charstrings_offset(&data, 0, data.len()), Some(208));
}

#[test]
fn test_find_charstrings_offset_two_byte_operator_mixed() {
    // Mix of single-byte and two-byte operators with various number encodings
    //
    // DICT structure:
    //   operator 0:     139 -> 0
    //   operator 12 30: operands cleared (UnderlinePosition)
    //   operator 12 31: operands cleared (UnderlineThickness)
    //   operator 15:    28, 0x00, 0x64 -> 100 (Charset)
    //   operator 17:    28, 0x01, 0x2C -> 300 (CharStrings)
    let data = [
        139, 0, // version: 0
        12, 30, // UnderlinePosition (two-byte op)
        12, 31, // UnderlineThickness (two-byte op)
        28, 0x00, 0x64, 15, // Charset: 100
        28, 0x01, 0x2C, 17, // CharStrings: 300
    ];
    assert_eq!(find_charstrings_offset(&data, 0, data.len()), Some(300));
}

#[test]
fn test_find_charstrings_offset_two_byte_operator_charstrings_not_found() {
    // Two-byte operators present but no operator 17 (CharStrings)
    // Should return None
    let data = [
        139, 0, // version: 0
        12, 0, // Copyright
        140, 1, // Notice: 1
        12, 1, // Weight
        141, 2, // FullName: 2
        12, 5, // CharStrings operator using two-byte form (12 5)
    ];
    // 12 5 is NOT operator 17, it's two-byte operator 5
    assert_eq!(find_charstrings_offset(&data, 0, data.len()), None);
}

#[test]
fn test_find_charstrings_offset_with_bcd() {
    // BCD real number (30): nibbles until 0xf terminator
    // 30, 0x1f -> nibbles 1, f (terminator), then operator 17
    let data = [30, 0x1f, 17];
    assert_eq!(find_charstrings_offset(&data, 0, 3), None);
}

#[test]
fn test_find_charstrings_offset_with_start_offset() {
    // Test with non-zero dict_start
    let data = [0x00, 0x00, 139, 17];
    assert_eq!(find_charstrings_offset(&data, 2, 4), Some(0));
}

#[test]
fn test_find_charstrings_offset_truncated_two_byte_positive() {
    // Truncated two-byte positive number
    let data = [247]; // missing second byte
    assert_eq!(find_charstrings_offset(&data, 0, 1), None);
}

#[test]
fn test_find_charstrings_offset_truncated_two_byte_negative() {
    // Truncated two-byte negative number
    let data = [251]; // missing second byte
    assert_eq!(find_charstrings_offset(&data, 0, 1), None);
}

#[test]
fn test_find_charstrings_offset_truncated_three_byte() {
    // Truncated three-byte number
    let data = [28, 0x01]; // missing third byte
    assert_eq!(find_charstrings_offset(&data, 0, 2), None);
}

#[test]
fn test_find_charstrings_offset_truncated_five_byte() {
    // Truncated five-byte number
    let data = [29, 0x00, 0x01, 0x00]; // missing fifth byte
    assert_eq!(find_charstrings_offset(&data, 0, 4), None);
}

#[test]
fn test_find_charstrings_offset_truncated_two_byte_operator() {
    // Truncated two-byte operator
    let data = [12]; // missing second byte
    assert_eq!(find_charstrings_offset(&data, 0, 1), None);
}

#[test]
fn test_rebuild_charstrings_index_no_truncation() {
    // CharStrings INDEX with 2 charstrings, no trailing data
    // CharString 1: 14 (endchar)
    // CharString 2: 139, 14 (0, endchar)
    let data = vec![
        0x00, 0x02, // count = 2
        0x01, // offSize = 1
        0x01, 0x02, 0x04, // offsets: 1, 2, 4
        14,   // charstring 1: endchar
        139, 14, // charstring 2: 0, endchar
    ];
    let mut data_clone = data.clone();
    // No truncation needed, should return false
    assert!(!rebuild_charstrings_index_at(&mut data_clone, 0, 0));
    // Data should remain unchanged
    assert_eq!(data_clone, data);
}

#[test]
fn test_rebuild_charstrings_index_with_truncation() {
    // CharStrings INDEX with 1 charstring that has trailing data
    // CharString: 14, 139, 140 (endchar, trailing garbage)
    let mut data = vec![
        0x00, 0x01, // count = 1
        0x01, // offSize = 1
        0x01, 0x04, // offsets: 1, 4
        14,   // endchar
        139, 140, // trailing garbage
    ];
    assert!(rebuild_charstrings_index_at(&mut data, 0, 0));
    // Should be truncated: count=1, offSize=1, offsets 1,2, data=[14]
    assert_eq!(
        data[..5],
        [0x00, 0x01, 0x01, 0x01, 0x02] // count, offSize, offset[0], offset[1]
    );
    assert_eq!(data[5], 14); // endchar
}

#[test]
fn test_rebuild_charstrings_index_multiple_truncation() {
    // CharStrings INDEX with 3 charstrings, all with trailing data
    let mut data = vec![
        0x00, 0x03, // count = 3
        0x01, // offSize = 1
        0x01, 0x03, 0x06, 0x0A, // offsets: 1, 3, 6, 10
        14, 139, // charstring 1: endchar + garbage
        14, 139, 140, // charstring 2: endchar + garbage
        14, 139, 140, 141, // charstring 3: endchar + garbage
    ];
    assert!(rebuild_charstrings_index_at(&mut data, 0, 0));
    // All 3 should be truncated to just endchar (14)
    // New offsets: 1, 2, 3, 4
    assert_eq!(data[..7], [0x00, 0x03, 0x01, 0x01, 0x02, 0x03, 0x04]);
    assert_eq!(data[7..10], [14, 14, 14]); // 3 endchars
}

#[test]
fn test_rebuild_charstrings_index_with_offset() {
    // Data with header before CharStrings INDEX
    let mut data = vec![
        0xAB, 0xCD, // fake header
        0x00, 0x01, // count = 1
        0x01, // offSize = 1
        0x01, 0x04, // offsets: 1, 4
        14,   // endchar
        139, 140, // trailing garbage
    ];
    // cff_offset = 0, charstrings_offset = 2 (skip fake header)
    assert!(rebuild_charstrings_index_at(&mut data, 0, 2));
    // Header should remain
    assert_eq!(data[..2], [0xAB, 0xCD]);
}

#[test]
fn test_rebuild_charstrings_index_empty_count() {
    // Invalid: count = 0
    let mut data = vec![
        0x00, 0x00, // count = 0
    ];
    assert!(!rebuild_charstrings_index_at(&mut data, 0, 0));
}

#[test]
fn test_rebuild_charstrings_index_invalid_offsize() {
    // Invalid: offSize = 0
    let mut data = vec![
        0x00, 0x01, // count = 1
        0x00, // offSize = 0 (invalid)
        0x01, 0x02, 14,
    ];
    assert!(!rebuild_charstrings_index_at(&mut data, 0, 0));
}

#[test]
fn test_rebuild_charstrings_index_truncated_header() {
    // Data too short for header
    let mut data = vec![0x00, 0x01]; // missing offSize
    assert!(!rebuild_charstrings_index_at(&mut data, 0, 0));
}

#[test]
fn test_rebuild_charstrings_index_offsize_2() {
    // CharStrings INDEX with offSize = 2
    let mut data = vec![
        0x00, 0x02, // count = 2
        0x02, // offSize = 2
        0x00, 0x01, 0x00, 0x02, 0x00, 0x05, // offsets: 1, 2, 5
        14,   // charstring 1: endchar
        14, 139, 140, // charstring 2: endchar + garbage
    ];
    assert!(rebuild_charstrings_index_at(&mut data, 0, 0));
    // Charstring 1: unchanged (just endchar)
    // Charstring 2: truncated to 1 byte
    // New data: count=2, offSize=1 (smaller), offsets 1,2,3
    assert_eq!(data[..6], [0x00, 0x02, 0x01, 0x01, 0x02, 0x03]);
    assert_eq!(data[6..8], [14, 14]); // 2 endchars
}

#[test]
fn test_rebuild_charstrings_index_large_offset() {
    // CharStrings INDEX with offSize = 2 and larger offsets
    let mut data = vec![
        0x00, 0x01, // count = 1
        0x02, // offSize = 2
        0x00, 0x01, 0x01, 0x00, // offsets: 1, 256
    ];
    // Add 255 bytes of charstring data
    data.extend(std::iter::repeat_n(14, 255)); // 255 endchars (only first is valid)

    // Truncate to just first byte (14)
    // New index should have offSize=1 since new total < 256
    assert!(rebuild_charstrings_index_at(&mut data, 0, 0));
    assert_eq!(data[..5], [0x00, 0x01, 0x01, 0x01, 0x02]);
}

/// A font with a single `CFF ` table whose two charstrings carry data after
/// their endchar.
fn cff_font() -> Vec<u8> {
    let mut data = Vec::new();
    data.extend_from_slice(b"OTTO");
    data.extend_from_slice(&1u16.to_be_bytes());
    data.extend_from_slice(&[0; 6]);
    data.extend_from_slice(b"CFF ");
    data.extend_from_slice(&0u32.to_be_bytes());
    data.extend_from_slice(&28u32.to_be_bytes());
    data.extend_from_slice(&31u32.to_be_bytes());
    assert_eq!(data.len(), 28);
    data.extend_from_slice(&[1, 0, 4, 1]);
    data.extend_from_slice(&[0, 1, 1, 1, 5]);
    data.extend_from_slice(b"Tiny");
    data.extend_from_slice(&[0, 1, 1, 1, 3, 159, 17]);
    data.extend_from_slice(&[0, 2, 1, 1, 3, 6, 14, 139, 139, 14, 140]);
    data
}

#[test]
fn fix_cff_font_cuts_every_charstring_after_its_endchar() {
    let mut data = cff_font();
    assert_eq!(fix_cff_font(&mut data), Some(()));
    assert_eq!(&data[..48], &cff_font()[..48]);
    assert_eq!(&data[48..], &[0, 2, 1, 1, 2, 4, 14, 139, 14, 0, 0]);
    // The repaired font needs no second cut.
    let repaired = data.clone();
    assert_eq!(fix_cff_font(&mut data), None);
    assert_eq!(data, repaired);
    assert!(!rebuild_charstrings_index_at(&mut data, 28, 20));
}

#[test]
fn fix_cff_font_ignores_fonts_without_cff() {
    let mut data = b"\x00\x01\x00\x00\x00\x00rest-of-a-font".to_vec();
    let before = data.clone();
    assert_eq!(fix_cff_font(&mut data), None);
    assert_eq!(data, before);
}

#[test]
fn short_charstring_falls_back_to_its_endchar() {
    assert_eq!(find_charstring_end(&[28, 14, 0, 0, 0]), Some(2));
    assert_eq!(find_charstring_end(&[28, 0, 0, 0, 0]), None);
}

#[test]
fn overflowing_charstrings_offset_leaves_data_alone() {
    let mut data = vec![0u8; 300];
    assert!(!rebuild_charstrings_index_at(&mut data, 200, (-107i32) as usize));
    assert_eq!(data, vec![0u8; 300]);
}
