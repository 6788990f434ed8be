use assfonts::sfnt::{
    align4, apply_check_sum_adjustment, extract_face_as_standalone_sfnt, read_u16_be, read_u32_be,
    resolve_face_offset, standalone_from_records, FontError,
};

#[test]
fn resolve_ttc_face_offset_works() {
    let mut data = Vec::new();
    data.extend_from_slice(b"ttcf");
    data.extend_from_slice(&0x0001_0000u32.to_be_bytes());
    data.extend_from_slice(&2u32.to_be_bytes());
    data.extend_from_slice(&32u32.to_be_bytes());
    data.extend_from_slice(&96u32.to_be_bytes());
    data.resize(100, 0);

    let got = resolve_face_offset(&data, 1).expect("face offset should parse");
    assert_eq!(got, 96);
}

#[test]
fn resolve_ttc_face_offset_out_of_bounds() {
    let mut data = Vec::new();
    data.extend_from_slice(b"ttcf");
    data.extend_from_slice(&0x0001_0000u32.to_be_bytes());
    data.extend_from_slice(&1u32.to_be_bytes());
    data.extend_from_slice(&32u32.to_be_bytes());
    data.resize(40, 0);

    let err = resolve_face_offset(&data, 1).expect_err("should reject out of bounds");
    assert!(matches!(err, FontError::FaceIndexOutOfBounds(1, 1)));
}

#[test]
fn extract_single_font_face_zero_passthrough() {
    let raw = b"not-a-ttcf".to_vec();
    let out = extract_face_as_standalone_sfnt(&raw, 0).expect("face0 passthrough expected");
    assert_eq!(out, raw);
}

#[test]
fn resolve_face_offset_errors() {
    assert_eq!(resolve_face_offset(b"OTTO....", 0), Ok(0));
    assert_eq!(resolve_face_offset(b"OTTO....", 3), Err(FontError::FaceIndexOutOfBoundsSingle(3)));
    assert_eq!(resolve_face_offset(b"ttcf\0\0\0", 0), Err(FontError::InvalidTtcHeader));
    let mut data = Vec::new();
    data.extend_from_slice(b"ttcf");
    data.extend_from_slice(&0x0001_0000u32.to_be_bytes());
    data.extend_from_slice(&3u32.to_be_bytes());
    data.extend_from_slice(&20u32.to_be_bytes());
    assert_eq!(resolve_face_offset(&data, 1), Err(FontError::InvalidTtcOffsetTable));
    data.extend_from_slice(&200u32.to_be_bytes());
    data.extend_from_slice(&0u32.to_be_bytes());
    assert_eq!(resolve_face_offset(&data, 1), Err(FontError::InvalidTtcFaceOffset));
    assert_eq!(resolve_face_offset(&data, 2), Ok(0));
}

#[test]
fn align_and_reads() {
    assert_eq!(align4(0), 0);
    assert_eq!(align4(1), 4);
    assert_eq!(align4(4), 4);
    assert_eq!(align4(54), 56);
    assert_eq!(read_u16_be(&[1, 2, 3], 1), Some(0x0203));
    assert_eq!(read_u16_be(&[1, 2, 3], 2), None);
    assert_eq!(read_u32_be(&[1, 2, 3, 4], 0), Some(0x0102_0304));
    assert_eq!(read_u32_be(&[1, 2, 3, 4], 1), None);
    assert_eq!(read_u32_be(&[1, 2, 3, 4], 9), None);
}

fn checksum(data: &[u8]) -> u32 {
    let mut sum: u32 = 0;
    for chunk in data.chunks(4) {
        let mut w = [0u8; 4];
        w[..chunk.len()].copy_from_slice(chunk);
        sum = sum.wrapping_add(u32::from_be_bytes(w));
    }
    sum
}

fn face_directory(tables: &[(&[u8; 4], u32, u32)]) -> Vec<u8> {
    let mut d = Vec::new();
    d.extend_from_slice(&0x0001_0000u32.to_be_bytes());
    d.extend_from_slice(&(tables.len() as u16).to_be_bytes());
    d.extend_from_slice(&[0, 0, 0, 0, 0, 0]);
    for (tag, offset, length) in tables {
        d.extend_from_slice(&tag[..]);
        d.extend_from_slice(&0x1234_5678u32.to_be_bytes());
        d.extend_from_slice(&offset.to_be_bytes());
        d.extend_from_slice(&length.to_be_bytes());
    }
    d
}

/// A collection of two faces that share a `head` table (54 bytes at 108)
/// and a `zzzz` table (5 bytes at 164); face 1 lists them out of order.
fn two_face_collection() -> Vec<u8> {
    let mut data = Vec::new();
    data.extend_from_slice(b"ttcf");
    data.extend_from_slice(&0x0001_0000u32.to_be_bytes());
    data.extend_from_slice(&2u32.to_be_bytes());
    data.extend_from_slice(&20u32.to_be_bytes());
    data.extend_from_slice(&64u32.to_be_bytes());
    data.extend_from_slice(&face_directory(&[(b"head", 108, 54), (b"zzzz", 164, 5)]));
    data.extend_from_slice(&face_directory(&[(b"zzzz", 164, 5), (b"head", 108, 54)]));
    assert_eq!(data.len(), 108);
    for i in 0..54u8 {
        data.push(i + 1);
    }
    data.extend_from_slice(&[0, 0]);
    data.extend_from_slice(b"hello");
    data
}

#[test]
fn extracts_second_face_of_collection() {
    let data = two_face_collection();
    let out = extract_face_as_standalone_sfnt(&data, 1).expect("face 1 should extract");
    assert_eq!(out.len(), 108);
    assert_eq!(&out[0..4], &[0, 1, 0, 0]);
    assert_eq!(read_u16_be(&out, 4), Some(2));
    assert_eq!(read_u16_be(&out, 6), Some(32));
    assert_eq!(read_u16_be(&out, 8), Some(1));
    assert_eq!(read_u16_be(&out, 10), Some(0));
    assert_eq!(&out[12..16], b"head");
    assert_eq!(read_u32_be(&out, 16), Some(0x1234_5678));
    assert_eq!(read_u32_be(&out, 20), Some(44));
    assert_eq!(read_u32_be(&out, 24), Some(54));
    assert_eq!(&out[28..32], b"zzzz");
    assert_eq!(read_u32_be(&out, 36), Some(100));
    assert_eq!(read_u32_be(&out, 40), Some(5));
    assert_eq!(&out[44..52], &data[108..116]);
    assert_eq!(&out[56..98], &data[120..162]);
    assert_eq!(&out[98..100], &[0, 0]);
    assert_eq!(&out[100..105], b"hello");
    assert_eq!(&out[105..108], &[0, 0, 0]);
    assert_eq!(checksum(&out), 0xB1B0_AFBA);
}

#[test]
fn extracts_first_face_of_collection_the_same_way() {
    let data = two_face_collection();
    let a = extract_face_as_standalone_sfnt(&data, 0).expect("face 0");
    let b = extract_face_as_standalone_sfnt(&data, 1).expect("face 1");
    assert_eq!(a, b);
}

#[test]
fn rejects_a_face_past_the_collection() {
    let data = two_face_collection();
    match extract_face_as_standalone_sfnt(&data, 2) {
        Err(FontError::ParseFace(m)) => assert_eq!(m, "FaceIndexOutOfBounds"),
        other => panic!("unexpected {:?}", other),
    }
}

#[test]
fn standalone_errors_come_from_the_records() {
    let data = two_face_collection();
    assert_eq!(standalone_from_records(&data, 1, &vec![]), Err(FontError::NoTableRecords));
    let tag = u32::from_be_bytes(*b"abcd");
    assert_eq!(
        standalone_from_records(&data, 1, &vec![(tag, 0, 160, 100)]),
        Err(FontError::TableOutOfBounds(tag))
    );
    let zzzz = u32::from_be_bytes(*b"zzzz");
    assert_eq!(
        standalone_from_records(&data, 1, &vec![(zzzz, 0, 164, 5)]),
        Err(FontError::HeadNotFound)
    );
    let head = u32::from_be_bytes(*b"head");
    assert_eq!(
        standalone_from_records(&data, 1, &vec![(head, 0, 108, 8)]),
        Err(FontError::InvalidHeadBounds)
    );
    assert_eq!(
        standalone_from_records(&[1, 2], 0, &vec![(head, 0, 0, 1)]),
        Err(FontError::ScalerTypeOutOfBounds)
    );
    let many = vec![(head, 0, 0, 0); 65536];
    assert_eq!(standalone_from_records(&data, 1, &many), Err(FontError::TooManyTables));
}

#[test]
fn checksum_adjustment_closes_the_sum() {
    let data = two_face_collection();
    let mut font = data[64..108].to_vec();
    font.extend_from_slice(&data[108..]);
    // Point the directory at the tables' new places: head at 44, zzzz at 100.
    font[12 + 8..12 + 12].copy_from_slice(&100u32.to_be_bytes());
    font[28 + 8..28 + 12].copy_from_slice(&44u32.to_be_bytes());
    assert_eq!(apply_check_sum_adjustment(&mut font), Ok(()));
    assert_eq!(checksum(&font), 0xB1B0_AFBA);
    let mut small = vec![0u8; 8];
    assert_eq!(apply_check_sum_adjustment(&mut small), Err(FontError::SfntTooSmall));
    assert_eq!(small, vec![0u8; 8]);
}

#[test]
fn error_messages_match_the_library_texts() {
    assert_eq!(FontError::TooManyTables.message(), "too many tables");
    assert_eq!(
        FontError::FaceIndexOutOfBounds(3, 2).message(),
        "face index out of bounds: 3 >= 2"
    );
    assert_eq!(
        FontError::TableOutOfBounds(u32::from_be_bytes(*b"glyf")).message(),
        "table 'glyf' out of bounds"
    );
    assert_eq!(
        FontError::ParseFace("MalformedFont".to_string()).message(),
        "failed to parse face: MalformedFont"
    );
}
