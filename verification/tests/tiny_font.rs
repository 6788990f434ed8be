//! Runs the library on a tiny TrueType font built here: three empty glyphs,
//! `a` and `b` mapped to glyphs 1 and 2, named "Tiny" / "Tiny Bold".

use assfonts::commands::{measure_font_coverage, try_subset_font};
use assfonts::font::records_from_font_data;
use assfonts::sfnt::extract_face_as_standalone_sfnt;
use assfonts::subset::{subset, subset_with_allsorts};

fn be16(v: u16) -> [u8; 2] {
    v.to_be_bytes()
}

fn be32(v: u32) -> [u8; 4] {
    v.to_be_bytes()
}

fn head() -> Vec<u8> {
    let mut t = Vec::new();
    t.extend(be32(0x0001_0000));
    t.extend(be32(0x0001_0000));
    t.extend(be32(0));
    t.extend(be32(0x5F0F_3CF5));
    t.extend(be16(0));
    t.extend(be16(1000));
    t.extend([0u8; 16]);
    t.extend([0u8; 8]);
    t.extend(be16(0));
    t.extend(be16(8));
    t.extend(be16(2));
    t.extend(be16(0));
    t.extend(be16(0));
    assert_eq!(t.len(), 54);
    t
}

fn hhea() -> Vec<u8> {
    let mut t = Vec::new();
    t.extend(be32(0x0001_0000));
    t.extend(be16(800));
    t.extend(be16(0xFF38));
    t.extend(be16(0));
    t.extend(be16(500));
    t.extend([0u8; 6]);
    t.extend(be16(1));
    t.extend(be16(0));
    t.extend(be16(0));
    t.extend([0u8; 8]);
    t.extend(be16(0));
    t.extend(be16(3));
    assert_eq!(t.len(), 36);
    t
}

fn cmap() -> Vec<u8> {
    let mut t = Vec::new();
    t.extend(be16(0));
    t.extend(be16(1));
    t.extend(be16(3));
    t.extend(be16(1));
    t.extend(be32(12));
    t.extend(be16(4));
    t.extend(be16(32));
    t.extend(be16(0));
    t.extend(be16(4));
    t.extend(be16(4));
    t.extend(be16(1));
    t.extend(be16(0));
    t.extend(be16(0x62));
    t.extend(be16(0xFFFF));
    t.extend(be16(0));
    t.extend(be16(0x61));
    t.extend(be16(0xFFFF));
    t.extend(be16(0xFFA0));
    t.extend(be16(1));
    t.extend(be16(0));
    t.extend(be16(0));
    assert_eq!(t.len(), 12 + 32);
    t
}

fn utf16(s: &str) -> Vec<u8> {
    s.encode_utf16().flat_map(|u| u.to_be_bytes()).collect()
}

fn name() -> Vec<u8> {
    let family = utf16("Tiny");
    let full = utf16("Tiny Bold");
    let mut t = Vec::new();
    t.extend(be16(0));
    t.extend(be16(2));
    t.extend(be16(6 + 12 * 2));
    for (id, len, off) in [(1u16, family.len(), 0usize), (4, full.len(), family.len())] {
        t.extend(be16(3));
        t.extend(be16(1));
        t.extend(be16(0x409));
        t.extend(be16(id));
        t.extend(be16(len as u16));
        t.extend(be16(off as u16));
    }
    t.extend(family);
    t.extend(full);
    t
}

fn os2(italic: bool) -> Vec<u8> {
    let mut t = vec![0u8; 78];
    t[4..6].copy_from_slice(&be16(700));
    t[62..64].copy_from_slice(&be16(if italic { 1 } else { 0x40 }));
    t
}

fn post() -> Vec<u8> {
    let mut t = Vec::new();
    t.extend(be32(0x0003_0000));
    t.extend([0u8; 28]);
    t
}

/// The tiny font, its tables sorted by tag.
fn tiny_font(italic: bool) -> Vec<u8> {
    let mut maxp = Vec::new();
    maxp.extend(be32(0x0000_5000));
    maxp.extend(be16(3));
    let mut hmtx = Vec::new();
    for _ in 0..3 {
        hmtx.extend(be16(500));
        hmtx.extend(be16(0));
    }
    let tables: Vec<(&[u8; 4], Vec<u8>)> = vec![
        (b"OS/2", os2(italic)),
        (b"cmap", cmap()),
        (b"glyf", Vec::new()),
        (b"head", head()),
        (b"hhea", hhea()),
        (b"hmtx", hmtx),
        (b"loca", vec![0u8; 8]),
        (b"maxp", maxp),
        (b"name", name()),
        (b"post", post()),
    ];
    let mut out = Vec::new();
    out.extend(be32(0x0001_0000));
    out.extend(be16(tables.len() as u16));
    out.extend(be16(128));
    out.extend(be16(3));
    out.extend(be16(tables.len() as u16 * 16 - 128));
    let mut offset = 12 + 16 * tables.len();
    let mut data = Vec::new();
    for (tag, body) in &tables {
        out.extend_from_slice(&tag[..]);
        out.extend(be32(0));
        out.extend(be32(offset as u32));
        out.extend(be32(body.len() as u32));
        let padded = (body.len() + 3) / 4 * 4;
        data.extend_from_slice(body);
        data.resize(data.len() + padded - body.len(), 0);
        offset += padded;
    }
    out.extend(data);
    out
}

/// A collection of two faces that both are the given font.
fn as_collection(bytes: &[u8]) -> Vec<u8> {
    let mut out = Vec::new();
    out.extend_from_slice(b"ttcf");
    out.extend(be32(0x0001_0000));
    out.extend(be32(2));
    out.extend(be32(20));
    out.extend(be32(20));
    let mut face = bytes.to_vec();
    let n = u16::from_be_bytes([face[4], face[5]]) as usize;
    for i in 0..n {
        let at = 12 + 16 * i + 8;
        let offset = u32::from_be_bytes([face[at], face[at + 1], face[at + 2], face[at + 3]]) + 20;
        face[at..at + 4].copy_from_slice(&be32(offset));
    }
    out.extend(face);
    out
}

fn checksum(data: &[u8]) -> u32 {
    let mut sum: u32 = 0;
    for chunk in data.chunks(4) {
        let mut w = [0u8; 4];
        w[..chunk.len()].copy_from_slice(chunk);
        sum = sum.wrapping_add(u32::from_be_bytes(w));
    }
    sum
}

#[test]
fn records_read_names_weight_and_slant() {
    let font = tiny_font(false);
    let records = records_from_font_data("/f/tiny.ttf", "tiny", Some(&font));
    assert_eq!(records.len(), 1);
    let r = &records[0];
    assert_eq!(r.aliases, vec!["Tiny".to_string(), "Tiny Bold".to_string()]);
    assert_eq!(r.display_name, "Tiny");
    assert_eq!(r.normalized_name, "tiny");
    assert_eq!(r.inferred_weight, 700);
    assert!(!r.is_italic);
    let italic = records_from_font_data("/f/tiny.ttf", "tiny", Some(&tiny_font(true)));
    assert!(italic[0].is_italic);
}

#[test]
fn coverage_follows_the_character_map() {
    let font = tiny_font(false);
    let (required, supported, missing) = measure_font_coverage(&font, 0, Some(&['a', 'b', 'c']));
    assert_eq!((required, supported), (3, 2));
    assert_eq!(missing, vec!["c".to_string()]);
}

#[test]
fn subsets_keep_the_glyphs_of_the_characters() {
    let font = tiny_font(false);
    let small = subset_with_allsorts(&font, &['a']).expect("subset");
    let (_, supported, missing) = measure_font_coverage(&small, 0, Some(&['a', 'b']));
    assert_eq!(supported, 1);
    assert_eq!(missing, vec!["b".to_string()]);
    assert_eq!(subset_with_allsorts(&font, &['a', 'a', 'c']).expect("subset"), small);
    assert_eq!(subset(&font, &['a']).expect("subset"), small);
    let both = subset_with_allsorts(&font, &['b', 'a']).expect("subset");
    assert_eq!(subset_with_allsorts(&font, &['a', 'b']).expect("subset"), both);
    let (_, supported, _) = measure_font_coverage(&both, 0, Some(&['a', 'b']));
    assert_eq!(supported, 2);
}

#[test]
fn collections_give_a_record_per_face() {
    let ttc = as_collection(&tiny_font(false));
    let records = records_from_font_data("/f/tiny.ttc", "tiny", Some(&ttc));
    assert_eq!(records.len(), 2);
    assert_eq!(records[0].face_index, 0);
    assert_eq!(records[1].face_index, 1);
    assert_eq!(records[1].display_name, "Tiny");

    let face = extract_face_as_standalone_sfnt(&ttc, 1).expect("face 1");
    assert_eq!(checksum(&face), 0xB1B0_AFBA);
    let again = records_from_font_data("/f/face.ttf", "face", Some(&face));
    assert_eq!(again[0].aliases, records[1].aliases);
    let subset_face = try_subset_font(&ttc, 1, Some(&['b'])).expect("subset of face 1");
    let (_, supported, _) = measure_font_coverage(&subset_face, 0, Some(&['a', 'b']));
    assert_eq!(supported, 1);
}

#[test]
fn a_font_without_horizontal_metrics_is_refused() {
    let mut font = tiny_font(false);
    let n = u16::from_be_bytes([font[4], font[5]]) as usize;
    let at = (0..n).map(|i| 12 + 16 * i).find(|&p| &font[p..p + 4] == b"hhea").expect("hhea");
    let offset = u32::from_be_bytes([font[at + 8], font[at + 9], font[at + 10], font[at + 11]]) as usize;
    font[offset + 34..offset + 36].copy_from_slice(&be16(0));
    let failure = subset_with_allsorts(&font, &['a']).expect_err("no metrics");
    assert_eq!(failure.message(), "font subsetting error: subset: parse error: invalid data index");
    assert!(subset(&font, &['a']).is_err());
}
