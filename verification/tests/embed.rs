use assfonts::embed::{render_ass_with_fonts, uuencode, EmbeddedFont};

#[test]
fn uuencode_matches_known_result() {
    let encoded = uuencode(b"abc", false);
    assert_eq!(encoded, "97*D");
}

#[test]
fn inserts_fonts_section_at_end() {
    let source = "[Script Info]\nTitle: demo\n[Events]\nDialogue: 0,0:00:00.00,0:00:01.00,Default,,0,0,0,,hi";
    let fonts = vec![EmbeddedFont {
        font_name: "demo.ttf_0.ttf".to_string(),
        bytes: b"abc".to_vec(),
    }];

    let rendered = render_ass_with_fonts(source, &fonts);
    assert!(rendered.ends_with("\n[Fonts]\nfontname: demo.ttf_0.ttf\n97*D\n"));
    assert!(rendered.contains("[Events]"));
}

#[test]
fn uuencode_pads_partial_groups() {
    // One byte: 2 characters; two bytes: 3 characters.
    assert_eq!(uuencode(b"a", false), "91");
    assert_eq!(uuencode(b"ab", false), "97)");
    assert_eq!(uuencode(b"", false), "");
}

#[test]
fn uuencode_breaks_lines_every_80_characters() {
    let input = vec![0u8; 120];
    let encoded = uuencode(&input, true);
    let lines: Vec<&str> = encoded.split('\n').collect();
    assert_eq!(lines.len(), 2);
    assert_eq!(lines[0].len(), 80);
    assert_eq!(lines[1].len(), 80);
    assert!(encoded.chars().filter(|c| *c != '\n').all(|c| ('!'..='`').contains(&c)));
    let plain = uuencode(&input, false);
    assert_eq!(plain.len(), 160);
    assert_eq!(plain, encoded.replace('\n', ""));
}

#[test]
fn replaces_an_existing_fonts_section() {
    let source = "[Script Info]\nTitle: demo\n[Fonts]\nfontname: old.ttf\nXYZ\n[Events]\nDialogue: 0,0:00:00.00,0:00:01.00,Default,,0,0,0,,hi";
    let fonts = vec![EmbeddedFont { font_name: "new.ttf".to_string(), bytes: b"abc".to_vec() }];
    let rendered = render_ass_with_fonts(source, &fonts);
    assert!(!rendered.contains("old.ttf"));
    assert_eq!(rendered.matches("[Fonts]").count(), 1);
    assert!(rendered.ends_with("[Fonts]\nfontname: new.ttf\n97*D\n"));
}

#[test]
fn no_fonts_leaves_script_unchanged() {
    let source = "[Script Info]\nTitle: demo\n";
    assert_eq!(render_ass_with_fonts(source, &[]), source);
}
