use assfonts::ass::FontRequest;
use assfonts::font::{
    collect_aliases, discover_from_file, fallback_name_from_stem, fallback_record, infer_italic,
    infer_weight, is_supported_extension, match_best_font, normalize_font_name, records_from_font_data,
    supported_font_extension, FontRecord,
};

fn record(name: &str, path: &str, weight: i32, italic: bool, aliases: &[&str]) -> FontRecord {
    FontRecord {
        display_name: name.to_string(),
        normalized_name: normalize_font_name(name),
        path: path.to_string(),
        face_index: 0,
        inferred_weight: weight,
        is_italic: italic,
        aliases: aliases.iter().map(|a| a.to_string()).collect(),
    }
}

fn request(name: &str, bold: i32, italic: bool) -> FontRequest {
    FontRequest { font_name: name.to_string(), bold, italic }
}

#[test]
fn normalizes_names() {
    assert_eq!(normalize_font_name("Noto Sans-CJK_SC:Bold"), "notosanscjkscbold");
    assert_eq!(normalize_font_name("@Arial, Narrow"), "arialnarrow");
    assert_eq!(normalize_font_name("  \t "), "");
    assert_eq!(normalize_font_name("ÀÉ"), "àé");
}

#[test]
fn infers_weight_and_slant_from_names() {
    assert_eq!(infer_weight("Foo Black"), 900);
    assert_eq!(infer_weight("Foo Heavy"), 900);
    assert_eq!(infer_weight("Foo ExtraBold"), 800);
    assert_eq!(infer_weight("Foo UltraBold"), 800);
    assert_eq!(infer_weight("Foo SemiBold"), 600);
    assert_eq!(infer_weight("Foo DemiBold"), 600);
    assert_eq!(infer_weight("Foo BOLD"), 700);
    assert_eq!(infer_weight("Foo Medium"), 500);
    assert_eq!(infer_weight("Foo Light"), 300);
    assert_eq!(infer_weight("Foo Thin"), 200);
    assert_eq!(infer_weight("Foo Regular"), 400);
    assert!(infer_italic("Foo Italic"));
    assert!(infer_italic("Foo OBLIQUE"));
    assert!(!infer_italic("Foo Roman"));
}

#[test]
fn fallback_record_is_named_after_the_file() {
    let r = fallback_record("/fonts/Foo-BoldItalic.ttf", "Foo-BoldItalic");
    assert_eq!(r.display_name, "Foo-BoldItalic");
    assert_eq!(r.normalized_name, "foobolditalic");
    assert_eq!(r.path, "/fonts/Foo-BoldItalic.ttf");
    assert_eq!(r.face_index, 0);
    assert_eq!(r.inferred_weight, 700);
    assert!(r.is_italic);
    assert_eq!(r.aliases, vec!["Foo-BoldItalic".to_string()]);
}

#[test]
fn best_font_prefers_weight_and_slant() {
    let fonts = vec![
        record("Foo", "/a.ttf", 400, false, &["Foo"]),
        record("Foo Bold", "/b.ttf", 700, false, &["Foo"]),
        record("Foo Italic", "/c.ttf", 400, true, &["Foo"]),
        record("Bar", "/d.ttf", 400, false, &["Bar"]),
    ];
    assert_eq!(match_best_font(&fonts, &request("Foo", 700, false)).unwrap().path, "/b.ttf");
    assert_eq!(match_best_font(&fonts, &request("foo", 400, true)).unwrap().path, "/c.ttf");
    // A requested weight under 600 counts as 400.
    assert_eq!(match_best_font(&fonts, &request("Foo", 500, false)).unwrap().path, "/a.ttf");
    assert!(match_best_font(&fonts, &request("Baz", 400, false)).is_none());
}

#[test]
fn best_font_keeps_the_first_on_ties() {
    let fonts = vec![
        record("Foo", "/first.ttf", 400, false, &[]),
        record("Foo", "/second.ttf", 400, false, &[]),
    ];
    assert_eq!(match_best_font(&fonts, &request("Foo", 400, false)).unwrap().path, "/first.ttf");
}

#[test]
fn best_font_matches_aliases() {
    let fonts = vec![record("Quux", "/q.ttf", 400, false, &["Old Name", "Other-Name"])];
    assert_eq!(match_best_font(&fonts, &request("othername", 400, false)).unwrap().path, "/q.ttf");
}

#[test]
fn aliases_are_sorted_trimmed_and_distinct() {
    let names = vec![
        (4u16, Some(" Foo Regular ".to_string())),
        (1, Some("Foo".to_string())),
        (2, Some("Regular".to_string())),
        (16, Some("Foo".to_string())),
        (6, None),
        (6, Some("   ".to_string())),
        (6, Some("Foo-Regular".to_string())),
    ];
    assert_eq!(
        collect_aliases(&names, "fallback"),
        vec!["Foo".to_string(), "Foo Regular".to_string(), "Foo-Regular".to_string()]
    );
    assert_eq!(collect_aliases(&vec![(2, Some("x".to_string()))], "fb"), vec!["fb".to_string()]);
}

#[test]
fn recognizes_font_extensions() {
    assert!(is_supported_extension("TTF"));
    assert!(is_supported_extension("woff2"));
    assert!(!is_supported_extension("txt"));
    assert!(supported_font_extension("/x/y/font.OTC"));
    assert!(!supported_font_extension("/x/y/readme"));
}

#[test]
fn unreadable_or_unparsable_files_give_a_fallback_record() {
    let r = records_from_font_data("/f/Foo.ttf", "Foo", None);
    assert_eq!(r.len(), 1);
    assert_eq!(r[0].display_name, "Foo");
    let r = records_from_font_data("/f/Foo.ttf", "Foo", Some(b"garbage".as_slice()));
    assert_eq!(r.len(), 1);
    assert_eq!(r[0].face_index, 0);
    assert_eq!(r[0].aliases, vec!["Foo".to_string()]);
    let r = discover_from_file("/f/ Light Foo .ttf", Some(b"garbage".to_vec()));
    assert_eq!(r.len(), 1);
    assert_eq!(r[0].display_name, "Light Foo");
    assert_eq!(r[0].inferred_weight, 300);
    assert!(discover_from_file("/f/   .ttf", None).is_empty());
}

#[test]
fn fallback_name_is_the_trimmed_stem() {
    assert_eq!(fallback_name_from_stem(Some(" a b ")), Some("a b".to_string()));
    assert_eq!(fallback_name_from_stem(Some("  ")), None);
    assert_eq!(fallback_name_from_stem(None), None);
}

#[test]
fn font_extension_follows_the_final_component() {
    assert!(supported_font_extension("fonts//a.ttf//"));
    assert!(supported_font_extension("/x/font.woff2/."));
    assert!(supported_font_extension("/x/.a.otf"));
    assert!(!supported_font_extension("/x/.ttf"));
    assert!(!supported_font_extension("/x/a.ttf/.."));
    assert!(!supported_font_extension("/x/a.ttf/b"));
    assert!(!supported_font_extension("a.ttf."));
    assert!(!supported_font_extension(""));
}

#[test]
fn discovery_names_records_after_the_stem() {
    let r = discover_from_file("/f/Bar.v2.otf/", None);
    assert_eq!(r.len(), 1);
    assert_eq!(r[0].display_name, "Bar.v2");
    assert_eq!(r[0].path, "/f/Bar.v2.otf/");
    let r = discover_from_file("/f/.hidden", None);
    assert_eq!(r.len(), 1);
    assert_eq!(r[0].display_name, ".hidden");
    assert!(discover_from_file("/f/a.ttf/..", None).is_empty());
    assert!(discover_from_file("/", None).is_empty());
}

#[test]
fn normal_forms_ignore_case_and_are_stable() {
    let r = normalize_font_name("Noto Sans-CJK_SC @Bold, x:y");
    assert_eq!(r, "notosanscjkscboldxy");
    assert_eq!(normalize_font_name(&r), r);
    assert_eq!(normalize_font_name(&"Noto Sans-CJK_SC @Bold, x:y".to_ascii_uppercase()), r);
    assert!(!r.chars().any(|c| c.is_whitespace() || ['-', '_', '@', ',', ':'].contains(&c)));
}
