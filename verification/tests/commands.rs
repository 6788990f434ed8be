use assfonts::ass::{analyze_ass, FontRequest};
use assfonts::cli::RunOptions;
use assfonts::commands::{
    build_coverage_report, build_pending_processes, coverage_indices, format_request, make_resolved_key,
    measure_font_coverage, merge_fonts, plan_script, select_run_fonts, try_subset_font,
    upsert_pending_process, GlyphCoverageReport, PendingFontProcess, ResolvedIndex,
};
use assfonts::error::AssfontsError;
use assfonts::font::{normalize_font_name, FontRecord};

fn test_record(face_index: u32) -> FontRecord {
    FontRecord {
        display_name: "Test Font".to_string(),
        normalized_name: "testfont".to_string(),
        path: "C:/fonts/test.ttf".to_string(),
        face_index,
        inferred_weight: 400,
        is_italic: false,
        aliases: vec!["Test Font".to_string()],
    }
}

fn options(strict: bool, report: bool) -> RunOptions {
    RunOptions {
        inputs: vec![],
        output: ".".to_string(),
        fontpaths: None,
        dbpath: ".".to_string(),
        strict,
        allow_missing_sample: false,
        allow_missing_fonts: false,
        allow_error_fonts: false,
        report,
        force: false,
    }
}

#[test]
fn resolved_key_includes_path_and_face_index() {
    let record = test_record(2);

    let key = make_resolved_key(&record);
    assert_eq!(key.0, "C:/fonts/test.ttf".to_string());
    assert_eq!(key.1, 2);
}

#[test]
fn resolved_key_map_can_group_duplicate_fonts() {
    let key = ("C:/fonts/test.ttf".to_string(), 0_u32);
    let mut grouped_index = ResolvedIndex::new();
    grouped_index.insert(key.clone(), 0_usize);

    assert_eq!(grouped_index.get(&key), Some(0_usize));
}

#[test]
fn upsert_pending_process_merges_required_chars_for_same_key() {
    let mut grouped: Vec<PendingFontProcess> = Vec::new();
    let mut grouped_index = ResolvedIndex::new();

    let record = test_record(0);
    let key = make_resolved_key(&record);

    let request = FontRequest {
        font_name: "Test Font".to_string(),
        bold: 400,
        italic: false,
    };

    let chars_a = vec!['A'];
    let chars_b = vec!['B'];

    upsert_pending_process(
        &mut grouped,
        &mut grouped_index,
        key.clone(),
        &request,
        "testfont",
        &record,
        &chars_a,
    );
    upsert_pending_process(
        &mut grouped,
        &mut grouped_index,
        key,
        &request,
        "testfont",
        &record,
        &chars_b,
    );

    assert_eq!(grouped.len(), 1);
    assert!(grouped[0].required_chars.contains(&'A'));
    assert!(grouped[0].required_chars.contains(&'B'));
}

#[test]
fn index_replaces_and_separates_keys() {
    let mut index = ResolvedIndex::new();
    let a = ("a.ttf".to_string(), 0);
    let a1 = ("a.ttf".to_string(), 1);
    index.insert(a.clone(), 3);
    index.insert(a1.clone(), 5);
    index.insert(a.clone(), 7);
    assert_eq!(index.get(&a), Some(7));
    assert_eq!(index.get(&a1), Some(5));
    assert_eq!(index.get(&("b.ttf".to_string(), 0)), None);
}

#[test]
fn formats_requests() {
    let r = FontRequest { font_name: "Arial".to_string(), bold: 700, italic: false };
    assert_eq!(format_request(&r), "Arial (bold=700, italic=false)");
    let r = FontRequest { font_name: "X".to_string(), bold: -5, italic: true };
    assert_eq!(format_request(&r), "X (bold=-5, italic=true)");
}

#[test]
fn pending_processes_group_by_face_and_list_missing_fonts() {
    let text = "[V4+ Styles]\nStyle: Default,Test Font,20,&H00FFFFFF,&H000000FF,&H00000000,&H00000000,0,0,0,0,100,100,0,0,1,2,2,2,10,10,10,1\n[Events]\nDialogue: 0,0:00:00.00,0:00:05.00,Default,,0,0,0,,ab{\\b1}cd{\\fnNope}e";
    let analysis = analyze_ass(text);
    let fonts = vec![test_record(0)];
    let (grouped, missing) = build_pending_processes(&analysis, &fonts);
    assert_eq!(grouped.len(), 1);
    assert_eq!(grouped[0].record.path, "C:/fonts/test.ttf");
    assert_eq!(grouped[0].normalized_name, normalize_font_name("Test Font"));
    let mut chars = grouped[0].required_chars.clone();
    chars.sort();
    assert_eq!(chars, vec!['a', 'b', 'c', 'd']);
    assert_eq!(missing, vec!["Nope (bold=700, italic=false)".to_string()]);
}

#[test]
fn strict_plan_stops_on_missing_fonts() {
    let text = "[Events]\nDialogue: 0,0:00:00.00,0:00:05.00,Default,,0,0,0,,{\\fnNope}x";
    let fonts = vec![test_record(0)];
    match plan_script(&options(true, false), "in.ass", text, &fonts) {
        Err(AssfontsError::MissingFonts(path, missing)) => {
            assert_eq!(path, "in.ass");
            assert_eq!(missing, vec!["Nope (bold=400, italic=false)".to_string()]);
        },
        other => panic!("unexpected {:?}", other),
    }
    let plan = plan_script(&options(false, false), "in.ass", text, &fonts).expect("lenient plan");
    assert!(plan.0.is_empty());
    assert_eq!(plan.1.len(), 1);
}

#[test]
fn allowing_missing_fonts_lets_a_strict_plan_go_on() {
    let text = "[Events]\nDialogue: 0,0:00:00.00,0:00:05.00,Default,,0,0,0,,{\\fnNope}x";
    let fonts = vec![test_record(0)];
    let mut opts = options(true, false);
    opts.allow_missing_fonts = true;
    let plan = plan_script(&opts, "in.ass", text, &fonts).expect("relaxed plan");
    assert!(plan.0.is_empty());
    assert_eq!(plan.1, vec!["Nope (bold=400, italic=false)".to_string()]);
}

#[test]
fn subset_of_no_characters_is_empty() {
    assert_eq!(try_subset_font(b"anything", 0, None).unwrap(), Vec::<u8>::new());
    assert_eq!(try_subset_font(b"anything", 0, Some(&[])).unwrap(), Vec::<u8>::new());
}

#[test]
fn subset_of_a_broken_face_reports_the_face_error() {
    match try_subset_font(b"ttcf", 1, Some(&['a'])) {
        Err(AssfontsError::Font(m)) => assert!(m.starts_with("failed to parse face: ")),
        other => panic!("unexpected {:?}", other),
    }
    match try_subset_font(b"garbage!", 0, Some(&['a'])) {
        Err(AssfontsError::Subset(f)) => assert!(f.message().starts_with("parse error: ")),
        other => panic!("unexpected {:?}", other),
    }
}

#[test]
fn coverage_of_unparsable_font_misses_everything() {
    let (required, supported, missing) = measure_font_coverage(b"xx", 0, Some(&['a', 'b']));
    assert_eq!((required, supported), (2, 0));
    assert_eq!(missing, vec!["a".to_string(), "b".to_string()]);
    let many: Vec<char> = ('a'..='z').collect();
    let (_, _, missing) = measure_font_coverage(b"xx", 0, Some(&many));
    assert_eq!(missing.len(), 12);
    assert_eq!(measure_font_coverage(b"xx", 0, None), (0, 0, vec![]));
}

#[test]
fn coverage_policy() {
    let request = FontRequest { font_name: "Test Font".to_string(), bold: 400, italic: false };
    let record = test_record(0);
    let original = b"xyz".to_vec();
    // Lenient without report: the subset goes through, nothing measured.
    let (cov, bytes) = build_coverage_report(&options(false, false), &request, &record, &['a'], &original, Ok(vec![1, 2]))
        .unwrap();
    assert!(cov.is_none());
    assert_eq!(bytes, vec![1, 2]);
    // Strict: a subsetting failure stops, under the font's path.
    let err = build_coverage_report(&options(true, false), &request, &record, &['a'], &original, Err(AssfontsError::Font("bad".to_string())))
        .unwrap_err();
    assert_eq!(err.message(), "font path: C:/fonts/test.ttf");
    assert_eq!(err.messages()[1], "font processing error: bad");
    // Lenient with report: the whole font is embedded and the error recorded.
    let (cov, bytes) = build_coverage_report(&options(false, true), &request, &record, &['a'], &original, Err(AssfontsError::Font("bad".to_string())))
        .unwrap();
    assert_eq!(bytes, original);
    let cov = cov.unwrap();
    assert_eq!(cov.error, Some("font processing error: bad".to_string()));
    assert_eq!(cov.required_count, 1);
    assert_eq!(cov.supported_count, 0);
    assert_eq!(cov.missing_sample, vec!["a".to_string()]);
    assert_eq!(cov.original_bytes, 3);
    assert_eq!(cov.subset_bytes, 3);
    // Strict: missing characters stop the run.
    let err = build_coverage_report(&options(true, true), &request, &record, &['a'], &original, Ok(vec![0; 4])).unwrap_err();
    assert_eq!(
        err.messages(),
        vec![
            "font path: C:/fonts/test.ttf".to_string(),
            "font processing error: Font 'Test Font' is missing required characters: [\"a\"]".to_string()
        ]
    );
}

#[test]
fn report_indices() {
    let base = GlyphCoverageReport {
        requested_font: "F".to_string(),
        requested_bold: 400,
        requested_italic: false,
        resolved_font_file: "f.ttf".to_string(),
        required_count: 1,
        supported_count: 1,
        missing_sample: vec![],
        original_bytes: 1,
        subset_bytes: 1,
        error: None,
    };
    let mut missing = base.clone();
    missing.missing_sample = vec!["x".to_string()];
    let mut failed = base.clone();
    failed.error = Some("e".to_string());
    let (m, e) = coverage_indices(&vec![base, missing, failed.clone(), failed]);
    assert_eq!(m, vec![1]);
    assert_eq!(e, vec![2, 3]);
}

#[test]
fn merging_keeps_scanned_and_adds_new_indexed_faces() {
    let mut other = test_record(1);
    other.display_name = "Other".to_string();
    let merged = merge_fonts(vec![test_record(0)], vec![test_record(0), other.clone(), other]);
    assert_eq!(merged.len(), 2);
    assert_eq!(merged[1].face_index, 1);
}

#[test]
fn font_sources_of_a_run() {
    match select_run_fonts(vec![], None, "/db") {
        Err(AssfontsError::MissingFontSource(p)) => assert_eq!(p, "/db"),
        other => panic!("unexpected {:?}", other),
    }
    assert!(matches!(select_run_fonts(vec![], Some(vec![]), "/db"), Err(AssfontsError::MissingFontSource(_))));
    assert_eq!(select_run_fonts(vec![test_record(0)], None, "/db").unwrap().len(), 1);
    assert_eq!(select_run_fonts(vec![test_record(0)], Some(vec![test_record(3)]), "/db").unwrap().len(), 2);
}
