use assfonts::ass::{analyze_ass, normalize_bold, normalize_italic};

#[test]
fn parses_style_and_override_fonts() {
    let text = "[V4+ Styles]\nStyle: Default,Arial,20,&H00FFFFFF,&H000000FF,&H00000000,&H00000000,-1,0,0,0,100,100,0,0,1,2,2,2,10,10,10,1\nStyle: Fancy,Times New Roman,24,&H00FFFFFF,&H000000FF,&H00000000,&H00000000,700,1,0,0,100,100,0,0,1,2,2,2,10,10,10,1\n[Events]\nDialogue: 0,0:00:00.00,0:00:05.00,Default,,0,0,0,,{\\fnRoboto}hello{\\rFancy}world";

    let analysis = analyze_ass(text);
    assert!(analysis
        .font_requests
        .iter()
        .any(|x| x.request.font_name == "Roboto"));
}

#[test]
fn handles_mixed_override_order_and_reset() {
    let text = "[V4+ Styles]\nStyle: Default,Arial,20,&H00FFFFFF,&H000000FF,&H00000000,&H00000000,0,0,0,0,100,100,0,0,1,2,2,2,10,10,10,1\nStyle: Fancy,Times New Roman,24,&H00FFFFFF,&H000000FF,&H00000000,&H00000000,700,1,0,0,100,100,0,0,1,2,2,2,10,10,10,1\n[Events]\nDialogue: 0,0:00:00.00,0:00:05.00,Default,,0,0,0,,A{\\b700\\fnRoboto}B{\\i1}C{\\rFancy}D{\\r}E";

    let analysis = analyze_ass(text);

    assert!(analysis.font_requests.iter().any(|u| {
        u.request.font_name == "Roboto" && u.request.bold == 700 && !u.request.italic
    }));
    assert!(analysis.font_requests.iter().any(|u| {
        u.request.font_name == "Roboto" && u.request.bold == 700 && u.request.italic
    }));
    assert!(analysis.font_requests.iter().any(|u| {
        u.request.font_name == "Times New Roman" && u.request.bold == 700 && u.request.italic
    }));
    assert!(analysis.font_requests.iter().any(|u| {
        u.request.font_name == "Arial" && u.request.bold == 400 && !u.request.italic
    }));
}

#[test]
fn parses_with_format_vec_and_map() {
    let text = "[V4+ Styles]\nFormat: Name, Fontname, Fontsize, PrimaryColour, SecondaryColour, OutlineColour, BackColour, Bold, Italic\nStyle: Default,Arial,20,&H00FFFFFF,&H00112233,&H00000000,&H00000000,700,1\n[Events]\nFormat: Layer, Start, End, Name, Style, MarginL, MarginR, MarginV, Effect, Text\nDialogue: 0,0:00:00.00,0:00:02.00,,Default,0,0,0,,A";

    let analysis = analyze_ass(text);

    assert!(analysis.font_requests.iter().any(|u| {
        u.request.font_name == "Arial" && u.request.bold == 700 && u.request.italic
    }));
}

#[test]
fn chars_are_grouped_per_request_in_request_order() {
    let text = "[V4+ Styles]\nStyle: Default,Arial,20,&H00FFFFFF,&H000000FF,&H00000000,&H00000000,0,0,0,0,100,100,0,0,1,2,2,2,10,10,10,1\n[Events]\nDialogue: 0,0:00:00.00,0:00:05.00,Default,,0,0,0,,ab{\\b1}ba\\Nc";
    let analysis = analyze_ass(text);
    assert_eq!(analysis.font_requests.len(), 2);
    let first = &analysis.font_requests[0];
    let second = &analysis.font_requests[1];
    assert_eq!(first.request.font_name, "Arial");
    assert_eq!(first.request.bold, 400);
    assert_eq!(first.chars, vec!['a', 'b']);
    assert_eq!(second.request.bold, 700);
    assert!(second.chars.contains(&'a') && second.chars.contains(&'b') && second.chars.contains(&'c'));
    let mut seen = second.chars.clone();
    seen.dedup();
    assert_eq!(seen.len(), second.chars.len());
}

#[test]
fn bold_and_italic_values_normalize() {
    assert_eq!(normalize_bold(0), 400);
    assert_eq!(normalize_bold(1), 700);
    assert_eq!(normalize_bold(-1), 700);
    assert_eq!(normalize_bold(600), 600);
    assert!(normalize_italic(1));
    assert!(!normalize_italic(0));
}

#[test]
fn script_without_events_requests_nothing() {
    let analysis = analyze_ass("[Script Info]\nTitle: x\n");
    assert!(analysis.font_requests.is_empty());
}
