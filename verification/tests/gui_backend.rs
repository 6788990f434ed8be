use assfonts::gui_backend::{
    ensure_non_empty_paths, parse_path_list, preparing_event, progress_event, run_finished_event,
    scanning_event, summarize_build, summarize_process, GuiEvent, ProcessReportEntry, TaskSummary,
};

#[test]
fn parse_path_list_supports_newlines_and_pipes() {
    let parsed = parse_path_list("a.ass\nB:/fonts|C:/db");

    assert_eq!(
        parsed,
        vec!["a.ass".to_string(), "B:/fonts".to_string(), "C:/db".to_string()]
    );
}

#[test]
fn path_lists_drop_blank_pieces() {
    assert_eq!(parse_path_list("  x \n\n|| y|"), vec!["x".to_string(), "y".to_string()]);
    assert!(parse_path_list("").is_empty());
}

#[test]
fn empty_path_fields_are_refused() {
    assert_eq!(ensure_non_empty_paths(" | \n", "字体目录"), Err("字体目录不能为空".to_string()));
    assert_eq!(ensure_non_empty_paths("a|b", "x"), Ok(vec!["a".to_string(), "b".to_string()]));
}

fn progress(e: GuiEvent) -> (u8, String) {
    match e {
        GuiEvent::Progress { percent, message } => (percent, message),
        other => panic!("unexpected {:?}", other),
    }
}

#[test]
fn progress_events() {
    assert_eq!(progress(preparing_event(3)), (0, "准备处理 3 个 ASS 文件".to_string()));
    assert_eq!(progress(progress_event(42)), (42, "处理进度 42%".to_string()));
    assert_eq!(progress(scanning_event(2)), (10, "开始扫描 2 个字体目录".to_string()));
}

#[test]
fn finished_runs() {
    let summary = TaskSummary { title: "t".to_string(), lines: vec![] };
    assert!(matches!(run_finished_event(Ok(summary.clone()), true), GuiEvent::Finished(s) if s == summary));
    let interrupted = Err(("process was interrupted".to_string(), "chain".to_string()));
    assert!(matches!(run_finished_event(interrupted, true), GuiEvent::Cancelled(m) if m == "任务已取消。"));
    let failed = Err(("boom".to_string(), "ctx: boom".to_string()));
    assert!(matches!(run_finished_event(failed.clone(), true), GuiEvent::Failed(m) if m == "ctx: boom"));
    assert!(matches!(run_finished_event(failed, false), GuiEvent::Cancelled(_)));
}

fn entry(output: bool, missing: &[&str], samples: usize, errors: usize) -> ProcessReportEntry {
    ProcessReportEntry {
        output_ass: if output { Some("o.ass".to_string()) } else { None },
        missing_fonts: missing.iter().map(|s| s.to_string()).collect(),
        missing_sample_index: vec![0; samples],
        error_index: vec![0; errors],
    }
}

#[test]
fn process_summary_counts_report_entries() {
    let entries = vec![
        entry(true, &["Zed", "Alpha"], 1, 0),
        entry(false, &["Alpha", "B", "C", "D", "E", "F"], 0, 2),
    ];
    let s = summarize_process(2, "/out", true, "/out/run-report.json", Some(entries));
    assert_eq!(s.title, "ASS 处理完成");
    assert_eq!(
        s.lines,
        vec![
            "处理文件数: 2".to_string(),
            "输出目录: /out".to_string(),
            "报告文件: /out/run-report.json".to_string(),
            "成功输出: 1".to_string(),
            "缺字样本文件: 1".to_string(),
            "覆盖错误文件: 1".to_string(),
            "缺失字体: Alpha, B, C, D, E, F".to_string(),
        ]
    );
    let s = summarize_process(5, "/out", false, "/out/run-report.json", None);
    assert_eq!(s.lines, vec!["处理文件数: 5".to_string(), "输出目录: /out".to_string()]);
}

#[test]
fn build_summary() {
    let s = summarize_build("/o/fonts.index.json", Some(12));
    assert_eq!(s.title, "字体索引构建完成");
    assert_eq!(s.lines, vec!["索引字体数: 12".to_string(), "索引文件: /o/fonts.index.json".to_string()]);
    assert_eq!(summarize_build("/i", None).lines, vec!["索引文件: /i".to_string()]);
}
