use assfonts::gui_backend::{GuiEvent, TaskSummary};
use assfonts::ui_state::{
    append_path, build_build_options, build_run_options, merge_paths, BuildFormState, ProcessFormState,
    RunningTask, TaskPanelState,
};

#[test]
fn form_defaults() {
    let p = ProcessFormState::default();
    assert_eq!(p.output_dir, ".");
    assert_eq!(p.db_path, ".");
    assert!(p.strict && p.report && !p.force);
    let b = BuildFormState::default();
    assert_eq!(b.output_dir, ".");
    assert!(b.font_paths.is_empty());
}

#[test]
fn run_options_from_the_form() {
    let mut form = ProcessFormState::default();
    assert_eq!(build_run_options(&form, 3).unwrap_err(), "输入路径不能为空");
    form.input_paths = "a.ass | b.ass".to_string();
    assert_eq!(build_run_options(&form, 0).unwrap_err(), "未找到可处理的 ASS 文件");
    form.output_dir = "  out ".to_string();
    form.db_path = "   ".to_string();
    let o = build_run_options(&form, 2).unwrap();
    assert_eq!(o.inputs, vec!["a.ass".to_string(), "b.ass".to_string()]);
    assert_eq!(o.output, "out");
    assert_eq!(o.dbpath, ".");
    assert!(o.fontpaths.is_none());
    form.font_paths = "f1\nf2".to_string();
    let o = build_run_options(&form, 2).unwrap();
    assert_eq!(o.fontpaths, Some(vec!["f1".to_string(), "f2".to_string()]));
    assert!(o.report && o.strict);
}

#[test]
fn build_options_from_the_form() {
    let mut form = BuildFormState::default();
    assert_eq!(build_build_options(&form).unwrap_err(), "字体目录不能为空");
    form.font_paths = "/fonts".to_string();
    let o = build_build_options(&form).unwrap();
    assert_eq!(o.fontpaths, vec!["/fonts".to_string()]);
    assert_eq!(o.output, ".");
}

#[test]
fn merging_and_appending_paths() {
    assert_eq!(
        merge_paths("a|b", &["b".to_string(), "c".to_string(), "c".to_string()]),
        "a\nb\nc"
    );
    assert_eq!(merge_paths("", &[]), "");
    assert_eq!(append_path("", &["x".to_string(), "".to_string(), "y".to_string()]), "x|y");
    assert_eq!(append_path("w", &["x".to_string()]), "w|x");
}

#[test]
fn task_panel_follows_events() {
    let mut panel = TaskPanelState::idle();
    assert!(!panel.running);
    assert_eq!(panel.status, "准备就绪。");
    panel.start(RunningTask::Process, "go");
    assert!(panel.running);
    assert_eq!(panel.current_task, Some(RunningTask::Process));
    assert!(!panel.apply_event(GuiEvent::Progress { percent: 40, message: "p".to_string() }));
    assert_eq!(panel.progress, 40);
    panel.request_cancel();
    assert_eq!(panel.status, "正在请求取消任务...");
    let summary = TaskSummary { title: "done".to_string(), lines: vec!["l".to_string()] };
    assert!(panel.apply_event(GuiEvent::Finished(summary.clone())));
    assert!(!panel.running);
    assert_eq!(panel.progress, 100);
    assert_eq!(panel.status, "done");
    assert_eq!(panel.summary, Some(summary));
    assert!(panel.apply_event(GuiEvent::Failed("bad".to_string())));
    assert_eq!(panel.status, "任务执行失败。");
    assert_eq!(panel.error, Some("bad".to_string()));
    assert!(panel.apply_event(GuiEvent::Cancelled("stopped".to_string())));
    assert_eq!(panel.error, None);
    panel.reject_form(RunningTask::BuildIndex, "e".to_string());
    assert_eq!(panel.status, "表单校验失败。");
    assert_eq!(panel.current_task, Some(RunningTask::BuildIndex));
}
