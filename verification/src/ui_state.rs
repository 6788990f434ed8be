//! The state of the desktop front end: its two forms, the options they
//! give, and the task panel as the events of a task change it.

use vstd::prelude::*;
use crate::cli::{BuildOptions, RunOptions};
use crate::font::strings_view;
use crate::gui_backend::{GuiEvent, TaskSummary, ensure_non_empty_paths, parse_path_list, spec_path_list};
use crate::error::join;
use crate::text::{chars_of, string_from_chars, trim, trim_chars};

verus! {

/// The workspace shown.
#[derive(Debug, Clone, Copy, PartialEq, Eq, Structural)]
pub enum WorkspaceTab {
    Process,
    BuildIndex,
}

/// The kind of task that runs.
#[derive(Debug, Clone, Copy, PartialEq, Eq, Structural)]
pub enum RunningTask {
    Process,
    BuildIndex,
}

/// The form of a run over scripts, as the user filled it in.
#[derive(Debug, Clone)]
pub struct ProcessFormState {
    pub input_paths: String,
    pub output_dir: String,
    pub font_paths: String,
    pub db_path: String,
    pub strict: bool,
    pub allow_missing_sample: bool,
    pub allow_missing_fonts: bool,
    pub report: bool,
    pub force: bool,
}

impl Default for ProcessFormState {
    /// An empty form: output and index in the current directory, strict,
    /// with a report.
    fn default() -> (r: Self)
        ensures
            r.input_paths@ == Seq::<char>::empty(),
            r.output_dir@ == "."@,
            r.font_paths@ == Seq::<char>::empty(),
            r.db_path@ == "."@,
            r.strict,
            !r.allow_missing_sample,
            !r.allow_missing_fonts,
            r.report,
            !r.force,
    {
        ProcessFormState {
            input_paths: String::new(),
            output_dir: string_from_chars(&chars_of(".")),
            font_paths: String::new(),
            db_path: string_from_chars(&chars_of(".")),
            strict: true,
            allow_missing_sample: false,
            allow_missing_fonts: false,
            report: true,
            force: false,
        }
    }
}

/// The form of an index build, as the user filled it in.
#[derive(Debug, Clone)]
pub struct BuildFormState {
    pub font_paths: String,
    pub output_dir: String,
}

impl Default for BuildFormState {
    /// An empty form, writing to the current directory.
    fn default() -> (r: Self)
        ensures
            r.font_paths@ == Seq::<char>::empty(),
            r.output_dir@ == "."@,
    {
        BuildFormState { font_paths: String::new(), output_dir: string_from_chars(&chars_of(".")) }
    }
}

/// A directory field: the trimmed text, or `.` where it is blank.
pub open spec fn dir_or_current(s: Seq<char>) -> Seq<char> {
    if trim(s).len() == 0 {
        "."@
    } else {
        trim(s)
    }
}

/// The text of a directory field, trimmed, or `.` where it is blank.
fn directory_field(s: &str) -> (r: String)
    ensures
        r@ == dir_or_current(s@),
{
    let t = trim_chars(&chars_of(s));
    if t.len() == 0 {
        string_from_chars(&chars_of("."))
    } else {
        string_from_chars(&t)
    }
}

/// The options of a run from its form, given how many scripts the listed
/// inputs hold: an error where no input is listed or no script is found.
pub fn build_run_options(form: &ProcessFormState, input_count: usize) -> (r: Result<RunOptions, String>)
    ensures
        spec_path_list(form.input_paths@).len() == 0 ==> (r matches Err(m) && m@ == "输入路径"@ + "不能为空"@),
        spec_path_list(form.input_paths@).len() > 0 && input_count == 0 ==> (r matches Err(m) && m@
            == "未找到可处理的 ASS 文件"@),
        r matches Ok(o) ==> {
            &&& strings_view(o.inputs@) == spec_path_list(form.input_paths@)
            &&& input_count > 0
            &&& o.output@ == dir_or_current(form.output_dir@)
            &&& o.dbpath@ == dir_or_current(form.db_path@)
            &&& (if spec_path_list(form.font_paths@).len() == 0 {
                o.fontpaths is None
            } else {
                o.fontpaths matches Some(f) && strings_view(f@) == spec_path_list(form.font_paths@)
            })
            &&& o.strict == form.strict
            &&& o.allow_missing_sample == form.allow_missing_sample
            &&& o.allow_missing_fonts == form.allow_missing_fonts
            &&& !o.allow_error_fonts
            &&& o.report == form.report
            &&& o.force == form.force
        },
        spec_path_list(form.input_paths@).len() > 0 && input_count > 0 ==> r is Ok,
{
    let inputs = match ensure_non_empty_paths(form.input_paths.as_str(), "输入路径") {
        Ok(v) => v,
        Err(m) => return Err(m),
    };
    if input_count == 0 {
        return Err(string_from_chars(&chars_of("未找到可处理的 ASS 文件")));
    }
    let paths = parse_path_list(form.font_paths.as_str());
    let fontpaths = if paths.len() == 0 { None } else { Some(paths) };
    Ok(RunOptions {
        inputs,
        output: directory_field(form.output_dir.as_str()),
        fontpaths,
        dbpath: directory_field(form.db_path.as_str()),
        strict: form.strict,
        allow_missing_sample: form.allow_missing_sample,
        allow_missing_fonts: form.allow_missing_fonts,
        allow_error_fonts: false,
        report: form.report,
        force: form.force,
    })
}

/// The options of an index build from its form: an error where no font
/// directory is listed.
pub fn build_build_options(form: &BuildFormState) -> (r: Result<BuildOptions, String>)
    ensures
        spec_path_list(form.font_paths@).len() == 0 ==> (r matches Err(m) && m@ == "字体目录"@ + "不能为空"@),
        spec_path_list(form.font_paths@).len() > 0 ==> (r matches Ok(o) && strings_view(o.fontpaths@)
            == spec_path_list(form.font_paths@) && o.output@ == dir_or_current(form.output_dir@)),
{
    let fontpaths = match ensure_non_empty_paths(form.font_paths.as_str(), "字体目录") {
        Ok(v) => v,
        Err(m) => return Err(m),
    };
    Ok(BuildOptions { fontpaths, output: directory_field(form.output_dir.as_str()) })
}

/// The paths of `existing`, then each of the first `i` new paths that is
/// not among those before it.
pub open spec fn merged_upto(existing: Seq<Seq<char>>, new_paths: Seq<Seq<char>>, i: int) -> Seq<Seq<char>>
    decreases i,
{
    if i <= 0 {
        existing
    } else {
        let prev = merged_upto(existing, new_paths, i - 1);
        if prev.contains(new_paths[i - 1]) {
            prev
        } else {
            prev.push(new_paths[i - 1])
        }
    }
}

/// Whether `v` holds `s`.
fn contains_string(v: &Vec<String>, s: &str) -> (r: bool)
    ensures
        r == strings_view(v@).contains(s@),
{
    let target = chars_of(s);
    let mut k: usize = 0;
    while k < v.len()
        invariant
            k <= v@.len(),
            target@ == s@,
            forall|j: int| 0 <= j < k ==> strings_view(v@)[j] != s@,
        decreases v@.len() - k,
    {
        if crate::text::chars_eq(&chars_of(v[k].as_str()), &target) {
            assert(strings_view(v@)[k as int] == s@);
            return true;
        }
        k += 1;
    }
    false
}

/// The path list of a field with new paths added: those already listed,
/// then each new one not listed yet, one per line.
pub fn merge_paths(existing: &str, new_paths: &[String]) -> (r: String)
    ensures
        r@ == join(merged_upto(spec_path_list(existing@), strings_view(new_paths@), new_paths@.len() as int), "\n"@),
{
    let mut merged = parse_path_list(existing);
    let mut i: usize = 0;
    while i < new_paths.len()
        invariant
            i <= new_paths@.len(),
            strings_view(merged@) == merged_upto(spec_path_list(existing@), strings_view(new_paths@), i as int),
        decreases new_paths@.len() - i,
    {
        if !contains_string(&merged, new_paths[i].as_str()) {
            let ghost before = merged@;
            let item = string_from_chars(&chars_of(new_paths[i].as_str()));
            merged.push(item);
            assert(strings_view(merged@) =~= strings_view(before).push(new_paths@[i as int]@));
        }
        i += 1;
    }
    crate::error::join_strings(&merged, "\n")
}

/// The text of a path field after the first `i` chosen paths are added:
/// each non-empty path after a `|`, or alone where the field is empty.
pub open spec fn appended_upto(text: Seq<char>, paths: Seq<Seq<char>>, i: int) -> Seq<char>
    decreases i,
{
    if i <= 0 {
        text
    } else {
        let prev = appended_upto(text, paths, i - 1);
        let p = paths[i - 1];
        if p.len() == 0 {
            prev
        } else if prev.len() > 0 {
            prev + "|"@ + p
        } else {
            p
        }
    }
}

/// Adds chosen paths to a path field, separated by `|`.
pub fn append_path(text: &str, paths: &[String]) -> (r: String)
    ensures
        r@ == appended_upto(text@, strings_view(paths@), paths@.len() as int),
{
    let mut out = chars_of(text);
    let mut i: usize = 0;
    while i < paths.len()
        invariant
            i <= paths@.len(),
            out@ == appended_upto(text@, strings_view(paths@), i as int),
        decreases paths@.len() - i,
    {
        let p = chars_of(paths[i].as_str());
        if p.len() > 0 {
            if out.len() > 0 {
                let mut sep = chars_of("|");
                out.append(&mut sep);
            }
            let mut q = p;
            out.append(&mut q);
        }
        i += 1;
    }
    string_from_chars(&out)
}

/// The task panel: whether a task runs, which, its progress and status,
/// and the summary or error it ended with.
#[derive(Debug, Clone)]
pub struct TaskPanelState {
    pub running: bool,
    pub current_task: Option<RunningTask>,
    pub progress: u8,
    pub status: String,
    pub summary: Option<TaskSummary>,
    pub error: Option<String>,
}

impl TaskPanelState {
    /// The panel before any task.
    pub fn idle() -> (r: TaskPanelState)
        ensures
            !r.running,
            r.current_task is None,
            r.progress == 0,
            r.status@ == "准备就绪。"@,
            r.summary is None,
            r.error is None,
    {
        TaskPanelState {
            running: false,
            current_task: None,
            progress: 0,
            status: string_from_chars(&chars_of("准备就绪。")),
            summary: None,
            error: None,
        }
    }

    /// A task of kind `task` has started with the given status.
    pub fn start(&mut self, task: RunningTask, status: &str)
        ensures
            final(self).running,
            final(self).current_task == Some(task),
            final(self).progress == 0,
            final(self).status@ == status@,
            final(self).summary is None,
            final(self).error is None,
    {
        self.running = true;
        self.current_task = Some(task);
        self.progress = 0;
        self.status = string_from_chars(&chars_of(status));
        self.summary = None;
        self.error = None;
    }

    /// The form of a task of kind `task` did not validate.
    pub fn reject_form(&mut self, task: RunningTask, error: String)
        ensures
            !final(self).running,
            final(self).current_task == Some(task),
            final(self).progress == old(self).progress,
            final(self).status@ == "表单校验失败。"@,
            final(self).summary is None,
            final(self).error == Some(error),
    {
        self.running = false;
        self.current_task = Some(task);
        self.status = string_from_chars(&chars_of("表单校验失败。"));
        self.summary = None;
        self.error = Some(error);
    }

    /// The user asked to stop the task.
    pub fn request_cancel(&mut self)
        ensures
            final(self).running == old(self).running,
            final(self).current_task == old(self).current_task,
            final(self).progress == old(self).progress,
            final(self).status@ == "正在请求取消任务..."@,
            final(self).summary == old(self).summary,
            final(self).error == old(self).error,
    {
        self.status = string_from_chars(&chars_of("正在请求取消任务..."));
    }

    /// Takes in an event of the running task; returns whether the task is
    /// over, after which its channel and stop flag are let go.
    pub fn apply_event(&mut self, event: GuiEvent) -> (over: bool)
        ensures
            match event {
                GuiEvent::Progress { percent, message } => {
                    &&& !over
                    &&& final(self).running
                    &&& final(self).progress == percent
                    &&& final(self).status == message
                    &&& final(self).current_task == old(self).current_task
                    &&& final(self).summary == old(self).summary
                    &&& final(self).error == old(self).error
                },
                GuiEvent::Finished(summary) => {
                    &&& over
                    &&& !final(self).running
                    &&& final(self).progress == 100
                    &&& final(self).status@ == summary.title@
                    &&& final(self).summary == Some(summary)
                    &&& final(self).error is None
                    &&& final(self).current_task == old(self).current_task
                },
                GuiEvent::Cancelled(message) => {
                    &&& over
                    &&& !final(self).running
                    &&& final(self).progress == 0
                    &&& final(self).status == message
                    &&& final(self).summary is None
                    &&& final(self).error is None
                    &&& final(self).current_task == old(self).current_task
                },
                GuiEvent::Failed(message) => {
                    &&& over
                    &&& !final(self).running
                    &&& final(self).progress == 0
                    &&& final(self).status@ == "任务执行失败。"@
                    &&& final(self).summary is None
                    &&& final(self).error == Some(message)
                    &&& final(self).current_task == old(self).current_task
                },
            },
    {
        match event {
            GuiEvent::Progress { percent, message } => {
                self.running = true;
                self.progress = percent;
                self.status = message;
                false
            },
            GuiEvent::Finished(summary) => {
                self.running = false;
                self.progress = 100;
                self.status = string_from_chars(&chars_of(summary.title.as_str()));
                self.summary = Some(summary);
                self.error = None;
                true
            },
            GuiEvent::Cancelled(message) => {
                self.running = false;
                self.status = message;
                self.progress = 0;
                self.summary = None;
                self.error = None;
                true
            },
            GuiEvent::Failed(message) => {
                self.running = false;
                self.status = string_from_chars(&chars_of("任务执行失败。"));
                self.progress = 0;
                self.summary = None;
                self.error = Some(message);
                true
            },
        }
    }
}

} // verus!
