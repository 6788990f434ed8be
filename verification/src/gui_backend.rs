//! What the desktop front end shows: the path lists it reads from its text
//! fields, the events of a running task, and the summaries of finished ones.

use vstd::prelude::*;
use crate::font::{chars_view, insert_sorted, insert_sorted_chars, strings_view};
use crate::error::join;
use crate::text::{
    chars_of, contains, decimal, first_char_from, lemma_first_char_from, lemma_trim_end_bounds, lemma_trim_start_bounds,
    nat_to_chars, split, split_from, split_ranges, string_from_chars, trim, trim_end_from, trim_ranges, trim_start_from,
};

verus! {

/// What a running task tells the front end.
#[derive(Debug, Clone)]
pub enum GuiEvent {
    /// Progress in percent, with a message.
    Progress { percent: u8, message: String },
    /// The task is done.
    Finished(TaskSummary),
    /// The task was stopped.
    Cancelled(String),
    /// The task failed.
    Failed(String),
}

/// The summary of a finished task: a title and lines of detail.
#[derive(Debug, Clone, PartialEq, Eq)]
pub struct TaskSummary {
    pub title: String,
    pub lines: Vec<String>,
}

/// One entry of a run report, as the summary reads it.
#[derive(Debug, Clone)]
pub struct ProcessReportEntry {
    pub output_ass: Option<String>,
    pub missing_fonts: Vec<String>,
    pub missing_sample_index: Vec<usize>,
    pub error_index: Vec<usize>,
}

/// `s` with each `|` turned into a line break.
pub open spec fn pipes_as_breaks(s: Seq<char>) -> Seq<char> {
    s.map_values(|c: char| if c == '|' { '\n' } else { c })
}

/// The non-empty pieces among the first `i`.
pub open spec fn non_empty_upto(ps: Seq<Seq<char>>, i: int) -> Seq<Seq<char>>
    decreases i,
{
    if i <= 0 {
        Seq::empty()
    } else if ps[i - 1].len() > 0 {
        non_empty_upto(ps, i - 1).push(ps[i - 1])
    } else {
        non_empty_upto(ps, i - 1)
    }
}

/// The paths of a text field: the pieces between line breaks and `|`,
/// trimmed, without the empty ones.
pub open spec fn spec_path_list(value: Seq<char>) -> Seq<Seq<char>> {
    let pieces = split(pipes_as_breaks(value), '\n');
    let trimmed = Seq::new(pieces.len(), |i: int| trim(pieces[i]));
    non_empty_upto(trimmed, trimmed.len() as int)
}

/// The paths listed in a text field, separated by line breaks or `|`,
/// each trimmed; empty ones are dropped.
pub fn parse_path_list(value: &str) -> (r: Vec<String>)
    ensures
        strings_view(r@) == spec_path_list(value@),
{
    let chars = chars_of(value);
    let mut s: Vec<char> = Vec::new();
    let mut i: usize = 0;
    while i < chars.len()
        invariant
            i <= chars@.len(),
            chars@ == value@,
            s@ == pipes_as_breaks(chars@.take(i as int)),
        decreases chars@.len() - i,
    {
        let c = chars[i];
        s.push(if c == '|' { '\n' } else { c });
        assert(pipes_as_breaks(chars@.take(i + 1)) =~= pipes_as_breaks(chars@.take(i as int)).push(
            if c == '|' { '\n' } else { c },
        ));
        i += 1;
    }
    assert(chars@.take(chars@.len() as int) =~= chars@);
    let ghost pieces = split(s@, '\n');
    let ghost trimmed = Seq::new(pieces.len(), |k: int| trim(pieces[k]));
    assert(s@.subrange(0, s@.len() as int) =~= s@);
    let ranges = split_ranges(&s, 0, s.len(), '\n');
    let kept = trim_ranges(&s, &ranges);
    let mut out: Vec<String> = Vec::new();
    let mut k: usize = 0;
    while k < kept.len()
        invariant
            k <= kept@.len(),
            kept@.len() == trimmed.len(),
            forall|j: int| 0 <= j < kept@.len() ==> (#[trigger] kept@[j]).0 <= kept@[j].1 <= s@.len() && s@.subrange(
                kept@[j].0 as int,
                kept@[j].1 as int,
            ) == trimmed[j],
            strings_view(out@) == non_empty_upto(trimmed, k as int),
        decreases kept@.len() - k,
    {
        let (a, b) = kept[k];
        if b > a {
            let mut piece: Vec<char> = Vec::new();
            let mut j: usize = a;
            while j < b
                invariant
                    a <= j <= b <= s@.len(),
                    piece@ == s@.subrange(a as int, j as int),
                decreases b - j,
            {
                piece.push(s[j]);
                j += 1;
            }
            let text = string_from_chars(&piece);
            let ghost before = out@;
            out.push(text);
            assert(strings_view(out@) =~= strings_view(before).push(text@));
        }
        k += 1;
    }
    out
}

/// No character of `t` is `c`.
pub open spec fn free_of(t: Seq<char>, c: char) -> bool {
    forall|i: int| 0 <= i < t.len() ==> t[i] != c
}

/// A path as the list gives it: trimmed, without line breaks or `|`.
pub open spec fn clean_path(t: Seq<char>) -> bool {
    &&& trim(t) == t
    &&& free_of(t, '\n')
    &&& free_of(t, '|')
}

proof fn lemma_split_free(s: Seq<char>, sep: char, p: int, c: char)
    requires
        0 <= p <= s.len(),
        c == sep || free_of(s, c),
    ensures
        forall|k: int| 0 <= k < split_from(s, sep, p).len() ==> free_of(#[trigger] split_from(s, sep, p)[k], c),
    decreases s.len() - p,
{
    lemma_first_char_from(s, sep, p);
    let q = first_char_from(s, sep, p);
    let ps = split_from(s, sep, p);
    if q < s.len() {
        lemma_split_free(s, sep, q + 1, c);
        let rest = split_from(s, sep, q + 1);
        assert(ps == seq![s.subrange(p, q)] + rest);
        assert forall|k: int| 0 <= k < ps.len() implies free_of(#[trigger] ps[k], c) by {
            if k == 0 {
                assert forall|i: int| 0 <= i < ps[0].len() implies ps[0][i] != c by {
                    assert(ps[0][i] == s[p + i]);
                }
            } else {
                assert(ps[k] == rest[k - 1]);
            }
        }
    } else {
        assert forall|i: int| 0 <= i < ps[0].len() implies ps[0][i] != c by {
            assert(ps[0][i] == s[p + i]);
        }
    }
}

proof fn lemma_trim_facts(x: Seq<char>)
    ensures
        trim(trim(x)) == trim(x),
        forall|c: char| free_of(x, c) ==> free_of(#[trigger] trim(x), c),
{
    let lo = trim_start_from(x, 0);
    lemma_trim_start_bounds(x, 0);
    let hi = trim_end_from(x, lo, x.len() as int);
    lemma_trim_end_bounds(x, lo, x.len() as int);
    let y = x.subrange(lo, hi);
    assert(trim(x) == y);
    if y.len() == 0 {
        assert(y.subrange(0, 0) =~= y);
    } else {
        assert(y[0] == x[lo]);
        assert(trim_start_from(y, 0) == 0);
        assert(y[y.len() - 1] == x[hi - 1]);
        assert(trim_end_from(y, 0, y.len() as int) == y.len());
        assert(y.subrange(0, y.len() as int) =~= y);
    }
    assert forall|c: char| free_of(x, c) implies free_of(#[trigger] trim(x), c) by {
        assert forall|i: int| 0 <= i < y.len() implies y[i] != c by {
            assert(y[i] == x[lo + i]);
        }
    }
}

proof fn lemma_non_empty_clean(t: Seq<Seq<char>>, n: int)
    requires
        0 <= n <= t.len(),
        forall|i: int| 0 <= i < n ==> clean_path(#[trigger] t[i]),
    ensures
        forall|k: int| 0 <= k < non_empty_upto(t, n).len() ==> (#[trigger] non_empty_upto(t, n)[k]).len() > 0
            && clean_path(non_empty_upto(t, n)[k]),
    decreases n,
{
    if n > 0 {
        lemma_non_empty_clean(t, n - 1);
        let prev = non_empty_upto(t, n - 1);
        assert(clean_path(t[n - 1]));
        if t[n - 1].len() > 0 {
            assert forall|k: int| 0 <= k < prev.push(t[n - 1]).len() implies (#[trigger] prev.push(t[n - 1])[k]).len()
                > 0 && clean_path(prev.push(t[n - 1])[k]) by {
                if k < prev.len() {
                    assert(prev.push(t[n - 1])[k] == prev[k]);
                }
            }
        }
    }
}

proof fn lemma_non_empty_all(t: Seq<Seq<char>>, n: int)
    requires
        0 <= n <= t.len(),
        forall|i: int| 0 <= i < n ==> (#[trigger] t[i]).len() > 0,
    ensures
        non_empty_upto(t, n) == t.take(n),
    decreases n,
{
    if n > 0 {
        lemma_non_empty_all(t, n - 1);
        assert(t.take(n - 1).push(t[n - 1]) =~= t.take(n));
    } else {
        assert(t.take(0) =~= Seq::<Seq<char>>::empty());
    }
}

proof fn lemma_join_front(ps: Seq<Seq<char>>, sep: Seq<char>)
    requires
        ps.len() >= 2,
    ensures
        join(ps, sep) == ps[0] + sep + join(ps.drop_first(), sep),
    decreases ps.len(),
{
    if ps.len() == 2 {
        assert(ps.drop_last().len() == 1);
        assert(ps.drop_first().len() == 1);
        assert(join(ps.drop_first(), sep) == ps[1]);
        assert(join(ps.drop_last(), sep) == ps[0]);
    } else {
        lemma_join_front(ps.drop_last(), sep);
        assert(ps.drop_last().drop_first() =~= ps.drop_first().drop_last());
        assert(ps.drop_first().last() == ps.last());
        assert(ps.drop_last()[0] == ps[0]);
        assert(join(ps, sep) == join(ps.drop_last(), sep) + sep + ps.last());
        assert(join(ps.drop_first(), sep) == join(ps.drop_first().drop_last(), sep) + sep + ps.last());
        assert(ps[0] + sep + join(ps.drop_last().drop_first(), sep) + sep + ps.last() =~= ps[0] + sep + (join(
            ps.drop_first().drop_last(),
            sep,
        ) + sep + ps.last()));
    }
}

proof fn lemma_join_free(ps: Seq<Seq<char>>, sep: Seq<char>, c: char)
    requires
        forall|k: int| 0 <= k < ps.len() ==> free_of(#[trigger] ps[k], c),
        free_of(sep, c),
    ensures
        free_of(join(ps, sep), c),
    decreases ps.len(),
{
    if ps.len() >= 2 {
        lemma_join_free(ps.drop_last(), sep, c);
        let a = join(ps.drop_last(), sep);
        let b = ps.last();
        assert(free_of(b, c));
        assert forall|i: int| 0 <= i < (a + sep + b).len() implies (a + sep + b)[i] != c by {
            if i < a.len() {
                assert((a + sep + b)[i] == a[i]);
            } else if i < a.len() + sep.len() {
                assert((a + sep + b)[i] == sep[i - a.len()]);
            } else {
                assert((a + sep + b)[i] == b[i - a.len() - sep.len()]);
            }
        }
    } else if ps.len() == 1 {
        assert(free_of(ps[0], c));
    }
}

proof fn lemma_first_shift(x: Seq<char>, b: Seq<char>, c: char, q: int)
    requires
        0 <= q <= b.len(),
    ensures
        first_char_from(x + b, c, x.len() + q) == x.len() + first_char_from(b, c, q),
    decreases b.len() - q,
{
    if q < b.len() {
        assert((x + b)[x.len() + q] == b[q]);
        if b[q] != c {
            lemma_first_shift(x, b, c, q + 1);
        }
    }
}

proof fn lemma_split_shift(x: Seq<char>, b: Seq<char>, sep: char, q: int)
    requires
        0 <= q <= b.len(),
    ensures
        split_from(x + b, sep, x.len() + q) == split_from(b, sep, q),
    decreases b.len() - q,
{
    let s = x + b;
    lemma_first_shift(x, b, sep, q);
    lemma_first_char_from(b, sep, q);
    let k = first_char_from(b, sep, q);
    if k < b.len() {
        lemma_split_shift(x, b, sep, k + 1);
        assert(s.subrange(x.len() + q, x.len() + k) =~= b.subrange(q, k));
    } else {
        assert(s.subrange(x.len() + q, s.len() as int) =~= b.subrange(q, b.len() as int));
    }
}

proof fn lemma_split_join(ps: Seq<Seq<char>>)
    requires
        ps.len() >= 1,
        forall|k: int| 0 <= k < ps.len() ==> free_of(#[trigger] ps[k], '\n'),
    ensures
        split(join(ps, seq!['\n']), '\n') == ps,
    decreases ps.len(),
{
    let sep = seq!['\n'];
    if ps.len() == 1 {
        let a = ps[0];
        assert(join(ps, sep) == a);
        lemma_first_char_from(a, '\n', 0);
        assert(free_of(a, '\n'));
        if first_char_from(a, '\n', 0) < a.len() {
            assert(a[first_char_from(a, '\n', 0)] == '\n');
        }
        assert(a.subrange(0, a.len() as int) =~= a);
        assert(split(a, '\n') =~= ps);
    } else {
        lemma_join_front(ps, sep);
        let a = ps[0];
        let rest = ps.drop_first();
        assert forall|k: int| 0 <= k < rest.len() implies free_of(#[trigger] rest[k], '\n') by {
            assert(rest[k] == ps[k + 1]);
        }
        lemma_split_join(rest);
        let j = join(rest, sep);
        let x = a + sep;
        let s = join(ps, sep);
        assert(s == x + j);
        assert(free_of(a, '\n'));
        lemma_first_char_from(s, '\n', 0);
        let f = first_char_from(s, '\n', 0);
        assert(s[a.len() as int] == '\n');
        if f > a.len() {
            assert(s[a.len() as int] != '\n');
        }
        if f < a.len() {
            assert(s[f] == a[f]);
        }
        assert(f == a.len());
        lemma_split_shift(x, j, '\n', 0);
        assert(s.subrange(0, a.len() as int) =~= a);
        assert(split(s, '\n') == seq![a] + split(j, '\n'));
        assert(seq![a] + rest =~= ps);
    }
}

/// The paths of a text field come trimmed, non-empty and without line
/// breaks or `|`; listed one per line they read back as the same list.
pub proof fn law_path_list(value: Seq<char>)
    ensures
        forall|k: int| 0 <= k < spec_path_list(value).len() ==> (#[trigger] spec_path_list(value)[k]).len() > 0
            && clean_path(spec_path_list(value)[k]),
        spec_path_list(join(spec_path_list(value), seq!['\n'])) == spec_path_list(value),
{
    let pb = pipes_as_breaks(value);
    assert(free_of(pb, '|'));
    let pieces = split(pb, '\n');
    lemma_split_free(pb, '\n', 0, '\n');
    lemma_split_free(pb, '\n', 0, '|');
    let trimmed = Seq::new(pieces.len(), |i: int| trim(pieces[i]));
    assert forall|i: int| 0 <= i < trimmed.len() implies clean_path(#[trigger] trimmed[i]) by {
        lemma_trim_facts(pieces[i]);
        assert(free_of(pieces[i], '\n'));
        assert(free_of(pieces[i], '|'));
    }
    lemma_non_empty_clean(trimmed, trimmed.len() as int);
    let p = spec_path_list(value);
    assert(p == non_empty_upto(trimmed, trimmed.len() as int));
    let j = join(p, seq!['\n']);
    if p.len() == 0 {
        assert(j =~= Seq::<char>::empty());
        assert(pipes_as_breaks(j) =~= j);
        assert(first_char_from(j, '\n', 0) == 0);
        assert(j.subrange(0, 0) =~= Seq::<char>::empty());
        assert(split(j, '\n') == seq![j.subrange(0, 0)]);
        let sp = split(pipes_as_breaks(j), '\n');
        assert(sp.len() == 1);
        assert(sp[0] =~= Seq::<char>::empty());
        let t2 = Seq::new(sp.len(), |i: int| trim(sp[i]));
        assert(trim_start_from(Seq::<char>::empty(), 0) == 0);
        assert(trim_end_from(Seq::<char>::empty(), 0, 0) == 0);
        assert(trim(Seq::<char>::empty()) =~= Seq::<char>::empty());
        assert(t2[0].len() == 0);
        assert(non_empty_upto(t2, 0) =~= Seq::<Seq<char>>::empty());
        assert(non_empty_upto(t2, 1) =~= Seq::<Seq<char>>::empty());
        assert(spec_path_list(j) == non_empty_upto(t2, 1));
    } else {
        assert(free_of(seq!['\n'], '|'));
        lemma_join_free(p, seq!['\n'], '|');
        assert(pipes_as_breaks(j) =~= j);
        lemma_split_join(p);
        let t2 = Seq::new(p.len(), |i: int| trim(p[i]));
        assert(t2 =~= p);
        lemma_non_empty_all(p, p.len() as int);
        assert(p.take(p.len() as int) =~= p);
    }
}

/// The paths of a text field that must list at least one: the list, or an
/// error naming the field.
pub fn ensure_non_empty_paths(value: &str, field_name: &str) -> (r: Result<Vec<String>, String>)
    ensures
        spec_path_list(value@).len() == 0 ==> (r matches Err(m) && m@ == field_name@ + "不能为空"@),
        spec_path_list(value@).len() > 0 ==> (r matches Ok(v) && strings_view(v@) == spec_path_list(value@)),
{
    let paths = parse_path_list(value);
    if paths.len() == 0 {
        let mut text = chars_of(field_name);
        let mut rest = chars_of("不能为空");
        text.append(&mut rest);
        return Err(string_from_chars(&text));
    }
    Ok(paths)
}

/// `prefix` followed by the decimal digits of `n`.
fn labelled_number(prefix: &str, n: u64) -> (r: String)
    ensures
        r@ == prefix@ + decimal(n as nat),
{
    let mut text = chars_of(prefix);
    let mut digits = nat_to_chars(n);
    text.append(&mut digits);
    string_from_chars(&text)
}

/// `prefix` followed by `value`.
fn labelled_text(prefix: &str, value: &str) -> (r: String)
    ensures
        r@ == prefix@ + value@,
{
    let mut text = chars_of(prefix);
    let mut rest = chars_of(value);
    text.append(&mut rest);
    string_from_chars(&text)
}

/// The event that a run over `count` scripts begins.
pub fn preparing_event(count: usize) -> (r: GuiEvent)
    ensures
        r matches GuiEvent::Progress { percent, message } && percent == 0 && message@ == "准备处理 "@ + decimal(
            count as nat,
        ) + " 个 ASS 文件"@,
{
    let mut text = chars_of("准备处理 ");
    let mut digits = nat_to_chars(count as u64);
    text.append(&mut digits);
    let mut rest = chars_of(" 个 ASS 文件");
    text.append(&mut rest);
    GuiEvent::Progress { percent: 0, message: string_from_chars(&text) }
}

/// The event of a run's progress in percent.
pub fn progress_event(progress: u8) -> (r: GuiEvent)
    ensures
        r matches GuiEvent::Progress { percent, message } && percent == progress && message@ == "处理进度 "@
            + decimal(progress as nat) + "%"@,
{
    let mut text = chars_of("处理进度 ");
    let mut digits = nat_to_chars(progress as u64);
    text.append(&mut digits);
    let mut rest = chars_of("%");
    text.append(&mut rest);
    GuiEvent::Progress { percent: progress, message: string_from_chars(&text) }
}

/// The event that an index build over `dirs` font directories begins.
pub fn scanning_event(dirs: usize) -> (r: GuiEvent)
    ensures
        r matches GuiEvent::Progress { percent, message } && percent == 10 && message@ == "开始扫描 "@ + decimal(
            dirs as nat,
        ) + " 个字体目录"@,
{
    let mut text = chars_of("开始扫描 ");
    let mut digits = nat_to_chars(dirs as u64);
    text.append(&mut digits);
    let mut rest = chars_of(" 个字体目录");
    text.append(&mut rest);
    GuiEvent::Progress { percent: 10, message: string_from_chars(&text) }
}

/// The event that ends a run: its summary where it succeeded; where it
/// failed, a cancellation if the task was stopped or the error says the
/// run was interrupted, else the failure with the error's full chain.
pub fn run_finished_event(outcome: Result<TaskSummary, (String, String)>, still_running: bool) -> (r: GuiEvent)
    ensures
        match outcome {
            Ok(s) => r == GuiEvent::Finished(s),
            Err((message, chain)) => if !still_running || contains(message@, "process was interrupted"@) {
                r matches GuiEvent::Cancelled(t) && t@ == "任务已取消。"@
            } else {
                r == GuiEvent::Failed(chain)
            },
        },
{
    match outcome {
        Ok(summary) => GuiEvent::Finished(summary),
        Err((message, chain)) => {
            if !still_running || crate::text::str_contains(message.as_str(), "process was interrupted") {
                GuiEvent::Cancelled(string_from_chars(&chars_of("任务已取消。")))
            } else {
                GuiEvent::Failed(chain)
            }
        },
    }
}

/// The distinct missing fonts of the first `i` report entries, sorted.
pub open spec fn distinct_fonts_upto(entries: Seq<ProcessReportEntry>, i: int) -> Seq<Seq<char>>
    decreases i,
{
    if i <= 0 {
        Seq::empty()
    } else {
        insert_all(distinct_fonts_upto(entries, i - 1), strings_view(entries[i - 1].missing_fonts@), entries[i - 1].missing_fonts@.len() as int)
    }
}

/// `s` with the first `k` of `xs` inserted in their places.
pub open spec fn insert_all(s: Seq<Seq<char>>, xs: Seq<Seq<char>>, k: int) -> Seq<Seq<char>>
    decreases k,
{
    if k <= 0 {
        s
    } else {
        insert_sorted(insert_all(s, xs, k - 1), xs[k - 1])
    }
}

/// How many of the first `i` entries satisfy `p`.
pub open spec fn count_upto(entries: Seq<ProcessReportEntry>, p: spec_fn(ProcessReportEntry) -> bool, i: int) -> nat
    decreases i,
{
    if i <= 0 {
        0
    } else {
        count_upto(entries, p, i - 1) + if p(entries[i - 1]) { 1nat } else { 0nat }
    }
}

/// The lines of a run's summary.
pub open spec fn spec_process_lines(
    ass_count: nat,
    output_dir: Seq<char>,
    report_found: bool,
    report_path: Seq<char>,
    entries: Option<Seq<ProcessReportEntry>>,
) -> Seq<Seq<char>> {
    let head = seq!["处理文件数: "@ + decimal(ass_count), "输出目录: "@ + output_dir];
    if !report_found {
        head
    } else {
        let with_path = head.push("报告文件: "@ + report_path);
        match entries {
            None => with_path,
            Some(es) => {
                let n = es.len() as int;
                let completed = count_upto(es, |e: ProcessReportEntry| e.output_ass is Some, n);
                let samples = count_upto(es, |e: ProcessReportEntry| e.missing_sample_index@.len() > 0, n);
                let errors = count_upto(es, |e: ProcessReportEntry| e.error_index@.len() > 0, n);
                let counts = with_path.push("成功输出: "@ + decimal(completed)).push("缺字样本文件: "@ + decimal(samples)).push(
                    "覆盖错误文件: "@ + decimal(errors),
                );
                let fonts = distinct_fonts_upto(es, n);
                if fonts.len() == 0 {
                    counts
                } else {
                    counts.push("缺失字体: "@ + join(fonts.take(if fonts.len() < 6 { fonts.len() as int } else { 6 }), ", "@))
                }
            },
        }
    }
}

/// The summary of a finished run over `ass_count` scripts. Where a report
/// was asked for and found (`report_found`), it names it, and where it
/// could be read (`entries`), it counts the scripts written, those whose
/// fonts lack characters and those with font errors, and lists the first
/// six of the missing fonts in order.
pub fn summarize_process(
    ass_count: usize,
    output_dir: &str,
    report_found: bool,
    report_path: &str,
    entries: Option<Vec<ProcessReportEntry>>,
) -> (r: TaskSummary)
    ensures
        r.title@ == "ASS 处理完成"@,
        strings_view(r.lines@) == spec_process_lines(
            ass_count as nat,
            output_dir@,
            report_found,
            report_path@,
            match entries {
                Some(v) => Some(v@),
                None => None,
            },
        ),
{
    let mut lines: Vec<String> = Vec::new();
    lines.push(labelled_number("处理文件数: ", ass_count as u64));
    lines.push(labelled_text("输出目录: ", output_dir));
    let title = string_from_chars(&chars_of("ASS 处理完成"));
    if !report_found {
        assert(strings_view(lines@) =~= seq!["处理文件数: "@ + decimal(ass_count as nat), "输出目录: "@ + output_dir@]);
        return TaskSummary { title, lines };
    }
    lines.push(labelled_text("报告文件: ", report_path));
    let es = match entries {
        None => {
            assert(strings_view(lines@) =~= seq!["处理文件数: "@ + decimal(ass_count as nat), "输出目录: "@ + output_dir@].push(
                "报告文件: "@ + report_path@,
            ));
            return TaskSummary { title, lines };
        },
        Some(v) => v,
    };
    let ghost sv = es@;
    let mut completed: u64 = 0;
    let mut samples: u64 = 0;
    let mut errors: u64 = 0;
    let mut fonts: Vec<Vec<char>> = Vec::new();
    let mut i: usize = 0;
    while i < es.len()
        invariant
            i <= es@.len(),
            sv == es@,
            completed == count_upto(sv, |e: ProcessReportEntry| e.output_ass is Some, i as int),
            samples == count_upto(sv, |e: ProcessReportEntry| e.missing_sample_index@.len() > 0, i as int),
            errors == count_upto(sv, |e: ProcessReportEntry| e.error_index@.len() > 0, i as int),
            completed <= i && samples <= i && errors <= i,
            chars_view(fonts@) == distinct_fonts_upto(sv, i as int),
        decreases es@.len() - i,
    {
        let entry = &es[i];
        if entry.output_ass.is_some() {
            completed += 1;
        }
        if entry.missing_sample_index.len() > 0 {
            samples += 1;
        }
        if entry.error_index.len() > 0 {
            errors += 1;
        }
        let ghost start = chars_view(fonts@);
        let mut k: usize = 0;
        while k < entry.missing_fonts.len()
            invariant
                k <= entry.missing_fonts@.len(),
                chars_view(fonts@) == insert_all(start, strings_view(entry.missing_fonts@), k as int),
            decreases entry.missing_fonts@.len() - k,
        {
            insert_sorted_chars(&mut fonts, chars_of(entry.missing_fonts[k].as_str()));
            k += 1;
        }
        i += 1;
    }
    lines.push(labelled_number("成功输出: ", completed));
    lines.push(labelled_number("缺字样本文件: ", samples));
    lines.push(labelled_number("覆盖错误文件: ", errors));
    let ghost counts = strings_view(lines@);
    if fonts.len() > 0 {
        let shown: usize = if fonts.len() < 6 { fonts.len() } else { 6 };
        let mut preview: Vec<char> = Vec::new();
        let mut k: usize = 0;
        while k < shown
            invariant
                k <= shown <= fonts@.len(),
                preview@ == join(chars_view(fonts@).take(k as int), ", "@),
            decreases shown - k,
        {
            if k > 0 {
                let mut sep = chars_of(", ");
                preview.append(&mut sep);
            }
            let mut item: Vec<char> = Vec::new();
            let mut j: usize = 0;
            while j < fonts[k].len()
                invariant
                    k < fonts@.len(),
                    j <= fonts@[k as int]@.len(),
                    item@ == fonts@[k as int]@.take(j as int),
                decreases fonts@[k as int]@.len() - j,
            {
                item.push(fonts[k][j]);
                assert(fonts@[k as int]@.take(j + 1) =~= fonts@[k as int]@.take(j as int).push(fonts@[k as int]@[j as int]));
                j += 1;
            }
            assert(fonts@[k as int]@.take(fonts@[k as int]@.len() as int) =~= fonts@[k as int]@);
            preview.append(&mut item);
            assert(chars_view(fonts@).take(k + 1).drop_last() =~= chars_view(fonts@).take(k as int));
            k += 1;
        }
        lines.push(labelled_text("缺失字体: ", string_from_chars(&preview).as_str()));
    }
    TaskSummary { title, lines }
}

/// The summary of a finished index build: the index file, and the number
/// of fonts in it where that could be read.
pub fn summarize_build(index_path: &str, total_fonts: Option<usize>) -> (r: TaskSummary)
    ensures
        r.title@ == "字体索引构建完成"@,
        strings_view(r.lines@) == match total_fonts {
            Some(n) => seq!["索引字体数: "@ + decimal(n as nat), "索引文件: "@ + index_path@],
            None => seq!["索引文件: "@ + index_path@],
        },
{
    let mut lines: Vec<String> = Vec::new();
    match total_fonts {
        Some(n) => {
            lines.push(labelled_number("索引字体数: ", n as u64));
            lines.push(labelled_text("索引文件: ", index_path));
        },
        None => {
            lines.push(labelled_text("索引文件: ", index_path));
        },
    }
    let ghost l = strings_view(lines@);
    assert(strings_view(lines@) =~= match total_fonts {
        Some(n) => seq!["索引字体数: "@ + decimal(n as nat), "索引文件: "@ + index_path@],
        None => seq!["索引文件: "@ + index_path@],
    });
    TaskSummary { title: string_from_chars(&chars_of("字体索引构建完成")), lines }
}

} // verus!
