//! The errors of a run, their messages and their chains of causes.

use vstd::prelude::*;
use crate::font::strings_view;
use crate::subset::{SubsetFailure, failure_message};
use crate::text::{chars_of, string_from_chars};

verus! {

/// What can stop a build or a run.
#[derive(Debug)]
pub enum AssfontsError {
    /// A file could not be read or written; the system's account.
    Io(String),
    /// The font index is no valid JSON; the parser's account.
    Json(String),
    /// A font directory that does not exist.
    MissingFontPath(String),
    /// Neither font directories nor an index in this directory.
    MissingFontSource(String),
    /// The output path exists and is no directory.
    InvalidOutputDir(String),
    /// A font could not be used.
    Font(String),
    /// The script (first) asks for the fonts (second) that no font serves.
    MissingFonts(String, Vec<String>),
    /// Loading or subsetting a font failed.
    Subset(SubsetFailure),
    /// The output file exists and overwriting was not asked for.
    FileExists(String),
    /// The run was stopped.
    Interrupted,
    /// The error (second) in the setting that the text (first) names.
    Context(String, Box<AssfontsError>),
}

/// The text `{:?}` makes of a list of strings.
pub uninterp spec fn debug_list_text(items: Seq<Seq<char>>) -> Seq<char>;

/// Formats a list of strings as `{:?}` does (`["a", "b"]`). The contract
/// names the result.
#[verifier::external_body]
pub(crate) fn debug_list(items: &Vec<String>) -> (r: String)
    ensures
        r@ == debug_list_text(strings_view(items@)),
{
    format!("{:?}", items)
}

/// The message of an error: for an error in a setting, the setting's text.
pub open spec fn error_message(e: AssfontsError) -> Seq<char> {
    match e {
        AssfontsError::Io(s) => "io error: "@ + s@,
        AssfontsError::Json(s) => "json error: "@ + s@,
        AssfontsError::MissingFontPath(p) => "font path does not exist: "@ + p@,
        AssfontsError::MissingFontSource(p) => "no font source available: provide --fontpath or a valid fonts.index.json in "@
            + p@,
        AssfontsError::InvalidOutputDir(p) => "output directory is invalid: "@ + p@,
        AssfontsError::Font(s) => "font processing error: "@ + s@,
        AssfontsError::MissingFonts(p, fonts) => "missing required fonts: "@ + debug_list_text(strings_view(fonts@))
            + ", referenced in "@ + p@,
        AssfontsError::Subset(f) => failure_message(f@),
        AssfontsError::FileExists(p) => "file already exists: "@ + p@,
        AssfontsError::Interrupted => "process was interrupted"@,
        AssfontsError::Context(c, _) => c@,
    }
}

/// The messages of an error and of its causes, outermost first: a setting,
/// then the error in it; a system, parser or subsetter error, then its own
/// account.
pub open spec fn error_chain(e: AssfontsError) -> Seq<Seq<char>>
    decreases e,
{
    match e {
        AssfontsError::Context(c, inner) => seq![c@] + error_chain(*inner),
        AssfontsError::Io(s) => seq![error_message(e), s@],
        AssfontsError::Json(s) => seq![error_message(e), s@],
        AssfontsError::Subset(f) => seq![error_message(e), f.detail@],
        _ => seq![error_message(e)],
    }
}

/// `a` then `b`.
fn append_str(out: &mut Vec<char>, s: &str)
    ensures
        final(out)@ == old(out)@ + s@,
{
    let mut t = chars_of(s);
    out.append(&mut t);
}

impl AssfontsError {
    /// The error in the setting that `context` names.
    pub fn in_context(context: String, inner: AssfontsError) -> (r: AssfontsError)
        ensures
            r == AssfontsError::Context(context, Box::new(inner)),
    {
        AssfontsError::Context(context, Box::new(inner))
    }

    /// The error's message.
    pub fn message(&self) -> (r: String)
        ensures
            r@ == error_message(*self),
    {
        let mut out: Vec<char> = Vec::new();
        match self {
            AssfontsError::Io(s) => {
                append_str(&mut out, "io error: ");
                append_str(&mut out, s.as_str());
            },
            AssfontsError::Json(s) => {
                append_str(&mut out, "json error: ");
                append_str(&mut out, s.as_str());
            },
            AssfontsError::MissingFontPath(p) => {
                append_str(&mut out, "font path does not exist: ");
                append_str(&mut out, p.as_str());
            },
            AssfontsError::MissingFontSource(p) => {
                append_str(&mut out, "no font source available: provide --fontpath or a valid fonts.index.json in ");
                append_str(&mut out, p.as_str());
            },
            AssfontsError::InvalidOutputDir(p) => {
                append_str(&mut out, "output directory is invalid: ");
                append_str(&mut out, p.as_str());
            },
            AssfontsError::Font(s) => {
                append_str(&mut out, "font processing error: ");
                append_str(&mut out, s.as_str());
            },
            AssfontsError::MissingFonts(p, fonts) => {
                append_str(&mut out, "missing required fonts: ");
                let list = debug_list(fonts);
                append_str(&mut out, list.as_str());
                append_str(&mut out, ", referenced in ");
                append_str(&mut out, p.as_str());
            },
            AssfontsError::Subset(f) => {
                let m = f.message();
                append_str(&mut out, m.as_str());
            },
            AssfontsError::FileExists(p) => {
                append_str(&mut out, "file already exists: ");
                append_str(&mut out, p.as_str());
            },
            AssfontsError::Interrupted => {
                append_str(&mut out, "process was interrupted");
            },
            AssfontsError::Context(c, _) => {
                append_str(&mut out, c.as_str());
            },
        }
        string_from_chars(&out)
    }

    /// The messages of the error and of its causes, outermost first.
    pub fn messages(&self) -> (r: Vec<String>)
        ensures
            strings_view(r@) == error_chain(*self),
        decreases *self,
    {
        let mut out: Vec<String> = Vec::new();
        match self {
            AssfontsError::Context(c, inner) => {
                out.push(string_from_chars(&chars_of(c.as_str())));
                let mut rest = inner.messages();
                let ghost a = out@;
                let ghost b = rest@;
                out.append(&mut rest);
                assert(strings_view(out@) =~= strings_view(a) + strings_view(b));
            },
            AssfontsError::Io(s) => {
                out.push(self.message());
                out.push(string_from_chars(&chars_of(s.as_str())));
            },
            AssfontsError::Json(s) => {
                out.push(self.message());
                out.push(string_from_chars(&chars_of(s.as_str())));
            },
            AssfontsError::Subset(f) => {
                out.push(self.message());
                out.push(string_from_chars(&chars_of(f.detail.as_str())));
            },
            _ => {
                out.push(self.message());
            },
        }
        assert(strings_view(out@) =~= error_chain(*self));
        out
    }
}

/// The parts joined by `sep`.
pub open spec fn join(parts: Seq<Seq<char>>, sep: Seq<char>) -> Seq<char>
    decreases parts.len(),
{
    if parts.len() == 0 {
        Seq::empty()
    } else if parts.len() == 1 {
        parts[0]
    } else {
        join(parts.drop_last(), sep) + sep + parts.last()
    }
}

/// The strings joined by `sep`.
pub fn join_strings(parts: &Vec<String>, sep: &str) -> (r: String)
    ensures
        r@ == join(strings_view(parts@), sep@),
{
    let mut out: Vec<char> = Vec::new();
    let mut i: usize = 0;
    while i < parts.len()
        invariant
            i <= parts@.len(),
            out@ == join(strings_view(parts@).take(i as int), sep@),
        decreases parts@.len() - i,
    {
        let ghost before = strings_view(parts@).take(i as int);
        if i > 0 {
            append_str(&mut out, sep);
        }
        append_str(&mut out, parts[i].as_str());
        assert(strings_view(parts@).take(i + 1).drop_last() =~= before);
        assert(strings_view(parts@).take(i + 1).last() == parts@[i as int]@);
        i += 1;
    }
    assert(strings_view(parts@).take(parts@.len() as int) =~= strings_view(parts@));
    string_from_chars(&out)
}

/// An error as the desktop front end reports it: the messages of the error
/// and of its causes, joined by ` -> `.
#[derive(Debug)]
pub struct CommandError(pub String);

impl CommandError {
    /// The report of `err`: its chain of messages joined by ` -> `.
    pub fn from_error(err: &AssfontsError) -> (r: CommandError)
        ensures
            r.0@ == join(error_chain(*err), " -> "@),
    {
        let parts = err.messages();
        CommandError(join_strings(&parts, " -> "))
    }
}

} // verus!
