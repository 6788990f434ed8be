//! The options of the two commands: building the font index, and
//! processing scripts.

use vstd::prelude::*;

verus! {

/// The command line: a subcommand, or the options of a run.
#[derive(Debug)]
pub struct Cli {
    pub command: Option<Commands>,
    pub run: RunOptions,
}

/// The subcommands.
#[derive(Debug)]
pub enum Commands {
    /// Build the font index.
    Build(BuildOptions),
}

/// The options of an index build.
#[derive(Debug, Clone)]
pub struct BuildOptions {
    /// The directories to scan for fonts.
    pub fontpaths: Vec<String>,
    /// The directory to write `fonts.index.json` to.
    pub output: String,
}

/// The options of a run over scripts.
#[derive(Debug, Clone)]
pub struct RunOptions {
    /// Scripts, or directories to scan for them.
    pub inputs: Vec<String>,
    /// The directory to write the processed scripts to.
    pub output: String,
    /// Directories to scan for fonts, besides the index.
    pub fontpaths: Option<Vec<String>>,
    /// The directory that holds `fonts.index.json`.
    pub dbpath: String,
    /// Fail on missing fonts, missing characters and font errors.
    pub strict: bool,
    /// Under `strict`, accept fonts that lack characters.
    pub allow_missing_sample: bool,
    /// Accept scripts that ask for fonts that no font serves.
    pub allow_missing_fonts: bool,
    /// Under `strict`, embed the whole font where subsetting fails.
    pub allow_error_fonts: bool,
    /// Write `run-report.json`.
    pub report: bool,
    /// Overwrite existing output files.
    pub force: bool,
}

} // verus!
