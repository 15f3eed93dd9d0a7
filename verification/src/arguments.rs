//! Plain data types for the command-line surface.
//!
//! The executable front end parses the command line into its own mirror of
//! these types and converts; the library only carries the chosen values.

use vstd::prelude::*;

verus! {

/// Top-level invocation: configuration paths, engine choice, display and
/// code-running options, and the user prompt.
#[derive(Clone, Debug)]
pub struct Args {
    pub config_path: String,
    pub creds_path: String,
    pub engine: Subcommands,
    pub formatter: FormatterChoice,
    pub run: RunChoice,
    pub input: String,
}

/// Which backend drives the generation.
#[derive(Clone, Debug)]
pub enum Subcommands {
    OpenAIAPI(OpenAIAPIArgs),
    FromFile(FromFileArgs),
    Local(LocalArgs),
}

/// Remote-API backend selection.
#[derive(Clone, Debug)]
pub struct OpenAIAPIArgs {
    pub model: String,
    pub prompt: String,
}

/// Replay of a stored stream from a file.
#[derive(Clone, Debug)]
pub struct FromFileArgs {
    pub input: String,
}

/// Local-process backend selection.
#[derive(Clone, Debug)]
pub struct LocalArgs {
    pub model: String,
    pub prompt: String,
}

/// How the stream is displayed.
#[derive(Clone, Copy, Debug, PartialEq, Eq, Structural)]
pub enum FormatterChoice {
    Markdown,
    Raw,
}

/// Whether extracted code blocks may be run.
#[derive(Clone, Copy, Debug, PartialEq, Eq, Structural)]
pub enum RunChoice {
    No,
    Ask,
    Force,
}

impl Default for FormatterChoice {
    /// Markdown display is the default.
    fn default() -> (r: Self)
        ensures
            r == FormatterChoice::Markdown,
    {
        FormatterChoice::Markdown
    }
}

impl Default for RunChoice {
    /// By default nothing is run.
    fn default() -> (r: Self)
        ensures
            r == RunChoice::No,
    {
        RunChoice::No
    }
}

} // verus!
