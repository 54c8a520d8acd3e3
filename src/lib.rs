//! An mdBook preprocessor that replaces `{{#compile_output: <step>}}` marker lines with the
//! output of the step's build, wrapped in a fenced text block.
//!
//! The library decides everything but the running of the builds: which lines are markers and
//! what step each names ([`marker`]), how a chapter's text is rewritten once the outputs are
//! known ([`rewrite`]), the pass over the document tree ([`book`]), where a step runs and what
//! block its output becomes ([`step`]), and what the command line asks for ([`cli`]).
use vstd::prelude::*;

pub mod book;
pub mod cli;
pub mod marker;
pub mod rewrite;
pub mod step;
pub mod text;

pub use marker::extract_step_name;
pub use rewrite::process_compile;

verus! {

/// The preprocessor that inlines the output of build steps into chapters.
pub struct CompileOutputPreprocessor;

} // verus!
