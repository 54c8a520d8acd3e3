//! What a build step contributes: the directory it runs in and the block that replaces its marker.
use vstd::prelude::*;
use vstd::string::StringExecFns;
use vstd::utf8::{decode_utf8, valid_utf8};
use crate::text::{chars_of, push_range, skip_white_space, skip_white_space_back, trim};

verus! {

/// The directory, relative to the working directory, in which the step `step` runs.
pub open spec fn step_dir_of(step: Seq<char>) -> Seq<char> {
    "rust_stages/"@ + trim(step)
}

/// `text` as a fenced block labelled as plain text.
pub open spec fn fenced_text(text: Seq<char>) -> Seq<char> {
    "```text\n"@ + text + "\n```"@
}

/// What `String::from_utf8_lossy` makes of `bytes`.
pub uninterp spec fn lossy_text(bytes: Seq<u8>) -> Seq<char>;

/// Relies on `String::from_utf8_lossy`: the text of `bytes` with each invalid sequence replaced
/// by U+FFFD, which is the decoded text itself when `bytes` is valid UTF-8.
#[verifier::external_body]
fn decode_lossy(bytes: &[u8]) -> (r: String)
    ensures
        r@ == lossy_text(bytes@),
        valid_utf8(bytes@) ==> r@ == decode_utf8(bytes@),
{
    String::from_utf8_lossy(bytes).into_owned()
}

/// The directory in which the step `step` runs: the stages directory joined with the trimmed name.
pub fn step_dir(step: &str) -> (r: String)
    ensures
        r@ == step_dir_of(step@),
{
    let s = chars_of(step);
    let a = skip_white_space(&s, 0, s.len());
    let b = skip_white_space_back(&s, a, s.len());
    assert(s@.subrange(0, s@.len() as int) =~= s@);
    let mut out = String::from_str("rust_stages/");
    push_range(&mut out, &s, a, b);
    out
}

/// `text` wrapped in a fenced block labelled as plain text.
pub fn fenced(text: &str) -> (r: String)
    ensures
        r@ == fenced_text(text@),
{
    let mut out = String::from_str("```text\n");
    out.append(text);
    out.append("\n```");
    out
}

/// The block that replaces a step's marker: its standard output when the step succeeded, its
/// standard error otherwise, decoded leniently.
pub fn compile_output(success: bool, stdout: &[u8], stderr: &[u8]) -> (r: String)
    ensures
        r@ == fenced_text(lossy_text(if success { stdout@ } else { stderr@ })),
        valid_utf8(if success { stdout@ } else { stderr@ }) ==> r@ == fenced_text(
            decode_utf8(if success { stdout@ } else { stderr@ }),
        ),
{
    let text = if success {
        decode_lossy(stdout)
    } else {
        decode_lossy(stderr)
    };
    fenced(text.as_str())
}

} // verus!
