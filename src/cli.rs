//! What the first command-line argument asks for.
use vstd::prelude::*;
use vstd::string::StringExecFns;

verus! {

/// The mode that the command line selects.
pub enum Invocation {
    /// Asked whether a renderer is supported: every renderer is.
    Supports,
    /// An argument that is not understood.
    UnknownArgument(String),
    /// No argument: rewrite the book read from standard input.
    Process,
}

/// The mode selected by the first command-line argument, if there is one; later arguments
/// play no part.
pub fn dispatch(first: Option<&str>) -> (r: Invocation)
    ensures
        match first {
            None => r is Process,
            Some(a) => if a@ == "supports"@ {
                r is Supports
            } else {
                r matches Invocation::UnknownArgument(x) && x@ == a@
            },
        },
{
    match first {
        None => Invocation::Process,
        Some(a) => {
            let arg = String::from_str(a);
            let supports = String::from_str("supports");
            if arg == supports {
                Invocation::Supports
            } else {
                Invocation::UnknownArgument(arg)
            }
        },
    }
}

/// The diagnostic for an argument that is not understood.
pub fn unknown_argument_message(arg: &str) -> (r: String)
    ensures
        r@ == "unknown argument: "@ + arg@,
{
    let mut msg = String::from_str("unknown argument: ");
    msg.append(arg);
    msg
}

} // verus!
