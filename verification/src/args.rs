//! What an invocation asks for.
use vstd::prelude::*;
use crate::text::{join, joined, same_text, texts};

verus! {

/// What this invocation should do.
#[derive(Debug, Clone, Copy, PartialEq, Eq)]
pub enum Mode {
    /// Speak the protocol on stdio.
    Serve,
    /// Print the version and exit.
    Version,
}

/// Read the arguments that follow the program's name.
pub fn parse_args(args: &Vec<String>) -> (mode: Result<Mode, String>)
    ensures
        match mode {
            Ok(Mode::Serve) => args@.len() == 0,
            Ok(Mode::Version) => args@.len() == 1 && (args@[0]@ == "--version"@ || args@[0]@
                == "-V"@),
            Err(message) => {
                &&& args@.len() > 0
                &&& args@.len() == 1 ==> args@[0]@ != "--version"@ && args@[0]@ != "-V"@
                &&& message@ == "unexpected arguments: "@ + joined(texts(args@), " "@)
            },
        },
{
    if args.len() == 0 {
        return Ok(Mode::Serve);
    }
    if args.len() == 1 && (same_text(args[0].as_str(), "--version") || same_text(args[0].as_str(), "-V")) {
        return Ok(Mode::Version);
    }
    let mut message = "unexpected arguments: ".to_owned();
    message.append(join(args, " ").as_str());
    Err(message)
}

} // verus!
